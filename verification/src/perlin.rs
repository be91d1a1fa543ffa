use vstd::prelude::*;

verus! {

/// Side length of the noise lattice's lookup tables.
pub const POINT_COUNT: usize = 256;

/// `s` holds each of the numbers `0 .. n` exactly once.
pub open spec fn is_permutation(s: Seq<usize>, n: int) -> bool {
    &&& s.len() == n
    &&& forall|i: int| 0 <= i < s.len() ==> (#[trigger] s[i]) < n
    &&& forall|i: int, j: int| 0 <= i < j < s.len() ==> s[i] != s[j]
}

/// The sequence `0, 1, .., n - 1`.
pub open spec fn counting(n: nat) -> Seq<usize> {
    Seq::new(n, |i: int| i as usize)
}

/// `table` is what a shuffle makes of `0, 1, .., POINT_COUNT - 1` with some
/// draws.
pub open spec fn is_shuffle(table: Seq<usize>) -> bool {
    exists|draws: Seq<usize>|
        draws_fit(draws, 256) && table == shuffled(counting(256), draws, 256, 1)
}

/// `s` with the entries at `i` and `j` exchanged.
pub open spec fn swapped(s: Seq<usize>, i: int, j: int) -> Seq<usize> {
    s.update(i, s[j]).update(j, s[i])
}

/// The table position that a lattice coordinate `c` falls on: coordinates
/// repeat with period `POINT_COUNT`.
pub open spec fn wrap_index(c: int) -> int {
    c % 256
}

/// The three permutation tables of a gradient-noise lattice.
pub struct Perlin {
    perm_x: [usize; 256],
    perm_y: [usize; 256],
    perm_z: [usize; 256],
}

/// Draws a number with `rand::Rng::gen_range` on `rand::thread_rng()`, over
/// the half-open range from zero to `bound`. The range is never empty here, so
/// the call does not panic; all that is claimed of the draw is that it lies in
/// the range.
#[verifier::external_body]
fn random_below(bound: usize) -> (r: usize)
    requires
        bound > 0,
    ensures
        r < bound,
{
    rand::Rng::gen_range(&mut rand::thread_rng(), 0..bound)
}

/// Exchanges the entries at `i` and `target`.
pub fn swap_entries(perm: &mut [usize], i: usize, target: usize)
    requires
        i < old(perm).len(),
        target < old(perm).len(),
    ensures
        final(perm)@ == swapped(old(perm)@, i as int, target as int),
{
    let a: usize = perm[i];
    let b: usize = perm[target];
    perm[i] = b;
    perm[target] = a;
}

/// Exchanging two entries rearranges a sequence and keeps what it holds.
pub proof fn lemma_swapped_rearranges(s: Seq<usize>, i: int, j: int)
    requires
        0 <= i < s.len(),
        0 <= j < s.len(),
    ensures
        swapped(s, i, j).len() == s.len(),
        swapped(s, i, j).to_multiset() == s.to_multiset(),
        forall|n: int| is_permutation(s, n) ==> is_permutation(swapped(s, i, j), n),
{
    broadcast use vstd::seq_lib::to_multiset_update;
    broadcast use vstd::multiset::group_multiset_axioms;

    let t = s.update(i, s[j]);
    assert(t.to_multiset() == s.to_multiset().insert(s[j]).remove(s[i]));
    assert(t[j] == s[j]);
    assert(swapped(s, i, j).to_multiset() == t.to_multiset().insert(s[i]).remove(s[j]));
    assert(swapped(s, i, j).to_multiset() =~= s.to_multiset()) by {
        s.to_multiset_ensures();
        assert(s.to_multiset().count(s[i]) > 0);
        assert(s.to_multiset().count(s[j]) > 0);
    }
    assert forall|n: int| is_permutation(s, n) implies is_permutation(swapped(s, i, j), n) by {
        let w = swapped(s, i, j);
        assert forall|a: int, b: int| 0 <= a < b < w.len() implies w[a] != w[b] by {
            let pa = if a == i { j } else if a == j { i } else { a };
            let pb = if b == i { j } else if b == j { i } else { b };
            assert(w[a] == s[pa]);
            assert(w[b] == s[pb]);
            assert(pa != pb);
            if pa < pb {
                assert(s[pa] != s[pb]);
            } else {
                assert(s[pb] != s[pa]);
            }
        }
        assert forall|a: int| 0 <= a < w.len() implies (#[trigger] w[a]) < n by {
            let pa = if a == i { j } else if a == j { i } else { a };
            assert(w[a] == s[pa]);
        }
    }
}

/// `s` after the shuffle has dealt with the positions `n - 2` down to `i`:
/// the entry at each position changed places with the one at the position
/// that `draws` holds for it.
pub open spec fn shuffled(s: Seq<usize>, draws: Seq<usize>, n: int, i: int) -> Seq<usize>
    decreases n - i,
{
    if i > n - 2 {
        s
    } else {
        swapped(shuffled(s, draws, n, i + 1), i, draws[i] as int)
    }
}

/// `draws` holds, for each position from 1 to `n - 2`, a position before it.
pub open spec fn draws_fit(draws: Seq<usize>, n: int) -> bool {
    &&& draws.len() >= n - 1
    &&& forall|i: int| 1 <= i <= n - 2 ==> (#[trigger] draws[i]) < i
}

/// What the shuffle has done from position `i` down does not depend on the
/// draws for the positions before `i`.
pub proof fn lemma_shuffled_frame(s: Seq<usize>, a: Seq<usize>, b: Seq<usize>, n: int, i: int)
    requires
        forall|k: int| i <= k <= n - 2 ==> a[k] == b[k],
    ensures
        shuffled(s, a, n, i) == shuffled(s, b, n, i),
    decreases n - i,
{
    if i <= n - 2 {
        lemma_shuffled_frame(s, a, b, n, i + 1);
    }
}

/// A shuffle rearranges: it keeps the length and what the sequence holds.
pub proof fn lemma_shuffled_rearranges(s: Seq<usize>, draws: Seq<usize>, n: int, i: int)
    requires
        1 <= i,
        n <= s.len(),
        draws_fit(draws, n),
    ensures
        shuffled(s, draws, n, i).len() == s.len(),
        shuffled(s, draws, n, i).to_multiset() == s.to_multiset(),
        forall|m: int| is_permutation(s, m) ==> is_permutation(shuffled(s, draws, n, i), m),
        forall|k: int| n - 1 <= k < s.len() ==> shuffled(s, draws, n, i)[k] == s[k],
    decreases n - i,
{
    if i <= n - 2 {
        lemma_shuffled_rearranges(s, draws, n, i + 1);
        lemma_swapped_rearranges(shuffled(s, draws, n, i + 1), i, draws[i] as int);
    }
}

/// Shuffles the first `n - 1` entries of `perm` in place with the given
/// draws: from position `n - 2` down to position 1, each entry changes places
/// with the one at the position drawn for it.
pub fn permute_with(perm: &mut [usize], n: usize, draws: &[usize])
    requires
        n <= old(perm).len(),
        draws_fit(draws@, n as int),
    ensures
        final(perm)@ == shuffled(old(perm)@, draws@, n as int, 1),
{
    if n < 3 {
        return ;
    }
    let ghost before = perm@;
    let mut i: usize = n - 2;
    while i >= 1
        invariant
            n >= 3,
            i <= n - 2,
            n <= perm.len(),
            perm.len() == before.len(),
            draws_fit(draws@, n as int),
            perm@ == shuffled(before, draws@, n as int, i + 1),
        decreases i,
    {
        let target: usize = draws[i];
        swap_entries(perm, i, target);
        i = i - 1;
    }
}

/// Shuffles the first `n - 1` entries of `perm` in place: from position
/// `n - 2` down to position 1, each entry changes places with one drawn at
/// random from those before it. The entries from `n - 1` on stay where they
/// are, and so does everything when `n` is less than 3.
pub fn permute(perm: &mut [usize], n: usize)
    requires
        n <= old(perm).len(),
    ensures
        exists|draws: Seq<usize>|
            draws_fit(draws, n as int) && final(perm)@ == shuffled(old(perm)@, draws, n as int, 1),
        final(perm).len() == old(perm).len(),
        final(perm)@.to_multiset() == old(perm)@.to_multiset(),
        forall|m: int| is_permutation(old(perm)@, m) ==> is_permutation(final(perm)@, m),
        forall|k: int| n - 1 <= k < old(perm).len() ==> final(perm)@[k] == old(perm)@[k],
        n < 3 ==> final(perm)@ == old(perm)@,
{
    let ghost before = perm@;
    let ghost mut draws: Seq<usize> = Seq::new(n as nat, |k: int| 0usize);
    if n >= 3 {
        let mut i: usize = n - 2;
        while i >= 1
            invariant
                n >= 3,
                i <= n - 2,
                n <= perm.len(),
                perm.len() == before.len(),
                draws.len() == n,
                forall|k: int| i < k <= n - 2 ==> (#[trigger] draws[k]) < k,
                perm@ == shuffled(before, draws, n as int, i + 1),
            decreases i,
        {
            let target: usize = random_below(i);
            proof {
                let earlier = draws;
                draws = draws.update(i as int, target);
                lemma_shuffled_frame(before, earlier, draws, n as int, i + 1);
            }
            swap_entries(perm, i, target);
            i = i - 1;
        }
    }
    proof {
        assert(draws_fit(draws, n as int));
        lemma_shuffled_rearranges(before, draws, n as int, 1);
    }
}

/// The table `0, 1, .., POINT_COUNT - 1`, shuffled by `permute`.
pub fn perlin_generate_perm() -> (perm: [usize; 256])
    ensures
        is_shuffle(perm@),
        is_permutation(perm@, 256),
        perm@[255] == 255,
{
    let mut perm: [usize; 256] = [0usize; 256];
    let mut i: usize = 0;
    while i < POINT_COUNT
        invariant
            i <= 256,
            forall|k: int| 0 <= k < i ==> perm@[k] == k,
        decreases 256 - i,
    {
        perm[i] = i;
        i = i + 1;
    }
    assert(perm@ =~= counting(256));
    assert(is_permutation(perm@, 256));
    permute(&mut perm, POINT_COUNT);
    perm
}

impl Perlin {
    /// Each table is a permutation of `0 .. POINT_COUNT`.
    pub closed spec fn wf(&self) -> bool {
        &&& is_permutation(self.perm_x@, 256)
        &&& is_permutation(self.perm_y@, 256)
        &&& is_permutation(self.perm_z@, 256)
    }

    /// The table for the x coordinate; `table_y` and `table_z` are those for
    /// the other two.
    pub closed spec fn table_x(&self) -> Seq<usize> {
        self.perm_x@
    }

    pub closed spec fn table_y(&self) -> Seq<usize> {
        self.perm_y@
    }

    pub closed spec fn table_z(&self) -> Seq<usize> {
        self.perm_z@
    }

    /// The gradient slot of the lattice point `(i, j, k)`.
    pub open spec fn spec_lattice_index(&self, i: int, j: int, k: int) -> int {
        (self.table_x()[wrap_index(i)] ^ self.table_y()[wrap_index(j)]
            ^ self.table_z()[wrap_index(k)]) as int
    }

    /// Three freshly shuffled tables: each is a shuffle of `0, 1, ..,
    /// POINT_COUNT - 1` with draws of its own.
    pub fn new() -> (r: Self)
        ensures
            r.wf(),
            is_shuffle(r.table_x()),
            is_shuffle(r.table_y()),
            is_shuffle(r.table_z()),
    {
        Perlin {
            perm_x: perlin_generate_perm(),
            perm_y: perlin_generate_perm(),
            perm_z: perlin_generate_perm(),
        }
    }

    /// A lattice over the given tables, or `None` unless each of them is a
    /// permutation of `0 .. POINT_COUNT`.
    pub fn from_tables(perm_x: [usize; 256], perm_y: [usize; 256], perm_z: [usize; 256]) -> (r: Option<
        Self,
    >)
        ensures
            r.is_some() == (is_permutation(perm_x@, 256) && is_permutation(perm_y@, 256)
                && is_permutation(perm_z@, 256)),
            r.is_some() ==> r.unwrap().wf() && r.unwrap().table_x() == perm_x@
                && r.unwrap().table_y() == perm_y@ && r.unwrap().table_z() == perm_z@,
    {
        if check_permutation(&perm_x) && check_permutation(&perm_y) && check_permutation(&perm_z) {
            Some(Perlin { perm_x, perm_y, perm_z })
        } else {
            None
        }
    }

    /// The gradient slot of the lattice point `(i, j, k)`: the three table
    /// entries at the wrapped coordinates, combined bit by bit. It is always a
    /// valid slot.
    pub fn lattice_index(&self, i: i32, j: i32, k: i32) -> (r: usize)
        requires
            self.wf(),
        ensures
            r == self.spec_lattice_index(i as int, j as int, k as int),
            r < 256,
    {
        let xi: usize = wrap(i);
        let yi: usize = wrap(j);
        let zi: usize = wrap(k);
        let a: usize = self.perm_x[xi];
        let b: usize = self.perm_y[yi];
        let c: usize = self.perm_z[zi];
        assert((a ^ b ^ c) < 256) by (bit_vector)
            requires
                a < 256,
                b < 256,
                c < 256,
        ;
        a ^ b ^ c
    }

    /// The gradient slots of the eight lattice points around a cell: the
    /// point `(i + di, j + dj, k + dk)` stands at position `4 di + 2 dj + dk`.
    pub fn corner_slots(&self, i: i32, j: i32, k: i32) -> (r: Vec<usize>)
        requires
            self.wf(),
            i < i32::MAX,
            j < i32::MAX,
            k < i32::MAX,
        ensures
            r@.len() == 8,
            forall|di: int, dj: int, dk: int|
                0 <= di <= 1 && 0 <= dj <= 1 && 0 <= dk <= 1 ==> #[trigger] r@[4 * di + 2 * dj + dk]
                    == self.spec_lattice_index(i + di, j + dj, k + dk),
            forall|n: int| 0 <= n < 8 ==> (#[trigger] r@[n]) < 256,
    {
        let mut r: Vec<usize> = Vec::new();
        r.push(self.lattice_index(i, j, k));
        r.push(self.lattice_index(i, j, k + 1));
        r.push(self.lattice_index(i, j + 1, k));
        r.push(self.lattice_index(i, j + 1, k + 1));
        r.push(self.lattice_index(i + 1, j, k));
        r.push(self.lattice_index(i + 1, j, k + 1));
        r.push(self.lattice_index(i + 1, j + 1, k));
        r.push(self.lattice_index(i + 1, j + 1, k + 1));
        r
    }
}

/// The table position of coordinate `c`.
pub fn wrap(c: i32) -> (r: usize)
    ensures
        r == wrap_index(c as int),
        r < 256,
{
    let m: i32 = c & 255;
    assert(0 <= m < 256 && m == c % 256) by (bit_vector)
        requires
            m == c & 255,
    ;
    m as usize
}

/// Whether `perm` holds each of `0 .. POINT_COUNT` exactly once.
pub fn check_permutation(perm: &[usize]) -> (r: bool)
    ensures
        r == is_permutation(perm@, 256),
{
    if perm.len() != POINT_COUNT {
        return false;
    }
    let mut seen: Vec<bool> = Vec::new();
    let mut i: usize = 0;
    while i < POINT_COUNT
        invariant
            i <= 256,
            seen.len() == i,
            forall|k: int| 0 <= k < i ==> !seen@[k],
        decreases 256 - i,
    {
        seen.push(false);
        i = i + 1;
    }
    i = 0;
    while i < POINT_COUNT
        invariant
            i <= 256,
            perm.len() == 256,
            seen.len() == 256,
            forall|k: int| 0 <= k < i ==> (#[trigger] perm@[k]) < 256,
            forall|a: int, b: int| 0 <= a < b < i ==> perm@[a] != perm@[b],
            forall|v: int|
                0 <= v < 256 ==> (#[trigger] seen@[v] <==> exists|k: int|
                    0 <= k < i && perm@[k] == v),
        decreases 256 - i,
    {
        let v: usize = perm[i];
        if v >= POINT_COUNT {
            return false;
        }
        if seen[v] {
            let ghost k0 = choose|k: int| 0 <= k < i && perm@[k] == v;
            assert(perm@[k0] == perm@[i as int]);
            return false;
        }
        let ghost seen_before = seen@;
        seen.set(v, true);
        assert forall|w: int| 0 <= w < 256 implies (#[trigger] seen@[w] <==> exists|k: int|
            0 <= k < i + 1 && perm@[k] == w) by {
            if w == v {
                assert(perm@[i as int] == w);
            } else {
                assert(seen@[w] == seen_before[w]);
                if seen_before[w] {
                    let k1 = choose|k: int| 0 <= k < i && perm@[k] == w;
                    assert(0 <= k1 < i + 1 && perm@[k1] == w);
                }
            }
        }
        assert forall|a: int, b: int| 0 <= a < b < i + 1 implies perm@[a] != perm@[b] by {
            if b == i {
                if perm@[a] == v {
                    assert(seen_before[v as int]);
                }
            }
        }
        i = i + 1;
    }
    true
}

} // verus!
