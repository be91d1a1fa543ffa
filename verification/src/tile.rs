use vstd::prelude::*;
use vstd::arithmetic::div_mod::{lemma_fundamental_div_mod, lemma_fundamental_div_mod_converse};
use crate::image::{lemma_slots, Image};

verus! {

/// A rectangle of pixels: the columns `start_x .. end_x` of the rows
/// `start_y .. end_y`.
#[derive(Debug, Clone, Copy, PartialEq, Eq, Structural)]
pub struct Tile {
    pub start_x: usize,
    pub start_y: usize,
    pub end_x: usize,
    pub end_y: usize,
}

impl Tile {
    /// The pixel in row `row`, column `col` belongs to the tile.
    pub open spec fn holds(self, row: int, col: int) -> bool {
        self.start_y <= row < self.end_y && self.start_x <= col < self.end_x
    }
}

/// How many stretches of `tile_size` it takes to cover `length`.
pub open spec fn spec_chunk_count(length: int, tile_size: int) -> int {
    (length + tile_size - 1) / tile_size
}

/// The end of the stretch of `tile_size` that starts at `start`, cut off at
/// `length`.
pub open spec fn stretch_end(start: int, tile_size: int, length: int) -> int {
    if start + tile_size < length {
        start + tile_size
    } else {
        length
    }
}

/// The tile in column `chunk_x`, row `chunk_y` of the grid of tiles: a square
/// of side `tile_size`, cut off at the edges of the image.
pub open spec fn spec_tile(chunk_x: int, chunk_y: int, tile_size: int, width: int, height: int) -> Tile {
    Tile {
        start_x: (chunk_x * tile_size) as usize,
        start_y: (chunk_y * tile_size) as usize,
        end_x: stretch_end(chunk_x * tile_size, tile_size, width) as usize,
        end_y: stretch_end(chunk_y * tile_size, tile_size, height) as usize,
    }
}

/// The count of stretches is the least number of them that reaches `length`.
pub proof fn lemma_chunk_count(length: int, tile_size: int)
    requires
        0 <= length,
        0 < tile_size,
    ensures
        spec_chunk_count(length, tile_size) == length / tile_size + if length % tile_size == 0 {
            0int
        } else {
            1int
        },
        0 <= spec_chunk_count(length, tile_size) <= length,
        length <= spec_chunk_count(length, tile_size) * tile_size,
        forall|c: int|
            0 <= c < spec_chunk_count(length, tile_size) ==> 0 <= #[trigger] (c * tile_size)
                < length,
        forall|c: int|
            0 <= c && #[trigger] (c * tile_size) < length ==> c < spec_chunk_count(
                length,
                tile_size,
            ),
{
    let q = length / tile_size;
    let r = length % tile_size;
    lemma_fundamental_div_mod(length, tile_size);
    assert(length == q * tile_size + r) by (nonlinear_arith)
        requires
            length == tile_size * q + r,
    ;
    let n = if r == 0 {
        q
    } else {
        q + 1
    };
    if r == 0 {
        lemma_fundamental_div_mod_converse(length + tile_size - 1, tile_size, q, tile_size - 1);
    } else {
        assert(length + tile_size - 1 == (q + 1) * tile_size + (r - 1)) by (nonlinear_arith)
            requires
                length == q * tile_size + r,
        ;
        lemma_fundamental_div_mod_converse(length + tile_size - 1, tile_size, q + 1, r - 1);
    }
    assert(spec_chunk_count(length, tile_size) == n);
    assert(0 <= q && n <= length) by (nonlinear_arith)
        requires
            length == q * tile_size + r,
            0 <= r < tile_size,
            0 <= length,
            n == if r == 0 {
                q
            } else {
                q + 1
            },
    ;
    assert(length <= n * tile_size) by (nonlinear_arith)
        requires
            length == q * tile_size + r,
            0 <= r < tile_size,
            n == if r == 0 {
                q
            } else {
                q + 1
            },
    ;
    assert forall|c: int| 0 <= c < n implies 0 <= #[trigger] (c * tile_size) < length by {
        assert(0 <= c * tile_size < length) by (nonlinear_arith)
            requires
                0 <= c < n,
                length == q * tile_size + r,
                0 <= r < tile_size,
                n == if r == 0 {
                    q
                } else {
                    q + 1
                },
        ;
    }
    assert forall|c: int| 0 <= c && #[trigger] (c * tile_size) < length implies c < n by {
        assert(c < n) by (nonlinear_arith)
            requires
                0 <= c,
                c * tile_size < length,
                length <= n * tile_size,
                0 < tile_size,
        ;
    }
}

/// How many tiles of side `tile_size` it takes to cover `length` pixels.
pub fn chunk_count(length: usize, tile_size: usize) -> (r: usize)
    requires
        tile_size > 0,
    ensures
        r == spec_chunk_count(length as int, tile_size as int),
{
    proof {
        lemma_chunk_count(length as int, tile_size as int);
    }
    let whole: usize = length / tile_size;
    if length % tile_size == 0 {
        whole
    } else {
        whole + 1
    }
}

/// The pixel bounds of the tile in column `chunk_x`, row `chunk_y` of the
/// grid of tiles.
pub fn tile_bounds(chunk_x: usize, chunk_y: usize, tile_size: usize, width: usize, height: usize) -> (r:
    Tile)
    requires
        tile_size > 0,
        chunk_x < spec_chunk_count(width as int, tile_size as int),
        chunk_y < spec_chunk_count(height as int, tile_size as int),
    ensures
        r == spec_tile(
            chunk_x as int,
            chunk_y as int,
            tile_size as int,
            width as int,
            height as int,
        ),
        r.start_x < r.end_x <= width,
        r.start_y < r.end_y <= height,
        r.end_x - r.start_x <= tile_size,
        r.end_y - r.start_y <= tile_size,
{
    proof {
        lemma_chunk_count(width as int, tile_size as int);
        lemma_chunk_count(height as int, tile_size as int);
        assert(0 <= chunk_x * tile_size < width);
        assert(0 <= chunk_y * tile_size < height);
    }
    let start_x: usize = chunk_x * tile_size;
    let start_y: usize = chunk_y * tile_size;
    let end_x: usize = if width - start_x > tile_size {
        start_x + tile_size
    } else {
        width
    };
    let end_y: usize = if height - start_y > tile_size {
        start_y + tile_size
    } else {
        height
    };
    Tile { start_x, start_y, end_x, end_y }
}

/// Every pixel of the image lies in exactly one tile of the grid: the one in
/// column `col / tile_size`, row `row / tile_size`.
pub proof fn lemma_tile_partition(width: int, height: int, tile_size: int, row: int, col: int)
    requires
        0 < tile_size,
        0 <= row < height <= usize::MAX,
        0 <= col < width <= usize::MAX,
    ensures
        0 <= col / tile_size < spec_chunk_count(width, tile_size),
        0 <= row / tile_size < spec_chunk_count(height, tile_size),
        spec_tile(col / tile_size, row / tile_size, tile_size, width, height).holds(row, col),
        forall|chunk_x: int, chunk_y: int|
            0 <= chunk_x < spec_chunk_count(width, tile_size) && 0 <= chunk_y < spec_chunk_count(
                height,
                tile_size,
            ) && (#[trigger] spec_tile(chunk_x, chunk_y, tile_size, width, height)).holds(row, col)
                ==> chunk_x == col / tile_size && chunk_y == row / tile_size,
{
    lemma_chunk_count(width, tile_size);
    lemma_chunk_count(height, tile_size);
    lemma_stretch(width, tile_size, col);
    lemma_stretch(height, tile_size, row);
    assert forall|chunk_x: int, chunk_y: int|
        0 <= chunk_x < spec_chunk_count(width, tile_size) && 0 <= chunk_y < spec_chunk_count(
            height,
            tile_size,
        ) && (#[trigger] spec_tile(chunk_x, chunk_y, tile_size, width, height)).holds(
            row,
            col,
        ) implies chunk_x == col / tile_size && chunk_y == row / tile_size by {
        assert(0 <= chunk_x * tile_size < width);
        assert(0 <= chunk_y * tile_size < height);
        lemma_fundamental_div_mod_converse(col, tile_size, chunk_x, col - chunk_x * tile_size);
        lemma_fundamental_div_mod_converse(row, tile_size, chunk_y, row - chunk_y * tile_size);
    }
}

/// A position below `length` lies in the stretch numbered `at / tile_size`.
proof fn lemma_stretch(length: int, tile_size: int, at: int)
    requires
        0 < tile_size,
        0 <= at < length <= usize::MAX,
    ensures
        0 <= at / tile_size,
        (at / tile_size) * tile_size <= at < stretch_end(
            (at / tile_size) * tile_size,
            tile_size,
            length,
        ),
        (at / tile_size) * tile_size < length,
{
    lemma_fundamental_div_mod(at, tile_size);
    let q = at / tile_size;
    let r = at % tile_size;
    assert(at == q * tile_size + r && 0 <= q) by (nonlinear_arith)
        requires
            at == tile_size * q + r,
            0 <= r < tile_size,
            0 <= at,
    ;
}

/// The grid positions of all tiles, row of tiles after row of tiles: as
/// pairs of column and row.
pub fn chunk_coordinates(width: usize, height: usize, tile_size: usize) -> (r: Vec<(usize, usize)>)
    requires
        tile_size > 0,
        spec_chunk_count(width as int, tile_size as int) * spec_chunk_count(
            height as int,
            tile_size as int,
        ) <= usize::MAX,
    ensures
        r@.len() == spec_chunk_count(width as int, tile_size as int) * spec_chunk_count(
            height as int,
            tile_size as int,
        ),
        forall|k: int|
            0 <= k < r@.len() ==> (#[trigger] r@[k]).0 == k % spec_chunk_count(
                width as int,
                tile_size as int,
            ) && r@[k].1 == k / spec_chunk_count(width as int, tile_size as int),
{
    let chunks_x: usize = chunk_count(width, tile_size);
    let chunks_y: usize = chunk_count(height, tile_size);
    proof {
        assert(chunks_y * chunks_x == chunks_x * chunks_y) by (nonlinear_arith);
    }
    let mut r: Vec<(usize, usize)> = Vec::new();
    let mut chunk_y: usize = 0;
    while chunk_y < chunks_y
        invariant
            chunk_y <= chunks_y,
            chunks_x * chunks_y <= usize::MAX,
            r@.len() == chunk_y * chunks_x,
            forall|k: int|
                0 <= k < r@.len() ==> (#[trigger] r@[k]).0 == k % (chunks_x as int) && r@[k].1 == k
                    / (chunks_x as int),
        decreases chunks_y - chunk_y,
    {
        proof {
            assert(chunk_y * chunks_x + chunks_x <= chunks_x * chunks_y) by (nonlinear_arith)
                requires
                    chunk_y < chunks_y,
            ;
        }
        let mut chunk_x: usize = 0;
        while chunk_x < chunks_x
            invariant
                chunk_x <= chunks_x,
                chunk_y < chunks_y,
                chunks_x * chunks_y <= usize::MAX,
                chunk_y * chunks_x + chunks_x <= chunks_x * chunks_y,
                r@.len() == chunk_y * chunks_x + chunk_x,
                forall|k: int|
                    0 <= k < r@.len() ==> (#[trigger] r@[k]).0 == k % (chunks_x as int) && r@[k].1
                        == k / (chunks_x as int),
            decreases chunks_x - chunk_x,
        {
            proof {
                lemma_fundamental_div_mod_converse(
                    chunk_y * chunks_x + chunk_x,
                    chunks_x as int,
                    chunk_y as int,
                    chunk_x as int,
                );
            }
            r.push((chunk_x, chunk_y));
            chunk_x = chunk_x + 1;
        }
        proof {
            assert((chunk_y + 1) * chunks_x == chunk_y * chunks_x + chunks_x) by (nonlinear_arith);
        }
        chunk_y = chunk_y + 1;
    }
    r
}

/// `buffer` holds a colour for the pixel in row `row`, column `col`.
pub open spec fn lists<P>(buffer: Seq<(usize, usize, P)>, row: int, col: int) -> bool {
    exists|k: int| 0 <= k < buffer.len() && (#[trigger] buffer[k]).0 == row && buffer[k].1 == col
}

/// The last colour that `buffer` holds for the pixel in row `row`, column
/// `col` is `p`.
pub open spec fn lists_as<P>(buffer: Seq<(usize, usize, P)>, row: int, col: int, p: P) -> bool {
    exists|k: int|
        0 <= k < buffer.len() && (#[trigger] buffer[k]).0 == row && buffer[k].1 == col
            && buffer[k].2 == p && names_last(buffer, row, col, k)
}

/// No entry of `buffer` after the one at `k` names the pixel in row `row`,
/// column `col`.
pub open spec fn names_last<P>(buffer: Seq<(usize, usize, P)>, row: int, col: int, k: int) -> bool {
    forall|j: int| k < j < buffer.len() ==> !((#[trigger] buffer[j]).0 == row && buffer[j].1 == col)
}

/// The width of `tile`: nothing where its bounds are crossed.
pub open spec fn tile_width(tile: Tile) -> int {
    if tile.end_x > tile.start_x {
        tile.end_x - tile.start_x
    } else {
        0
    }
}

/// The height of `tile`: nothing where its bounds are crossed.
pub open spec fn tile_height(tile: Tile) -> int {
    if tile.end_y > tile.start_y {
        tile.end_y - tile.start_y
    } else {
        0
    }
}

/// Shades every pixel of `tile`, row by row, into a list of row, column and
/// colour.
pub fn render_tile<P, F: Fn(usize, usize) -> P>(tile: Tile, shade: &F) -> (buffer: Vec<
    (usize, usize, P),
>)
    requires
        forall|row: usize, col: usize|
            tile.holds(row as int, col as int) ==> #[trigger] shade.requires((row, col)),
    ensures
        forall|k: int|
            0 <= k < buffer@.len() ==> tile.holds(
                (#[trigger] buffer@[k]).0 as int,
                buffer@[k].1 as int,
            ) && shade.ensures((buffer@[k].0, buffer@[k].1), buffer@[k].2),
        forall|row: int, col: int| tile.holds(row, col) ==> lists(buffer@, row, col),
        buffer@.len() == tile_height(tile) * tile_width(tile),
        forall|k: int|
            0 <= k < buffer@.len() ==> (#[trigger] buffer@[k]).0 == tile.start_y + k / tile_width(
                tile,
            ) && buffer@[k].1 == tile.start_x + k % tile_width(tile),
{
    let mut buffer: Vec<(usize, usize, P)> = Vec::new();
    let mut row: usize = tile.start_y;
    let ghost w = tile_width(tile);
    proof {
        assert(0 * w == 0) by (nonlinear_arith);
    }
    while row < tile.end_y
        invariant
            tile.start_y <= row <= tile.end_y || (tile.end_y < tile.start_y && row == tile.start_y),
            w == tile_width(tile),
            buffer@.len() == (row - tile.start_y) * w,
            forall|k: int|
                0 <= k < buffer@.len() ==> (#[trigger] buffer@[k]).0 == tile.start_y + k / w
                    && buffer@[k].1 == tile.start_x + k % w,
            tile.start_y <= row,
            forall|r: usize, c: usize|
                tile.holds(r as int, c as int) ==> #[trigger] shade.requires((r, c)),
            forall|k: int|
                0 <= k < buffer@.len() ==> tile.holds(
                    (#[trigger] buffer@[k]).0 as int,
                    buffer@[k].1 as int,
                ) && shade.ensures((buffer@[k].0, buffer@[k].1), buffer@[k].2),
            forall|r: int, c: int| tile.holds(r, c) && r < row ==> lists(buffer@, r, c),
        decreases tile.end_y - row,
    {
        let mut col: usize = tile.start_x;
        while col < tile.end_x
            invariant
                tile.start_y <= row < tile.end_y,
                tile.start_x <= col <= tile.end_x || (tile.end_x < tile.start_x && col
                    == tile.start_x),
                w == tile_width(tile),
                buffer@.len() == (row - tile.start_y) * w + (col - tile.start_x),
                forall|k: int|
                    0 <= k < buffer@.len() ==> (#[trigger] buffer@[k]).0 == tile.start_y + k / w
                        && buffer@[k].1 == tile.start_x + k % w,
                tile.start_x <= col,
                forall|r: usize, c: usize|
                    tile.holds(r as int, c as int) ==> #[trigger] shade.requires((r, c)),
                forall|k: int|
                    0 <= k < buffer@.len() ==> tile.holds(
                        (#[trigger] buffer@[k]).0 as int,
                        buffer@[k].1 as int,
                    ) && shade.ensures((buffer@[k].0, buffer@[k].1), buffer@[k].2),
                forall|r: int, c: int|
                    tile.holds(r, c) && (r < row || (r == row && c < col)) ==> lists(
                        buffer@,
                        r,
                        c,
                    ),
            decreases tile.end_x - col,
        {
            let ghost before = buffer@;
            assert(tile.holds(row as int, col as int));
            let color = shade(row, col);
            buffer.push((row, col, color));
            proof {
                lemma_fundamental_div_mod_converse(
                    before.len() as int,
                    w,
                    row - tile.start_y,
                    col - tile.start_x,
                );
                assert forall|r: int, c: int|
                    tile.holds(r, c) && (r < row || (r == row && c < col + 1)) implies lists(
                    buffer@,
                    r,
                    c,
                ) by {
                    if r == row && c == col {
                        assert(buffer@[before.len() as int].0 == row);
                    } else {
                        let k = choose|k: int|
                            0 <= k < before.len() && (#[trigger] before[k]).0 == r && before[k].1
                                == c;
                        assert(buffer@[k] == before[k]);
                    }
                }
            }
            col = col + 1;
        }
        proof {
            assert((row + 1 - tile.start_y) * w == (row - tile.start_y) * w + w)
                by (nonlinear_arith);
        }
        row = row + 1;
    }
    proof {
        assert(0 * w == 0) by (nonlinear_arith);
        assert(row - tile.start_y == tile_height(tile));
    }
    buffer
}

/// The pixel in row `row`, column `col` of `after` is as `before` had it if
/// `buffer` does not name it, and has a colour that `buffer` holds for it
/// otherwise: the last one, where the list names the pixel more than once.
pub open spec fn committed<P: Copy>(
    before: Image<P>,
    after: Image<P>,
    buffer: Seq<(usize, usize, P)>,
    row: int,
    col: int,
) -> bool {
    (!lists(buffer, row, col) && after.pixel(row, col) == before.pixel(row, col)) || lists_as(
        buffer,
        row,
        col,
        after.pixel(row, col),
    )
}

/// Writes the colours of `buffer` into `image`, in the order of the list.
/// A pixel that the list does not name keeps its colour; one that it names
/// gets the last colour that the list holds for it.
pub fn commit_tile<P: Copy>(image: &mut Image<P>, buffer: &Vec<(usize, usize, P)>)
    requires
        old(image).wf(),
        forall|k: int|
            0 <= k < buffer@.len() ==> (#[trigger] buffer@[k]).0 < old(image).spec_height()
                && buffer@[k].1 < old(image).spec_width(),
    ensures
        final(image).wf(),
        final(image).spec_width() == old(image).spec_width(),
        final(image).spec_height() == old(image).spec_height(),
        forall|row: int, col: int|
            0 <= row < old(image).spec_height() && 0 <= col < old(image).spec_width()
                ==> #[trigger] committed(*old(image), *final(image), buffer@, row, col),
{
    let ghost start = *image;
    let ghost width = image.spec_width();
    let ghost height = image.spec_height();
    proof {
        image.lemma_size();
    }
    let mut i: usize = 0;
    while i < buffer.len()
        invariant
            i <= buffer@.len(),
            image.wf(),
            image.spec_width() == width,
            image.spec_height() == height,
            start.spec_width() == width,
            start.spec_height() == height,
            image@.len() == width * height,
            forall|k: int|
                0 <= k < buffer@.len() ==> (#[trigger] buffer@[k]).0 < height && buffer@[k].1
                    < width,
            forall|row: int, col: int|
                0 <= row < height && 0 <= col < width ==> #[trigger] committed(
                    start,
                    *image,
                    buffer@.subrange(0, i as int),
                    row,
                    col,
                ),
        decreases buffer@.len() - i,
    {
        let entry: (usize, usize, P) = buffer[i];
        let ghost before = *image;
        proof {
            lemma_slots(width, height, entry.0 as nat, entry.1 as nat, entry.0 as nat, entry.1 as nat);
        }
        image.set_pixel(entry.2, entry.0, entry.1);
        proof {
            let done = buffer@.subrange(0, i as int);
            let next = buffer@.subrange(0, i + 1);
            image.lemma_size();
            before.lemma_size();
            assert(next[i as int] == entry);
            assert(image@ == before@.update(entry.0 * width + entry.1, entry.2));
            assert forall|row: int, col: int|
                0 <= row < height && 0 <= col < width implies #[trigger] committed(
                start,
                *image,
                next,
                row,
                col,
            ) by {
                lemma_slots(width, height, row as nat, col as nat, entry.0 as nat, entry.1 as nat);
                assert(0 <= row * width + col < width * height);
                if row == entry.0 && col == entry.1 {
                    assert(image.pixel(row, col) == entry.2);
                    assert(next[i as int].0 == row && next[i as int].1 == col && next[i as int].2
                        == image.pixel(row, col) && names_last(next, row, col, i as int));
                } else {
                    assert(row * width + col != entry.0 * width + entry.1);
                    assert(image.pixel(row, col) == before.pixel(row, col));
                    assert(committed(start, before, done, row, col));
                    if lists(next, row, col) {
                        let k = choose|k: int|
                            0 <= k < next.len() && (#[trigger] next[k]).0 == row && next[k].1
                                == col;
                        assert(k < i);
                        assert(done[k] == next[k]);
                        assert(lists(done, row, col));
                    }
                    if lists_as(done, row, col, before.pixel(row, col)) {
                        let k = choose|k: int|
                            0 <= k < done.len() && (#[trigger] done[k]).0 == row && done[k].1 == col
                                && done[k].2 == before.pixel(row, col) && names_last(
                                done,
                                row,
                                col,
                                k,
                            );
                        assert(next[k] == done[k]);
                        assert forall|j: int| k < j < next.len() implies !((#[trigger] next[j]).0
                            == row && next[j].1 == col) by {
                            if j < i {
                                assert(next[j] == done[j]);
                            }
                        }
                        assert(names_last(next, row, col, k));
                    }
                }
            }
        }
        i = i + 1;
    }
    proof {
        assert(buffer@.subrange(0, buffer@.len() as int) =~= buffer@);
    }
}

/// `image` is `width` by `height` and holds at every place a colour that
/// `shade` gives for that place.
pub open spec fn rendered<P: Copy, F: Fn(usize, usize) -> P>(
    image: Image<P>,
    width: usize,
    height: usize,
    shade: F,
) -> bool {
    &&& image.wf()
    &&& image.spec_width() == width
    &&& image.spec_height() == height
    &&& forall|row: usize, col: usize|
        row < height && col < width ==> shade.ensures(
            (row, col),
            #[trigger] image.pixel(row as int, col as int),
        )
}

/// Renders an image tile by tile: the tiles are taken row of tiles after row
/// of tiles, each is shaded into a list of its own, and the list is written
/// into the image before the next tile starts. Every pixel ends with a colour
/// that `shade` gave for it.
pub fn render_tiled<P: Copy, F: Fn(usize, usize) -> P>(
    width: usize,
    height: usize,
    tile_size: usize,
    fill: P,
    shade: &F,
) -> (image: Image<P>)
    requires
        tile_size > 0,
        width * height <= usize::MAX,
        forall|row: usize, col: usize| row < height && col < width ==> shade.requires((row, col)),
    ensures
        rendered(image, width, height, *shade),
{
    let mut image: Image<P> = Image::new(width, height, fill);
    let chunks_x: usize = chunk_count(width, tile_size);
    let chunks_y: usize = chunk_count(height, tile_size);
    let mut chunk_y: usize = 0;
    while chunk_y < chunks_y
        invariant
            tile_size > 0,
            chunks_x == spec_chunk_count(width as int, tile_size as int),
            chunks_y == spec_chunk_count(height as int, tile_size as int),
            chunk_y <= chunks_y,
            image.wf(),
            image.spec_width() == width,
            image.spec_height() == height,
            forall|row: usize, col: usize|
                row < height && col < width ==> shade.requires((row, col)),
            forall|row: usize, col: usize|
                row < height && col < width && (row as int / tile_size as int)
                    < chunk_y ==> shade.ensures(
                    (row, col),
                    #[trigger] image.pixel(row as int, col as int),
                ),
        decreases chunks_y - chunk_y,
    {
        let mut chunk_x: usize = 0;
        while chunk_x < chunks_x
            invariant
                tile_size > 0,
                chunks_x == spec_chunk_count(width as int, tile_size as int),
                chunks_y == spec_chunk_count(height as int, tile_size as int),
                chunk_y < chunks_y,
                chunk_x <= chunks_x,
                image.wf(),
                image.spec_width() == width,
                image.spec_height() == height,
                forall|row: usize, col: usize|
                    row < height && col < width ==> shade.requires((row, col)),
                forall|row: usize, col: usize|
                    row < height && col < width && (row as int / tile_size as int) < chunk_y
                        ==> shade.ensures(
                        (row, col),
                        #[trigger] image.pixel(row as int, col as int),
                    ),
                forall|row: usize, col: usize|
                    row < height && col < width && (row as int / tile_size as int) == chunk_y && (
                    col as int / tile_size as int) < chunk_x ==> shade.ensures(
                        (row, col),
                        #[trigger] image.pixel(row as int, col as int),
                    ),
            decreases chunks_x - chunk_x,
        {
            let tile = tile_bounds(chunk_x, chunk_y, tile_size, width, height);
            let local_buffer = render_tile(tile, shade);
            let ghost before = image;
            commit_tile(&mut image, &local_buffer);
            proof {
                assert forall|row: usize, col: usize|
                    row < height && col < width && ((row as int / tile_size as int) < chunk_y || ((
                    row as int / tile_size as int) == chunk_y && (col as int / tile_size as int)
                        < chunk_x + 1)) implies shade.ensures(
                    (row, col),
                    #[trigger] image.pixel(row as int, col as int),
                ) by {
                    lemma_tile_partition(
                        width as int,
                        height as int,
                        tile_size as int,
                        row as int,
                        col as int,
                    );
                    if (row as int / tile_size as int) == chunk_y && (col as int / tile_size as int)
                        == chunk_x {
                        assert(tile.holds(row as int, col as int));
                        assert(lists(local_buffer@, row as int, col as int));
                    }
                    assert(committed(before, image, local_buffer@, row as int, col as int));
                    if lists_as(
                        local_buffer@,
                        row as int,
                        col as int,
                        image.pixel(row as int, col as int),
                    ) {
                        let k = choose|k: int|
                            0 <= k < local_buffer@.len() && (#[trigger] local_buffer@[k]).0 == row
                                && local_buffer@[k].1 == col && local_buffer@[k].2 == image.pixel(
                                row as int,
                                col as int,
                            ) && names_last(local_buffer@, row as int, col as int, k);
                        assert(shade.ensures(
                            (local_buffer@[k].0, local_buffer@[k].1),
                            local_buffer@[k].2,
                        ));
                    } else {
                        assert(image.pixel(row as int, col as int) == before.pixel(
                            row as int,
                            col as int,
                        ));
                    }
                }
            }
            chunk_x = chunk_x + 1;
        }
        proof {
            assert forall|row: usize, col: usize|
                row < height && col < width && (row as int / tile_size as int) < chunk_y
                    + 1 implies shade.ensures(
                (row, col),
                #[trigger] image.pixel(row as int, col as int),
            ) by {
                lemma_tile_partition(
                    width as int,
                    height as int,
                    tile_size as int,
                    row as int,
                    col as int,
                );
            }
        }
        chunk_y = chunk_y + 1;
    }
    proof {
        assert forall|row: usize, col: usize| row < height && col < width implies shade.ensures(
            (row, col),
            #[trigger] image.pixel(row as int, col as int),
        ) by {
            lemma_tile_partition(
                width as int,
                height as int,
                tile_size as int,
                row as int,
                col as int,
            );
        }
    }
    image
}

/// Renders an image row by row, each row from left to right. Every pixel
/// ends with the colour that `shade` gave for it.
pub fn render_rows<P: Copy, F: Fn(usize, usize) -> P>(
    width: usize,
    height: usize,
    fill: P,
    shade: &F,
) -> (image: Image<P>)
    requires
        width * height <= usize::MAX,
        forall|row: usize, col: usize| row < height && col < width ==> shade.requires((row, col)),
    ensures
        rendered(image, width, height, *shade),
{
    let mut image: Image<P> = Image::new(width, height, fill);
    let mut row: usize = 0;
    while row < height
        invariant
            row <= height,
            image.wf(),
            image.spec_width() == width,
            image.spec_height() == height,
            forall|r: usize, c: usize| r < height && c < width ==> shade.requires((r, c)),
            forall|r: usize, c: usize|
                r < row && c < width ==> shade.ensures(
                    (r, c),
                    #[trigger] image.pixel(r as int, c as int),
                ),
        decreases height - row,
    {
        let mut col: usize = 0;
        while col < width
            invariant
                row < height,
                col <= width,
                image.wf(),
                image.spec_width() == width,
                image.spec_height() == height,
                forall|r: usize, c: usize| r < height && c < width ==> shade.requires((r, c)),
                forall|r: usize, c: usize|
                    (r < row && c < width) || (r == row && c < col) ==> shade.ensures(
                        (r, c),
                        #[trigger] image.pixel(r as int, c as int),
                    ),
            decreases width - col,
        {
            let color = shade(row, col);
            let ghost before = image;
            proof {
                image.lemma_size();
                lemma_slots(width as nat, height as nat, row as nat, col as nat, row as nat, col as nat);
            }
            image.set_pixel(color, row, col);
            proof {
                assert forall|r: usize, c: usize|
                    (r < row && c < width) || (r == row && c < col + 1) implies shade.ensures(
                    (r, c),
                    #[trigger] image.pixel(r as int, c as int),
                ) by {
                    lemma_slots(width as nat, height as nat, r as nat, c as nat, row as nat, col as nat);
                    if r == row && c == col {
                        assert(image.pixel(r as int, c as int) == color);
                    } else {
                        assert(image.pixel(r as int, c as int) == before.pixel(r as int, c as int));
                    }
                }
            }
            col = col + 1;
        }
        row = row + 1;
    }
    image
}

/// Where `shade` gives one colour for each place, two images rendered with
/// it are the same pixel for pixel, whatever the tile sizes they were
/// rendered with.
pub proof fn lemma_tile_size_invariance<P: Copy, F: Fn(usize, usize) -> P>(
    a: Image<P>,
    b: Image<P>,
    width: usize,
    height: usize,
    shade: F,
)
    requires
        rendered(a, width, height, shade),
        rendered(b, width, height, shade),
        forall|row: usize, col: usize, p: P, q: P|
            shade.ensures((row, col), p) && shade.ensures((row, col), q) ==> p == q,
    ensures
        a@ == b@,
{
    a.lemma_size();
    b.lemma_size();
    assert forall|i: int| 0 <= i < a@.len() implies a@[i] == b@[i] by {
        let row = i / (width as int);
        let col = i % (width as int);
        assert(width > 0) by (nonlinear_arith)
            requires
                0 <= i < width * height,
        ;
        lemma_fundamental_div_mod(i, width as int);
        assert(i == row * width + col && 0 <= row < height) by (nonlinear_arith)
            requires
                i == width * row + col,
                0 <= col < width,
                0 <= i < width * height,
        ;
        assert(a.pixel(row as usize as int, col as usize as int) == a@[i]);
        assert(b.pixel(row as usize as int, col as usize as int) == b@[i]);
        assert(shade.ensures((row as usize, col as usize), a.pixel(row as int, col as int)));
        assert(shade.ensures((row as usize, col as usize), b.pixel(row as int, col as int)));
    }
    assert(a@ =~= b@);
}

} // verus!
