pub mod aabb;
pub mod bvh;
pub mod camera;
pub mod color;
pub mod constant_medium;
pub mod grid;
pub mod hittable;
pub mod image;
pub mod interval;
pub mod perlin;
pub mod sphere;
pub mod texture;
pub mod tile;
pub mod vec3;
