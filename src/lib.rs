pub mod bvh;
pub mod camera;
pub mod logger;
pub mod pdf;
pub mod perlin;
pub mod progressbar;
pub mod radiance;
pub mod rect;
pub mod rotate;
pub mod texture;
