pub mod actions;
pub mod bits;
pub mod bounds;
pub mod brush_alpha;
pub mod bvh;
pub mod device;
pub mod effects;
pub mod frame;
pub mod input;
pub mod layers;
pub mod maps;
pub mod mesh;
pub mod model;
pub mod paint;
pub mod painter;
pub mod panels;
pub mod pick;
pub mod preview;
pub mod scene;
pub mod segment;
pub mod session;
pub mod sort;
pub mod start;
pub mod stroke;
pub mod tables;
pub mod text;
pub mod unwrap;
pub mod uv;
