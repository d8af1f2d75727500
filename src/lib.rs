pub mod circle;
pub mod delaunay;
pub mod error;
pub mod hull;
pub mod lattice;
pub mod line;
pub mod neighbors;
pub mod point;
pub mod voronoi;
