//! Exact sweep-plane volume of a union of rational polytopes: a reverse
//! search over the vertices of the facet arrangement fused with the
//! Bieri–Nef sweep-plane decomposition of every tangent cone.
pub mod arith;
pub mod bbox;
pub mod big;
pub mod cube;
pub mod direction;
pub mod driver;
pub mod expand;
pub mod geom;
pub mod io;
pub mod laurent;
pub mod laws;
pub mod linalg;
pub mod local;
pub mod matrix;
pub mod notation;
pub mod num;
pub mod oracle;
pub mod preprocess;
pub mod shapes;
pub mod reverse;
pub mod sweep;
pub mod text;
pub mod vertex;
pub mod viewer;
pub mod walk;
