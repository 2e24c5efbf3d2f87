//! Simplification of abstract simplicial complexes given by their facets.
//!
//! A complex is kept as the list of its maximal faces. The operations shrink
//! it while keeping its homotopy type: iterated nerves, edge pinching and
//! the accretion of a contractible subcomplex.
//!
//! - [`face`]: faces, as strictly increasing lists of vertex labels.
//! - [`order`], [`family`]: the order of a facet list, and what makes a list
//!   of faces the facet list of a complex.
//! - [`complex`]: the complex itself and its constructors.
//! - [`nerve`]: the Čech nerve and the reduction by iterated nerves.
//! - [`oracle`]: the contractibility test and the accretion under it.
//! - [`subcomplex`]: growing a subcomplex, the contractible subcomplex, and
//!   the pair made small.
//! - [`relabel`], [`dict`]: renaming the vertices.
//! - [`pinch`], [`interrupt`]: edge pinching, and the flag that stops it.
//! - [`pipeline`]: the stages in their order.
//! - [`io`]: the text forms of a complex.
//! - [`generator`]: the complex of partial bijections.

pub mod complex;
pub mod dict;
pub mod face;
pub mod family;
pub mod generator;
pub mod inclusion;
pub mod interrupt;
pub mod io;
pub mod nerve;
pub mod oracle;
pub mod order;
pub mod pinch;
pub mod pipeline;
pub mod relabel;
pub mod subcomplex;

pub use complex::SimplicialComplex;
pub use face::Face;
pub use generator::partial_bijection_complex;
