//! MAL-NIR: the SSA intermediate representation, the lowering of syntax
//! trees into it, and the type lattice of its values.
pub mod ir;
pub mod lowering;
pub mod types;
