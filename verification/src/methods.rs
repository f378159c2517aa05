//! The analysis engines and the combinators over several lists.

pub mod experimental;
pub mod gsea;
pub mod multiomics;
pub mod nta;
pub mod ora;
