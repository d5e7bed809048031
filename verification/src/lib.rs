//! An escape pass for MathJax-sensitive characters inside delimited math
//! regions of a text document: within `$...$` and `$$...$$` regions every
//! backslash pair is doubled and every underscore gains a leading backslash,
//! while text outside the regions, escaped delimiters, and the delimiters
//! themselves are kept verbatim.

pub mod escape;
pub mod split;
pub mod transform;

pub use transform::Prep;
