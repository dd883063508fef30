//! Format-agnostic manipulation of semi-structured documents (JSON, YAML, TOML)
//! held in one value model: path-addressed reads and writes, deep merge,
//! intersection, subtraction and needle search.
pub mod supervalue;
pub mod supervalue_path;
pub mod yaml_shapes;
pub mod formats;
pub mod utils;
pub mod merge;
pub mod get;
pub mod set;
pub mod delete;
pub mod keep;
pub mod intersect;
pub mod subtract;
pub mod search;
pub mod search_set;
pub mod search_delete;
pub mod laws;
