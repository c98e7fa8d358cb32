//! The logic behind `#[derive(Serialize, Deserialize)]`: reading the item a derive is
//! applied to, from its token trees, and writing the Rust source of the impls.
pub mod codegen;
pub mod item;
pub mod tokens;
