pub mod ast;
pub mod symbol;
pub mod types;
pub mod semantic;
pub mod ir;
pub mod lower;
pub mod backends;
