pub mod codec;
pub mod database;
pub mod engine;
pub mod laws;
pub mod schema;
pub mod numeric;
pub mod strmap;
pub mod table;
pub mod text;
pub mod types;
