pub mod find;
pub mod split;
