//! ECTS calculator: the data model, the grade arithmetic, the storage
//! document and the key-driven editor state, with their contracts.

pub mod model;
pub mod text;
pub mod persistence;
pub mod calculator;
pub mod app;
pub mod laws;
