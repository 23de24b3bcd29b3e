//! A personal book catalog: an in-memory collection of book records together
//! with the codec for the delimited-text backing file that persists it.
//!
//! The collection operations (`store`) and the file codec (`codec`) are pure:
//! reading and writing the backing file itself is left to the caller, who
//! hands the file's text in and writes the returned text out.

pub mod record;
pub mod text;
pub mod codec;
pub mod store;
