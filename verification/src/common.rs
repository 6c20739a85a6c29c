//! Types shared by all layers of the engine.

pub mod error;
pub mod key;
pub mod lookup;
pub mod path;
pub mod sort;
pub mod sorted;
pub mod text;
pub mod value;
pub mod versions;
