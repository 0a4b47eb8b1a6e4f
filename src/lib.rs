pub mod rect;
pub mod neighbours;
mod random;
pub mod elements;
pub mod chunk;
pub mod field;
pub mod chunk_context;
pub mod line;
pub mod elements_convert;
pub mod movable_solids;
pub mod liquid;
pub mod acid;
pub mod solid;
pub mod threads;
