pub mod fname;
pub mod objects;
pub mod offsets;
pub mod props;
