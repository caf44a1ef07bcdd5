//! Containers of a fixed capacity.

pub mod double_array_map;
