//! A directory lister: classifies the entries of one directory, formats their
//! sizes and timestamps, orders them, and lays them out as an aligned table.

mod digits;
pub mod size;
pub mod icon;
pub mod order;
pub mod listing;
pub mod table;
pub mod target;
