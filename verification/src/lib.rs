//! Readings, rules and screen text of a system monitor for Rockchip boards.
//!
//! The library is made for 64-bit machines, as these boards are.

pub mod bounds;
pub mod controls;
pub mod cpu_rates;
pub mod file_cache;
pub mod hardware;
pub mod history;
pub mod info_panels;
pub mod io_rates;
pub mod layout;
pub mod name_table;
pub mod nearness;
pub mod number;
pub mod order;
pub mod outside;
pub mod panels;
pub mod process;
pub mod process_table;
pub mod rounding;
pub mod screen;
pub mod state;
pub mod sysinfo_ext;
pub mod text;
pub mod thermal;
pub mod units;
pub mod usage;
pub mod versions;

pub use process::ProcessSortMode;
