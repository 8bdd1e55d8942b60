//! Verified core of the Sudoku Adventure progress tracker: sheet CSV rows,
//! progress merging, filtering, statistics and request decisions.

pub mod models;
pub mod text;
pub mod url_parts;
pub mod numbers;
pub mod csv_util;
pub mod logic;
pub mod service;
pub mod laws;
pub mod progress_laws;
pub mod roundtrip_laws;
