//! Core state model of a terminal system monitor: fixed-capacity rolling
//! history series, a sorted process table with a selection index that
//! survives refreshes, tab navigation, and the normalization step that
//! turns one raw host snapshot into the model's records.

pub mod app;
pub mod series;
pub mod system_info;
pub mod table;
