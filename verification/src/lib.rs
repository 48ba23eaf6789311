pub mod strmap;
pub mod text;
pub mod dates;
pub mod sorting;
pub mod history;
pub mod stats;
pub mod labels;
pub mod tui;
pub mod input;
pub mod stats_display;
pub mod export;
pub mod config;
