//! Multi-column directory listings: which names are shown, in what order,
//! and how they are laid out in columns that fit a terminal's width.
pub mod layout;
pub mod names;

pub use layout::{column_lines, column_width, num_columns, num_rows, render_rows, transpose};
pub use names::{filter_invisible, is_visible, name_lt, read_dir_sorted};
