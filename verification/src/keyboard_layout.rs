//! The physical key grid, the hands and fingers that press it, and the
//! assignment of characters to its slots.

pub mod hand_model;
pub mod logical_layout;
pub mod physical_layout;

pub use hand_model::{Finger, Hand};
pub use logical_layout::LogicalLayout;
pub use physical_layout::{
    get_left_grams, get_left_keys, get_right_grams, get_right_keys, has_overlap, PhysicalLayout,
    StrokeCost, NUM_COLS, NUM_KEYS, NUM_ROWS,
};
