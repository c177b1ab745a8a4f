pub mod action_button;
pub mod chop_button;
