pub mod entity_selecting_manager;
pub mod action_buttons;
pub mod action_button_manager;
pub mod select_rect;
pub mod light;
