pub mod navigation;
pub mod register_visualisation;
pub mod simulation_control_panel;
pub mod text_editor;
pub mod text_layout;
pub mod typing;
