pub mod graphics;
pub mod text_user_interface;
