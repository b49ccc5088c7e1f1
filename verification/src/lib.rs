pub mod bindings;
pub mod minifun;
pub mod miniimp;
pub mod messages;
pub mod text;
