pub mod cell_data;
pub mod entity_container;
pub mod events;
pub mod fixed;
pub mod fns;
pub mod general_data;
pub mod physics;
pub mod update;
pub mod update_data;
