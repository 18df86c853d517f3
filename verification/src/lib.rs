pub mod board;
pub mod bounded;
pub mod display;
pub mod ext_memory;
pub mod fieldset;
pub mod flow;
pub mod parameter_controllers;
pub mod params;
pub mod subscribers;
pub mod user_inputs;
