pub mod event;
pub mod flush;
pub mod queue;
pub mod wire;
