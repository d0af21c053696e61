pub mod callback;
pub mod event_emitter;
pub mod shared;
pub mod symbol;
pub mod value;
