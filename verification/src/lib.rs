//! A contextual event recorder: call sites open named scopes, write values while the
//! scopes are open, and a later replay tells for every value which scopes were open
//! when it was written.

pub mod contexter;
pub mod ctx_stack;
pub mod hidden_push_api;
pub mod history;
mod min_heap;
pub mod slots;

pub use ctx_stack::CtxStack;
pub use ctx_stack::StackHandle;
