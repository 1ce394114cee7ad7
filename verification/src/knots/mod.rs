//! The bundled knots.
pub mod log;
pub mod set;
pub mod delay;
pub mod filter;
pub mod http;
pub mod resend;
pub mod trigger;
pub mod ai;
