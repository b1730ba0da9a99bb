pub mod host;
pub mod interop;
