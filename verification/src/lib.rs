//! Demangling of the linker symbols that the GNAT Ada compiler writes.
//!
//! A symbol such as `ada_main__adafinal__s_stalib_adafinal` names the
//! entity `ada_main.adafinal.s_stalib_adafinal`. [`demangle`] walks such a
//! symbol once and tells a [`DemangleVisitor`] what it finds; what the
//! visitor is told is stated in full by the spec function
//! [`demangle::emitted`].

pub mod ascii;
pub mod demangle;
pub mod hex;
pub mod operator;
pub mod scan;
pub mod short_name;
pub mod text;
pub mod utf16;
pub mod visitor;

pub use crate::demangle::demangle;
pub use crate::short_name::is_short_name;
pub use crate::visitor::{Call, DemangleVisitor, Event, Recorder, Scope};
