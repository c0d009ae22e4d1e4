//! Printing files through a submission/completion ring, one vectored read per
//! file.
//!
//! The library holds every decision of such a run and performs no I/O itself:
//! it lays each file out in fixed-size chunks ([`layout`], [`request`]),
//! turns the bytes that a read left behind into the text to print ([`text`]),
//! and tells its caller, step by step, what to ask of the ring next
//! ([`driver`]). What a whole run prints is stated and proved in [`run`].

pub mod args;
pub mod driver;
pub mod error;
pub mod layout;
pub mod request;
pub mod run;
pub mod text;
