//! Runtime support for compiled programs.
//!
//! The heart of it is the value printer: [`descriptor`] reads the text in
//! which the compiler names the shape of a value, [`shape`] lays the value
//! out in bytes, and [`render`] walks those bytes and makes the text, with
//! [`separator`] for what stands between the elements of an array and
//! [`decimal`] for integers. [`grammar`] states the descriptor grammar and
//! proves that the parser accepts exactly it. [`show`] puts the pieces
//! together.
//!
//! The printer reads no address: it reads a [`memory::Snapshot`], and reports
//! what the snapshot lacks. Floating-point numbers are not formatted here
//! either: the snapshot holds their texts.
//!
//! Beside the printer stand the small services of a running program: its
//! arguments ([`args`]), its zeroed blocks ([`heap`]), its texts ([`text`])
//! and the reports of what went wrong ([`error`]).

pub mod args;
pub mod decimal;
pub mod descriptor;
pub mod error;
pub mod grammar;
pub mod heap;
pub mod memory;
pub mod render;
pub mod separator;
pub mod shape;
pub mod show;
pub mod text;
