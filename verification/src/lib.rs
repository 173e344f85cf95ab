//! Core of a worst-case execution cost estimator for embedded kernel
//! binaries.
//!
//! The crate has two halves.  The machine-code correlation half parses an
//! annotated disassembly listing into a source-line-indexed model
//! ([`disasm`], with [`outlined`] resolving compiler-generated shared code
//! blocks and [`grammar`] classifying listing lines) and then maps an
//! abstract path through a function's intermediate representation onto a
//! deduplicated machine-instruction trace and count ([`correlate`]).  The
//! search half drives an external path-exploration engine to completion,
//! keeps the longest completed path, and runs a bespoke recovery protocol
//! when the engine's constraint solver times out ([`search`]).
//!
//! The exploration engine, the build pipeline and the disassembler are
//! external collaborators: callers feed their outputs in as plain values
//! (text lines, path entries, step outcomes) and this crate does the
//! bookkeeping that has to be right.

#![allow(unused_imports)]

use vstd::prelude::*;

pub mod analysis;
pub mod correlate;
pub mod disasm;
pub mod grammar;
pub mod outlined;
pub mod path;
pub mod search;
pub mod text;
pub mod util;
