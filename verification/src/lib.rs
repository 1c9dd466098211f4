//! In-place, size-preserving rewriting of byte strings inside ELF files and
//! `ar` archives of ELF members.
//!
//! A run over a file has two halves. [`plan::discover`] finds the byte ranges
//! to rewrite: it tells an ELF image from an archive by the magic bytes
//! ([`format`]), reads the section header table and the section names of an
//! image ([`elf`]), picks the sections by name ([`scan`], [`targets`]), and
//! walks the members of an archive ([`archive`], [`decimal`]).
//! [`plan::apply`] then rewrites the ranges: over each region runs the
//! substitution engine ([`replace`], with [`pattern`] and [`search`]), and
//! each full replacement is written over its range. [`laws`] proves what the
//! engine does as a whole. [`args`] reads the command line.
//!
//! No byte is ever inserted or removed: every function that writes to a
//! buffer leaves its length as it was.

pub mod archive;
pub mod args;
pub mod decimal;
pub mod elf;
pub mod error;
pub mod format;
pub mod laws;
pub mod pattern;
pub mod plan;
pub mod replace;
pub mod scan;
pub mod search;
pub mod targets;
