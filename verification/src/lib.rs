//! A verified core for a directory-listing utility.
//!
//! The library holds the listing pipeline: hidden-entry filtering, the three
//! sort orders, the terminal-width-aware column layout, the long-format
//! renderer with permission decoding, and the recursive walk over an
//! in-memory directory tree. Everything that touches the operating system
//! directly (reading directories, stat calls, writing to the terminal) is
//! left to the surrounding program, which hands this library plain values.

pub mod collect;
pub mod flags;
pub mod layout;
pub mod longfmt;
pub mod sort;
pub mod text;
pub mod walker;

use vstd::prelude::*;

verus! {

/// True of a name that the default listing hides: one that begins with a dot.
pub open spec fn is_hidden(name: Seq<char>) -> bool {
    name.len() > 0 && name[0] == '.'
}

} // verus!
