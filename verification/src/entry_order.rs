//! The standard comparisons of directory entries: equality and the
//! three-way comparison of the picker's order.

use core::cmp::Ordering;
use vstd::prelude::*;

use crate::file_picker::{entry_lt, entry_same, lemma_entry_lt_irreflexive, DirectoryEntry};
use crate::path::{compare_paths, ByteOrder};

verus! {

impl PartialEq for DirectoryEntry {
    fn eq(&self, other: &Self) -> (r: bool) {
        self.is_dir == other.is_dir && match compare_paths(&self.path, &other.path) {
            ByteOrder::Same => true,
            _ => false,
        }
    }
}

impl vstd::std_specs::cmp::PartialEqSpecImpl for DirectoryEntry {
    open spec fn obeys_eq_spec() -> bool {
        true
    }

    open spec fn eq_spec(&self, other: &Self) -> bool {
        entry_same(*self, *other)
    }
}

impl DirectoryEntry {
    /// Compares two entries in the picker's order: directories first, then
    /// by path.
    pub fn cmp(&self, other: &Self) -> (r: Ordering)
        ensures
            (r == Ordering::Less) == entry_lt(*self, *other),
            (r == Ordering::Greater) == entry_lt(*other, *self),
            (r == Ordering::Equal) == entry_same(*self, *other),
    {
        proof {
            lemma_entry_lt_irreflexive(*self);
        }
        if self.is_dir && !other.is_dir {
            Ordering::Less
        } else if !self.is_dir && other.is_dir {
            Ordering::Greater
        } else {
            match compare_paths(&self.path, &other.path) {
                ByteOrder::Before => Ordering::Less,
                ByteOrder::After => Ordering::Greater,
                ByteOrder::Same => Ordering::Equal,
            }
        }
    }

    /// The same comparison, which is always defined.
    pub fn partial_cmp(&self, other: &Self) -> (r: Option<Ordering>)
        ensures
            r is Some,
            (r == Some(Ordering::Less)) == entry_lt(*self, *other),
            (r == Some(Ordering::Greater)) == entry_lt(*other, *self),
            (r == Some(Ordering::Equal)) == entry_same(*self, *other),
    {
        Some(self.cmp(other))
    }
}

} // verus!
