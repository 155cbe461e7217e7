//! The option set that steers one listing run.
//!
//! A `Flags` value is built once from the command line and then passed by
//! shared reference through the whole pipeline; nothing toggles it afterwards.

use vstd::prelude::*;

verus! {

/// The resolved option set: which rendering mode, which sort order, and
/// whether hidden entries are shown.
///
/// The `reverse` option is recognised when parsing but is consulted nowhere;
/// it is kept so that a caller can see that the character was accepted.
pub struct Flags {
    /// `l`: render the detailed one-line-per-entry format.
    pub long_format: bool,
    /// `R`: descend into subdirectories.
    pub recursive: bool,
    /// `a`: show hidden entries and the synthetic `.` and `..`.
    pub show_all: bool,
    /// `r`: accepted but currently without effect.
    pub reverse: bool,
    /// `t`: order by modification time, newest first.
    pub sort_by_time: bool,
}

/// True of the characters that the flag parser accepts.
pub open spec fn is_flag_char(c: char) -> bool {
    c == 'l' || c == 'R' || c == 'a' || c == 'r' || c == 't'
}

impl Flags {
    /// Everything off: the default listing.
    pub fn new() -> (f: Flags)
        ensures
            !f.long_format,
            !f.recursive,
            !f.show_all,
            !f.reverse,
            !f.sort_by_time,
    {
        Flags {
            long_format: false,
            recursive: false,
            show_all: false,
            reverse: false,
            sort_by_time: false,
        }
    }

    /// Switch on the option named by one flag character.
    ///
    /// The character must be a known flag; `try_toggle_on` is the checked
    /// entry point for unvetted input.
    pub fn toggle_on(&mut self, flag_name: char)
        requires
            is_flag_char(flag_name),
        ensures
            final(self).long_format == (old(self).long_format || flag_name == 'l'),
            final(self).recursive == (old(self).recursive || flag_name == 'R'),
            final(self).show_all == (old(self).show_all || flag_name == 'a'),
            final(self).reverse == (old(self).reverse || flag_name == 'r'),
            final(self).sort_by_time == (old(self).sort_by_time || flag_name == 't'),
    {
        match flag_name {
            'l' => {
                self.long_format = true;
            }
            'R' => {
                self.recursive = true;
            }
            'a' => {
                self.show_all = true;
            }
            'r' => {
                self.reverse = true;
            }
            't' => {
                self.sort_by_time = true;
            }
            _ => {
                proof {
                    assert(false);
                }
            }
        }
    }

    /// Switch on the option named by `flag_name` if it is known; report
    /// whether it was. An unknown character leaves the set unchanged, so a
    /// caller can treat `false` as the fatal usage error.
    pub fn try_toggle_on(&mut self, flag_name: char) -> (known: bool)
        ensures
            known == is_flag_char(flag_name),
            known ==> {
                &&& final(self).long_format == (old(self).long_format || flag_name == 'l')
                &&& final(self).recursive == (old(self).recursive || flag_name == 'R')
                &&& final(self).show_all == (old(self).show_all || flag_name == 'a')
                &&& final(self).reverse == (old(self).reverse || flag_name == 'r')
                &&& final(self).sort_by_time == (old(self).sort_by_time || flag_name == 't')
            },
            !known ==> *final(self) == *old(self),
    {
        if flag_name == 'l' || flag_name == 'R' || flag_name == 'a' || flag_name == 'r'
            || flag_name == 't' {
            self.toggle_on(flag_name);
            true
        } else {
            false
        }
    }
}

} // verus!
