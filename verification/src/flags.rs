//! The command's seven flags and their normalization: `--all` forces the
//! five display flags on; with no display flag given, showing the LSB
//! modules is the default action.

use vstd::prelude::*;

verus! {

pub struct Args {
    pub show_lsb_modules: bool,
    pub show_distributor: bool,
    pub show_description: bool,
    pub show_release: bool,
    pub show_codename: bool,
    pub show_all: bool,
    pub show_in_short_format: bool,
}

impl Args {
    /// Applies the two implications once, after parsing: `--all` turns
    /// every display flag on; otherwise, when no display flag was given,
    /// the LSB-module listing becomes the default, and an explicitly
    /// given set of flags is kept as it is.  The short-format flag is
    /// never altered.
    pub fn set_implied_flags(self) -> (r: Args)
        ensures
            r.show_all == self.show_all,
            r.show_in_short_format == self.show_in_short_format,
            self.show_all ==> r.show_lsb_modules && r.show_distributor && r.show_description
                && r.show_release && r.show_codename,
            !self.show_all ==> {
                &&& r.show_distributor == self.show_distributor
                &&& r.show_description == self.show_description
                &&& r.show_release == self.show_release
                &&& r.show_codename == self.show_codename
                &&& r.show_lsb_modules == (self.show_lsb_modules || (!self.show_distributor
                    && !self.show_description && !self.show_release && !self.show_codename))
            },
    {
        let mut r = self;
        if r.show_all {
            r.show_lsb_modules = true;
            r.show_distributor = true;
            r.show_description = true;
            r.show_release = true;
            r.show_codename = true;
        } else {
            r.show_lsb_modules = r.show_lsb_modules || (!r.show_distributor && !r.show_description
                && !r.show_release && !r.show_codename);
        }
        r
    }
}

} // verus!
