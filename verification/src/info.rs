//! The distribution identity record, its merge rule, and the error kinds
//! the detection pipeline can report.

use vstd::prelude::*;

verus! {

/// The ways a detection step can fail.  All of them are recoverable: the
/// caller degrades the affected fields to absent rather than aborting.
#[derive(Debug)]
pub enum DetectError {
    /// A configuration or data file could not be read at its resolved
    /// path.
    NotFound,
    /// An external command or system query could not be run or awaited.
    ExternalProcessUnavailable,
    /// A required column, numeral or pattern was missing or unreadable.
    MalformedData,
    /// Captured command output was not valid text.
    EncodingFailure,
}

/// The ghost image of a `DistroInfo`: four optional character sequences.
pub ghost struct DistroInfoV {
    pub release: Option<Seq<char>>,
    pub codename: Option<Seq<char>>,
    pub id: Option<Seq<char>>,
    pub description: Option<Seq<char>>,
}

/// The distribution identity assembled from the OS-release file or, when
/// that file is absent or empty, from the Debian heuristic fallback.
/// A field is `None` when nothing determined it.
pub struct DistroInfo {
    pub release: Option<String>,
    pub codename: Option<String>,
    pub id: Option<String>,
    pub description: Option<String>,
}

impl View for DistroInfo {
    type V = DistroInfoV;

    open spec fn view(&self) -> DistroInfoV {
        DistroInfoV {
            release: self.release.deep_view(),
            codename: self.codename.deep_view(),
            id: self.id.deep_view(),
            description: self.description.deep_view(),
        }
    }
}

pub open spec fn empty_info() -> DistroInfoV {
    DistroInfoV { release: None, codename: None, id: None, description: None }
}

/// Partial means every field is absent.
pub open spec fn is_partial_v(v: DistroInfoV) -> bool {
    v.release is None && v.codename is None && v.id is None && v.description is None
}

/// Field-wise preference for the first record, filling absent fields from
/// the second.
pub open spec fn merged_v(a: DistroInfoV, b: DistroInfoV) -> DistroInfoV {
    DistroInfoV {
        release: if a.release is Some {
            a.release
        } else {
            b.release
        },
        codename: if a.codename is Some {
            a.codename
        } else {
            b.codename
        },
        id: if a.id is Some {
            a.id
        } else {
            b.id
        },
        description: if a.description is Some {
            a.description
        } else {
            b.description
        },
    }
}

/// The first value when present, else the second, cloned.
pub fn or_clone(a: &Option<String>, b: &Option<String>) -> (r: Option<String>)
    ensures
        r.deep_view() == if a.deep_view() is Some {
            a.deep_view()
        } else {
            b.deep_view()
        },
{
    match a {
        Some(s) => Some(s.clone()),
        None => match b {
            Some(s) => Some(s.clone()),
            None => None,
        },
    }
}

impl DistroInfo {
    /// The record with every field absent.
    pub fn empty() -> (r: DistroInfo)
        ensures
            r@ == empty_info(),
    {
        DistroInfo { release: None, codename: None, id: None, description: None }
    }

    /// A result is partial when all four fields are absent; any single
    /// present field is enough to skip the fallback detector.
    pub fn is_partial(&self) -> (r: bool)
        ensures
            r == is_partial_v(self@),
    {
        self.release.is_none() && self.codename.is_none() && self.id.is_none()
            && self.description.is_none()
    }

    /// This record with any absent field filled from `other`.
    pub fn merged(&self, other: &DistroInfo) -> (r: DistroInfo)
        ensures
            r@ == merged_v(self@, other@),
    {
        DistroInfo {
            release: or_clone(&self.release, &other.release),
            codename: or_clone(&self.codename, &other.codename),
            id: or_clone(&self.id, &other.id),
            description: or_clone(&self.description, &other.description),
        }
    }
}

/// A clone of an optional string, field for field.
pub fn clone_opt(o: &Option<String>) -> (r: Option<String>)
    ensures
        r.deep_view() == o.deep_view(),
{
    match o {
        Some(s) => Some(s.clone()),
        None => None,
    }
}

} // verus!
