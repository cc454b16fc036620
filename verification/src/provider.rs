//! The distribution-information capability: five accessors that a caller
//! can query independently, and the snapshot-backed implementation that
//! serves all of them from one detection result.

use vstd::prelude::*;
use vstd::string::StringExecFns;
use crate::info::{DistroInfo, clone_opt};

verus! {

/// The abstract capability: a provider of the five reportable facts.  A
/// test may substitute any implementation for the snapshot-backed one.
pub trait LSBInfo {
    fn id(&self) -> Option<String>;

    fn description(&self) -> Option<String>;

    fn release(&self) -> Option<String>;

    fn codename(&self) -> Option<String>;

    fn lsb_version(&self) -> Option<Vec<String>>;
}

/// A provider over values computed once: the detection result (absent
/// when detection failed) and the module list (absent when none were
/// found).  Serving every accessor from one snapshot keeps the answers
/// consistent within a run.
pub struct SnapshotInfo {
    pub info: Option<DistroInfo>,
    pub modules: Option<Vec<String>>,
}

/// The id the snapshot answers: the detection result's id, or nothing
/// when detection failed.
pub open spec fn snapshot_id(s: SnapshotInfo) -> Option<Seq<char>> {
    match s.info {
        Some(i) => i@.id,
        None => None,
    }
}

pub open spec fn snapshot_description(s: SnapshotInfo) -> Option<Seq<char>> {
    match s.info {
        Some(i) => i@.description,
        None => None,
    }
}

pub open spec fn snapshot_release(s: SnapshotInfo) -> Option<Seq<char>> {
    match s.info {
        Some(i) => i@.release,
        None => None,
    }
}

pub open spec fn snapshot_codename(s: SnapshotInfo) -> Option<Seq<char>> {
    match s.info {
        Some(i) => i@.codename,
        None => None,
    }
}

/// A clone of a string vector, element for element.
fn clone_string_vec(v: &Vec<String>) -> (r: Vec<String>)
    ensures
        r.deep_view() == v.deep_view(),
{
    let n = v.len();
    let mut r: Vec<String> = Vec::new();
    let mut i: usize = 0;
    while i < n
        invariant
            i <= n,
            n == v.deep_view().len(),
            r.deep_view() =~= v.deep_view().take(i as int),
        decreases n - i,
    {
        let ghost prev = r.deep_view();
        r.push(v[i].clone());
        proof {
            assert(r.deep_view() =~= prev.push(v@[i as int]@));
            assert(prev.push(v@[i as int]@) =~= v.deep_view().take(i + 1));
        }
        i = i + 1;
    }
    proof {
        assert(v.deep_view().take(n as int) =~= v.deep_view());
    }
    r
}

impl LSBInfo for SnapshotInfo {
    /// The stored detection result's id, absent when detection failed.
    fn id(&self) -> (r: Option<String>)
        ensures
            r.deep_view() == snapshot_id(*self),
    {
        match &self.info {
            Some(i) => clone_opt(&i.id),
            None => None,
        }
    }

    /// The stored detection result's description, absent when detection
    /// failed.
    fn description(&self) -> (r: Option<String>)
        ensures
            r.deep_view() == snapshot_description(*self),
    {
        match &self.info {
            Some(i) => clone_opt(&i.description),
            None => None,
        }
    }

    /// The stored detection result's release, absent when detection
    /// failed.
    fn release(&self) -> (r: Option<String>)
        ensures
            r.deep_view() == snapshot_release(*self),
    {
        match &self.info {
            Some(i) => clone_opt(&i.release),
            None => None,
        }
    }

    /// The stored detection result's codename, absent when detection
    /// failed.
    fn codename(&self) -> (r: Option<String>)
        ensures
            r.deep_view() == snapshot_codename(*self),
    {
        match &self.info {
            Some(i) => clone_opt(&i.codename),
            None => None,
        }
    }

    /// The stored module list, exactly as gathered.
    fn lsb_version(&self) -> (r: Option<Vec<String>>)
        ensures
            r.deep_view() == self.modules.deep_view(),
    {
        match &self.modules {
            Some(v) => Some(clone_string_vec(v)),
            None => None,
        }
    }
}

/// Wraps the gathered values as the provider the driver consults.
pub fn grub_info(info: Option<DistroInfo>, modules: Option<Vec<String>>) -> (r: SnapshotInfo)
    ensures
        r.info == info,
        r.modules == modules,
{
    SnapshotInfo { info, modules }
}

} // verus!
