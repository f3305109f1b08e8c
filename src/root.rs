//! The rule of the root service: one mutable pointer to the latest manifest,
//! moved by compare-and-swap on the CID it replaces.
use vstd::prelude::*;
use crate::cid::Cid;

verus! {

/// The stored root: the latest manifest CID and the one it replaced.
#[derive(Debug, Clone)]
pub struct RootRecord {
    pub cid: Cid,
    pub previous: Cid,
}

/// A request to move the root: the new manifest CID and the one it replaces,
/// in their text form.
#[derive(Debug, Clone)]
pub struct PushRootRequest {
    pub cid: String,
    pub previous_cid: String,
}

/// The stored root as the service reports it, in text form.
#[derive(Debug, Clone)]
pub struct PullRootResponse {
    pub previous_cid: String,
    pub cid: String,
}

/// Why a root update was refused: (stored CID, CID the pusher claimed to replace).
#[derive(Debug, Clone)]
pub enum RootError {
    Conflict(Cid, Cid),
}

/// The stored root CID after an update that claims to replace `previous`
/// with `cid`; `None` where the update is refused.
pub open spec fn root_cas(stored: Option<Seq<u8>>, previous: Seq<u8>, cid: Seq<u8>) -> Option<Seq<u8>> {
    match stored {
        None => Some(cid),
        Some(s) => if s == previous {
            Some(cid)
        } else {
            None
        },
    }
}

pub open spec fn stored_model(stored: &Option<RootRecord>) -> Option<Seq<u8>> {
    match stored {
        Some(r) => Some(r.cid@),
        None => None,
    }
}

/// Moves the root to `cid` if it still is `previous` (or was never set);
/// otherwise refuses with a conflict and the stored root stays as it was.
pub fn push_root(stored: &Option<RootRecord>, cid: Cid, previous: Cid) -> (r: Result<RootRecord, RootError>)
    ensures
        match r {
            Ok(rec) => root_cas(stored_model(stored), previous@, cid@) == Some(rec.cid@) && rec.cid@ == cid@ && rec.previous@ == previous@,
            Err(RootError::Conflict(s, p)) => root_cas(stored_model(stored), previous@, cid@) is None
                && stored_model(stored) == Some(s@) && p@ == previous@,
        },
{
    match stored {
        None => Ok(RootRecord { cid, previous }),
        Some(rec) => {
            if rec.cid == previous {
                Ok(RootRecord { cid, previous })
            } else {
                Err(RootError::Conflict(rec.cid.duplicate(), previous))
            }
        },
    }
}

/// Two pushers that both replace the same stored root race: the first update
/// moves the root, and the second, still claiming the old root, is refused.
pub proof fn law_conflict_rejection(stored: Seq<u8>, first: Seq<u8>, second: Seq<u8>)
    requires
        first != stored,
    ensures
        root_cas(Some(stored), stored, first) == Some(first),
        root_cas(root_cas(Some(stored), stored, first), stored, second) is None,
{
}

} // verus!
