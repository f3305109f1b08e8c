//! The change log: for every tracked path, its last known content CID and how
//! it changed since the last push.
use vstd::prelude::*;
use crate::assoc::to_map;
use crate::cid::Cid;
use crate::path::{path_model, path_less, path_equal, path_lt};
use crate::sorted::{PathModel, sorted_keys, lemma_sorted_push, lemma_lookup_at};

verus! {

/// How a tracked file changed since the last push.
#[derive(Debug, Clone, Copy, PartialEq, Eq, Structural)]
pub enum ChangeType {
    /// Synced and unchanged.
    Base,
    /// New since the last push; `modified` tells whether its content changed
    /// after it was hashed.
    Added { modified: bool },
    /// Tracked before and changed since the last push.
    Modified,
    /// Tracked before and deleted locally.
    Removed,
}

/// The path of a change-log entry, its content CID and its change.
pub type LogEntry = (Vec<String>, Cid, ChangeType);

pub open spec fn log_models(s: Seq<LogEntry>) -> Seq<(PathModel, (Seq<u8>, ChangeType))> {
    s.map_values(|e: LogEntry| (path_model(e.0@), (e.1@, e.2)))
}

/// The change log: entries kept in path order, one per path. A sorted list
/// serves both as the map from path to record and as the ordered sequence that
/// the diffs walk; vstd specifies no ordered map with such path keys.
#[derive(Debug, Clone)]
pub struct ChangeLog {
    entries: Vec<LogEntry>,
}

impl View for ChangeLog {
    type V = Map<PathModel, (Seq<u8>, ChangeType)>;

    closed spec fn view(&self) -> Map<PathModel, (Seq<u8>, ChangeType)> {
        to_map(log_models(self.entries@))
    }
}

/// A copy of a path.
pub fn copy_path(p: &Vec<String>) -> (r: Vec<String>)
    ensures
        path_model(r@) == path_model(p@),
{
    let mut r: Vec<String> = Vec::new();
    let mut i: usize = 0;
    while i < p.len()
        invariant
            i <= p.len(),
            r@.len() == i,
            forall|j: int| 0 <= j < i ==> #[trigger] r@[j]@ == p@[j]@,
        decreases p.len() - i,
    {
        r.push(p[i].clone());
        i = i + 1;
    }
    assert(path_model(r@) =~= path_model(p@));
    r
}

impl ChangeLog {
    pub closed spec fn wf(&self) -> bool {
        sorted_keys(log_models(self.entries@))
    }

    /// The entries in path order, as models.
    pub closed spec fn entry_seq(&self) -> Seq<(PathModel, (Seq<u8>, ChangeType))> {
        log_models(self.entries@)
    }

    pub proof fn lemma_view(&self)
        requires
            self.wf(),
        ensures
            sorted_keys(self.entry_seq()),
            to_map(self.entry_seq()) == self@,
    {
    }

    /// An empty change log.
    pub fn new() -> (r: ChangeLog)
        ensures
            r.wf(),
            r@ == Map::<PathModel, (Seq<u8>, ChangeType)>::empty(),
    {
        let r = ChangeLog { entries: Vec::new() };
        assert(log_models(r.entries@) =~= Seq::empty());
        r
    }

    /// Appends an entry after all others. Returns false, changing nothing,
    /// unless `path` comes after every path already there.
    pub fn push_back(&mut self, path: Vec<String>, cid: Cid, change: ChangeType) -> (r: bool)
        requires
            old(self).wf(),
        ensures
            final(self).wf(),
            r == forall|q: PathModel| #[trigger] old(self)@.contains_key(q) ==> path_lt(q, path_model(path@)),
            r ==> final(self)@ == old(self)@.insert(path_model(path@), (cid@, change)),
            !r ==> final(self)@ == old(self)@,
    {
        let ghost s = log_models(self.entries@);
        let ghost k = path_model(path@);
        proof {
            crate::sorted::lemma_sorted_unique(s);
            crate::assoc::lemma_to_map_facts(s);
        }
        let n = self.entries.len();
        if n > 0 && !path_less(&self.entries[n - 1].0, &path) {
            assert(s[n - 1].0 == path_model(self.entries@[n - 1].0@));
            assert(to_map(s).contains_key(s[n - 1].0));
            assert(!path_lt(s[n - 1].0, k));
            assert(old(self)@.contains_key(s[n - 1].0));
            assert(!(forall|q: PathModel| #[trigger] old(self)@.contains_key(q) ==> path_lt(q, path_model(path@))));
            return false;
        }
        proof {
            assert forall|a: int| 0 <= a < s.len() implies path_lt(#[trigger] s[a].0, k) by {
                if a < n - 1 {
                    assert(path_lt(s[a].0, s[n - 1].0));
                    crate::path::lemma_path_lt_transitive(s[a].0, s[n - 1].0, k);
                }
            }
            assert forall|q: PathModel| #[trigger] to_map(s).contains_key(q) implies path_lt(q, k) by {
                let a = choose|a: int| 0 <= a < s.len() && s[a].0 == q;
            }
            lemma_sorted_push(s, k, (cid@, change));
        }
        self.entries.push((path, cid, change));
        assert(log_models(self.entries@) =~= s.push((k, (cid@, change))));
        true
    }

    /// The entries in path order.
    pub fn entries(&self) -> (r: Vec<LogEntry>)
        requires
            self.wf(),
        ensures
            log_models(r@) == self.entry_seq(),
    {
        let mut out: Vec<LogEntry> = Vec::new();
        let mut i: usize = 0;
        while i < self.entries.len()
            invariant
                i <= self.entries.len(),
                out@.len() == i,
                forall|j: int| 0 <= j < i ==> path_model((#[trigger] out@[j]).0@) == path_model(self.entries@[j].0@) && out@[j].1@ == self.entries@[j].1@ && out@[j].2 == self.entries@[j].2,
            decreases self.entries.len() - i,
        {
            let e = &self.entries[i];
            out.push((copy_path(&e.0), e.1.duplicate(), e.2));
            i = i + 1;
        }
        assert(log_models(out@) =~= log_models(self.entries@));
        out
    }

    /// The CID and change recorded for `path`, if any.
    pub fn get(&self, path: &Vec<String>) -> (r: Option<(Cid, ChangeType)>)
        requires
            self.wf(),
        ensures
            match r {
                Some((c, t)) => self@.contains_key(path_model(path@)) && self@[path_model(path@)] == (c@, t),
                None => !self@.contains_key(path_model(path@)),
            },
    {
        let ghost s = log_models(self.entries@);
        proof {
            crate::sorted::lemma_sorted_unique(s);
            crate::assoc::lemma_to_map_facts(s);
        }
        let mut i: usize = 0;
        while i < self.entries.len()
            invariant
                s == log_models(self.entries@),
                sorted_keys(s),
                i <= self.entries.len(),
                forall|j: int| 0 <= j < i ==> s[j].0 != path_model(path@),
            decreases self.entries.len() - i,
        {
            if path_equal(&self.entries[i].0, path) {
                assert(s[i as int].0 == path_model(path@));
                proof {
                    crate::sorted::lemma_lookup_at(s, i as int);
                }
                return Some((self.entries[i].1.duplicate(), self.entries[i].2));
            }
            i = i + 1;
        }
        proof {
            crate::sorted::lemma_sorted_unique(s);
            crate::assoc::lemma_to_map_facts(s);
        }
        assert(!to_map(s).contains_key(path_model(path@))) by {
            if to_map(s).contains_key(path_model(path@)) {
                let j = choose|j: int| 0 <= j < s.len() && s[j].0 == path_model(path@);
            }
        }
        None
    }

    /// Rewrites the change of every entry by `retype`, keeping paths and CIDs.
    fn retyped(&self, target: Option<&Vec<String>>) -> (r: ChangeLog)
        requires
            self.wf(),
        ensures
            r.wf(),
            r.entry_seq().len() == self.entry_seq().len(),
            forall|i: int| 0 <= i < r.entry_seq().len() ==> #[trigger] r.entry_seq()[i] == (self.entry_seq()[i].0,
                (self.entry_seq()[i].1.0, retype(self.entry_seq()[i].0, self.entry_seq()[i].1.1, target_model(target)))),
    {
        let ghost tm = target_model(target);
        let mut out: Vec<LogEntry> = Vec::new();
        let mut i: usize = 0;
        while i < self.entries.len()
            invariant
                self.wf(),
                tm == target_model(target),
                i <= self.entries.len(),
                out@.len() == i,
                forall|j: int| 0 <= j < i ==> #[trigger] log_models(out@)[j] == (log_models(self.entries@)[j].0,
                    (log_models(self.entries@)[j].1.0, retype(log_models(self.entries@)[j].0, log_models(self.entries@)[j].1.1, tm))),
            decreases self.entries.len() - i,
        {
            let e = &self.entries[i];
            let t = match target {
                None => ChangeType::Base,
                Some(q) => if path_equal(&e.0, q) {
                    match e.2 {
                        ChangeType::Added { .. } => ChangeType::Added { modified: true },
                        ChangeType::Base => ChangeType::Modified,
                        other => other,
                    }
                } else {
                    e.2
                },
            };
            let ghost before = out@;
            out.push((copy_path(&e.0), e.1.duplicate(), t));
            proof {
                assert forall|j: int| 0 <= j < i + 1 implies #[trigger] log_models(out@)[j] == (log_models(self.entries@)[j].0,
                    (log_models(self.entries@)[j].1.0, retype(log_models(self.entries@)[j].0, log_models(self.entries@)[j].1.1, tm))) by {
                    if j < i {
                        assert(out@[j] == before[j]);
                        assert(log_models(out@)[j] == log_models(before)[j]);
                    }
                }
            }
            i = i + 1;
        }
        let r = ChangeLog { entries: out };
        assert(sorted_keys(log_models(r.entries@))) by {
            let a = log_models(r.entries@);
            let b = log_models(self.entries@);
            assert forall|x: int, y: int| 0 <= x < y < a.len() implies path_lt(#[trigger] a[x].0, #[trigger] a[y].0) by {
                assert(a[x].0 == b[x].0 && a[y].0 == b[y].0);
            }
        }
        r
    }

    /// The log after a successful push: every entry becomes `Base` with its
    /// CID kept; also whether any entry was not `Base` (there was something to push).
    pub fn settle(&self) -> (r: (ChangeLog, bool))
        requires
            self.wf(),
        ensures
            r.0.wf(),
            r.0.entry_seq().len() == self.entry_seq().len(),
            forall|i: int| 0 <= i < r.0.entry_seq().len() ==> #[trigger] r.0.entry_seq()[i]
                == (self.entry_seq()[i].0, (self.entry_seq()[i].1.0, ChangeType::Base)),
            r.1 == exists|i: int| 0 <= i < self.entry_seq().len() && (#[trigger] self.entry_seq()[i]).1.1 != ChangeType::Base,
    {
        let settled = self.retyped(None);
        let mut changed = false;
        let mut i: usize = 0;
        while i < self.entries.len()
            invariant
                i <= self.entries.len(),
                changed == exists|j: int| 0 <= j < i && (#[trigger] log_models(self.entries@)[j]).1.1 != ChangeType::Base,
            decreases self.entries.len() - i,
        {
            if self.entries[i].2 != ChangeType::Base {
                assert(log_models(self.entries@)[i as int].1.1 != ChangeType::Base);
                changed = true;
            }
            i = i + 1;
        }
        (settled, changed)
    }

    /// Records that the metadata of `path` changed: an added file counts as
    /// modified since it was added, a synced one as modified.
    pub fn mark_tagged(&mut self, path: &Vec<String>)
        requires
            old(self).wf(),
        ensures
            final(self).wf(),
            final(self).entry_seq().len() == old(self).entry_seq().len(),
            forall|i: int| 0 <= i < final(self).entry_seq().len() ==> #[trigger] final(self).entry_seq()[i] == (old(self).entry_seq()[i].0,
                (old(self).entry_seq()[i].1.0, retype(old(self).entry_seq()[i].0, old(self).entry_seq()[i].1.1, Some(path_model(path@))))),
    {
        let r = self.retyped(Some(path));
        *self = r;
    }

    /// The entries whose content has to be uploaded on push: added or modified
    /// files, in path order.
    pub fn pending_uploads(&self) -> (r: Vec<LogEntry>)
        requires
            self.wf(),
        ensures
            log_models(r@) == uploads_of(self.entry_seq()),
    {
        let mut out: Vec<LogEntry> = Vec::new();
        let ghost s = log_models(self.entries@);
        let mut i: usize = 0;
        assert(log_models(out@) =~= uploads_of(s.subrange(0, 0)));
        while i < self.entries.len()
            invariant
                s == log_models(self.entries@),
                s == self.entry_seq(),
                i <= self.entries.len(),
                log_models(out@) == uploads_of(s.subrange(0, i as int)),
            decreases self.entries.len() - i,
        {
            let e = &self.entries[i];
            let ghost before = log_models(out@);
            proof {
                assert(s.subrange(0, i + 1).drop_last() =~= s.subrange(0, i as int));
                assert(s.subrange(0, i + 1).last() == s[i as int]);
            }
            match e.2 {
                ChangeType::Added { .. } | ChangeType::Modified => {
                    out.push((copy_path(&e.0), e.1.duplicate(), e.2));
                    assert(log_models(out@) =~= before + seq![s[i as int]]);
                },
                _ => {
                    assert(before + Seq::<(PathModel, (Seq<u8>, ChangeType))>::empty() =~= before);
                },
            }
            i = i + 1;
        }
        assert(s.subrange(0, i as int) =~= s);
        out
    }

    /// The entries that changed since the last push (all but `Base`), in path order.
    pub fn pending_changes(&self) -> (r: Vec<LogEntry>)
        requires
            self.wf(),
        ensures
            log_models(r@) == changes_of(self.entry_seq()),
    {
        let mut out: Vec<LogEntry> = Vec::new();
        let ghost s = log_models(self.entries@);
        let mut i: usize = 0;
        assert(log_models(out@) =~= changes_of(s.subrange(0, 0)));
        while i < self.entries.len()
            invariant
                s == log_models(self.entries@),
                s == self.entry_seq(),
                i <= self.entries.len(),
                log_models(out@) == changes_of(s.subrange(0, i as int)),
            decreases self.entries.len() - i,
        {
            let e = &self.entries[i];
            let ghost before = log_models(out@);
            proof {
                assert(s.subrange(0, i + 1).drop_last() =~= s.subrange(0, i as int));
                assert(s.subrange(0, i + 1).last() == s[i as int]);
            }
            if e.2 != ChangeType::Base {
                out.push((copy_path(&e.0), e.1.duplicate(), e.2));
                assert(log_models(out@) =~= before + seq![s[i as int]]);
            } else {
                assert(before + Seq::<(PathModel, (Seq<u8>, ChangeType))>::empty() =~= before);
            }
            i = i + 1;
        }
        assert(s.subrange(0, i as int) =~= s);
        out
    }

    /// A log of synced files: every remote item as `Base`, in path order.
    pub fn from_items(items: &Vec<(Vec<String>, Cid)>) -> (r: ChangeLog)
        requires
            forall|a: int, b: int| 0 <= a < b < items@.len() ==> path_lt(#[trigger] path_model(items@[a].0@), #[trigger] path_model(items@[b].0@)),
        ensures
            r.wf(),
            r.entry_seq().len() == items@.len(),
            forall|i: int| 0 <= i < items@.len() ==> #[trigger] r.entry_seq()[i] == (path_model(items@[i].0@), (items@[i].1@, ChangeType::Base)),
    {
        let mut out: Vec<LogEntry> = Vec::new();
        let mut i: usize = 0;
        while i < items.len()
            invariant
                forall|a: int, b: int| 0 <= a < b < items@.len() ==> path_lt(#[trigger] path_model(items@[a].0@), #[trigger] path_model(items@[b].0@)),
                i <= items.len(),
                out@.len() == i,
                forall|x: int| 0 <= x < i ==> #[trigger] log_models(out@)[x] == (path_model(items@[x].0@), (items@[x].1@, ChangeType::Base)),
            decreases items.len() - i,
        {
            let ghost before = out@;
            out.push((copy_path(&items[i].0), items[i].1.duplicate(), ChangeType::Base));
            proof {
                assert forall|x: int| 0 <= x < i + 1 implies #[trigger] log_models(out@)[x] == (path_model(items@[x].0@), (items@[x].1@, ChangeType::Base)) by {
                    if x < i {
                        assert(log_models(out@)[x] == log_models(before)[x]);
                    }
                }
            }
            i = i + 1;
        }
        let r = ChangeLog { entries: out };
        assert(sorted_keys(log_models(r.entries@))) by {
            let a = log_models(r.entries@);
            assert forall|x: int, y: int| 0 <= x < y < a.len() implies path_lt(#[trigger] a[x].0, #[trigger] a[y].0) by {
                assert(a[x].0 == path_model(items@[x].0@) && a[y].0 == path_model(items@[y].0@));
            }
        }
        r
    }
}

pub open spec fn target_model(target: Option<&Vec<String>>) -> Option<PathModel> {
    match target {
        Some(p) => Some(path_model(p@)),
        None => None,
    }
}

/// The change of an entry after a rewrite: with no target every entry is
/// settled to `Base`; with a target path, that entry is marked as modified.
pub open spec fn retype(p: PathModel, t: ChangeType, target: Option<PathModel>) -> ChangeType {
    match target {
        None => ChangeType::Base,
        Some(q) => if p == q {
            match t {
                ChangeType::Added { .. } => ChangeType::Added { modified: true },
                ChangeType::Base => ChangeType::Modified,
                other => other,
            }
        } else {
            t
        },
    }
}

/// The entries of a log whose content is to be uploaded: added or modified files.
pub open spec fn uploads_of(s: Seq<(PathModel, (Seq<u8>, ChangeType))>) -> Seq<(PathModel, (Seq<u8>, ChangeType))>
    decreases s.len(),
{
    if s.len() == 0 {
        Seq::empty()
    } else {
        uploads_of(s.drop_last()) + if s.last().1.1 is Added || s.last().1.1 is Modified {
            seq![s.last()]
        } else {
            Seq::empty()
        }
    }
}

/// The entries of a log that changed since the last push: all but `Base`.
pub open spec fn changes_of(s: Seq<(PathModel, (Seq<u8>, ChangeType))>) -> Seq<(PathModel, (Seq<u8>, ChangeType))>
    decreases s.len(),
{
    if s.len() == 0 {
        Seq::empty()
    } else {
        changes_of(s.drop_last()) + if s.last().1.1 != ChangeType::Base {
            seq![s.last()]
        } else {
            Seq::empty()
        }
    }
}

} // verus!
