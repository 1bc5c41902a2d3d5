use vstd::prelude::*;

use crate::strings::chars_eq;
use crate::strings::from_char_vec;
use crate::strings::to_char_vec;
use crate::text::extract_title_chars;
use crate::text::extract_title_spec;

verus! {

// ---------------------------------------------------------------------------
// The change watcher's decisions.
//
// The caller observes raw filesystem notifications on its own thread and
// performs the reads and index updates; everything decidable from plain
// values is decided here: how a raw event classifies, whether it is
// debounced, and what reconciliation it asks for.
// ---------------------------------------------------------------------------

/// A raw notification, as the platform reports it.
#[derive(Clone, Copy, Debug, PartialEq, Eq, Structural)]
pub enum RawEventKind {
    Create,
    Modify,
    Remove,
    /// Some platforms report renames or unclassified changes this way.
    Any,
    /// Access notifications and other kinds the store ignores.
    Other,
}

/// A change the store reacts to.
#[derive(Clone, Copy, Debug, PartialEq, Eq, Structural)]
pub enum ChangeKind {
    Created,
    Modified,
    Deleted,
}

/// How a raw event classifies.
pub open spec fn spec_classify(raw: RawEventKind) -> Option<ChangeKind> {
    match raw {
        RawEventKind::Create => Some(ChangeKind::Created),
        RawEventKind::Modify => Some(ChangeKind::Modified),
        RawEventKind::Remove => Some(ChangeKind::Deleted),
        RawEventKind::Any => Some(ChangeKind::Modified),
        RawEventKind::Other => None,
    }
}

/// Classify a raw event; ambiguous `Any` events count as modifications,
/// other kinds are ignored.
pub fn classify_event(raw: RawEventKind) -> (r: Option<ChangeKind>)
    ensures
        r == spec_classify(raw),
{
    match raw {
        RawEventKind::Create => Some(ChangeKind::Created),
        RawEventKind::Modify => Some(ChangeKind::Modified),
        RawEventKind::Remove => Some(ChangeKind::Deleted),
        RawEventKind::Any => Some(ChangeKind::Modified),
        RawEventKind::Other => None,
    }
}

/// The kind reported outward: a modification of a file that no longer
/// exists is really a deletion.
pub fn effective_kind(kind: ChangeKind, file_exists: bool) -> (r: ChangeKind)
    ensures
        r == if kind == ChangeKind::Modified && !file_exists {
            ChangeKind::Deleted
        } else {
            kind
        },
{
    if matches!(kind, ChangeKind::Modified) && !file_exists {
        ChangeKind::Deleted
    } else {
        kind
    }
}

/// What reconciliation an accepted event asks of the index.
pub enum ReconcileAction {
    /// Re-index the note under this derived title and content.
    Reindex { title: String, content: String },
    /// Drop the note from the index.
    Remove,
    /// Leave the index alone (the read failed but the file still exists).
    Nothing,
}

/// Decide the index reconciliation for an accepted event: creations and
/// modifications re-index from the file's content; a read that failed
/// because the file vanished counts as a deletion; deletions drop the
/// identifier.
pub fn reconcile_action(
    kind: ChangeKind,
    content: Option<String>,
    still_exists: bool,
) -> (r: ReconcileAction)
    ensures
        match kind {
            ChangeKind::Created | ChangeKind::Modified => match content {
                Some(c) => r matches ReconcileAction::Reindex { title, content: rc } && title@
                    == extract_title_spec(c@) && rc == c,
                None => if !still_exists {
                    r is Remove
                } else {
                    r is Nothing
                },
            },
            ChangeKind::Deleted => r is Remove,
        },
{
    match kind {
        ChangeKind::Created | ChangeKind::Modified => match content {
            Some(c) => {
                let cv = to_char_vec(c.as_str());
                let title = extract_title_chars(&cv);
                ReconcileAction::Reindex { title: from_char_vec(&title), content: c }
            },
            None => {
                if !still_exists {
                    ReconcileAction::Remove
                } else {
                    ReconcileAction::Nothing
                }
            },
        },
        ChangeKind::Deleted => ReconcileAction::Remove,
    }
}

// ---------------------------------------------------------------------------
// Debouncing.
//
// The table remembers when each path last produced an accepted event.  A
// second event for the same path within 500 milliseconds is suppressed.
// Whenever the table has grown past 100 entries, entries older than 5
// seconds are pruned first; a pruned entry is at least 5 seconds old and so
// never within the 500 millisecond window.
// ---------------------------------------------------------------------------

/// The last-accepted stamp of a path, newest entry deciding.
pub open spec fn get_stamp(m: Seq<(Seq<char>, u64)>, p: Seq<char>) -> Option<u64>
    decreases m.len(),
{
    if m.len() == 0 {
        None
    } else if m.last().0 == p {
        Some(m.last().1)
    } else {
        get_stamp(m.drop_last(), p)
    }
}

/// The entries younger than 5 seconds.
pub open spec fn prune_model(m: Seq<(Seq<char>, u64)>, now: u64) -> Seq<(Seq<char>, u64)>
    decreases m.len(),
{
    if m.len() == 0 {
        m
    } else {
        let pre = prune_model(m.drop_last(), now);
        if now - m.last().1 < 5000 {
            pre.push(m.last())
        } else {
            pre
        }
    }
}

/// The entries whose path is not `p`.
pub open spec fn remove_path(m: Seq<(Seq<char>, u64)>, p: Seq<char>) -> Seq<(Seq<char>, u64)>
    decreases m.len(),
{
    if m.len() == 0 {
        m
    } else {
        let pre = remove_path(m.drop_last(), p);
        if m.last().0 == p {
            pre
        } else {
            pre.push(m.last())
        }
    }
}

/// The table the pruning step leaves: untouched at 100 entries or fewer.
pub open spec fn pruned_model(m: Seq<(Seq<char>, u64)>, now: u64) -> Seq<(Seq<char>, u64)> {
    if m.len() > 100 {
        prune_model(m, now)
    } else {
        m
    }
}

/// Whether an event for `p` at `now` is accepted against the (pruned)
/// table.
pub open spec fn spec_accepts(m: Seq<(Seq<char>, u64)>, p: Seq<char>, now: u64) -> bool {
    match get_stamp(pruned_model(m, now), p) {
        Some(t) => !(now - t < 500),
        None => true,
    }
}

/// The table an accepted event leaves behind.
pub open spec fn accept_model(m: Seq<(Seq<char>, u64)>, p: Seq<char>, now: u64) -> Seq<
    (Seq<char>, u64),
> {
    let m1 = pruned_model(m, now);
    if spec_accepts(m, p, now) {
        remove_path(m1, p).push((p, now))
    } else {
        m1
    }
}

/// The per-path debounce table of one folder's watcher.
pub struct DebounceTable {
    entries: Vec<(String, u64)>,
}

impl DebounceTable {
    /// The mathematical model: paths as character sequences with their
    /// stamps, in insertion order.
    pub closed spec fn model(&self) -> Seq<(Seq<char>, u64)> {
        Seq::new(self.entries@.len(), |i: int| (self.entries@[i].0@, self.entries@[i].1))
    }

    /// Every stamp is at or before `now`; holds whenever stamps come from a
    /// monotonic clock.
    pub open spec fn stamps_le(&self, now: u64) -> bool {
        forall|i: int| 0 <= i < self.model().len() ==> (#[trigger] self.model()[i]).1 <= now
    }

    /// An empty table.
    pub fn new() -> (r: DebounceTable)
        ensures
            r.model() == Seq::<(Seq<char>, u64)>::empty(),
    {
        let r = DebounceTable { entries: Vec::new() };
        proof {
            assert(r.model() =~= Seq::<(Seq<char>, u64)>::empty());
        }
        r
    }

    /// How many paths the table tracks.
    pub fn len(&self) -> (r: usize)
        ensures
            r == self.model().len(),
    {
        self.entries.len()
    }

    /// Drop every entry five seconds old or older.
    pub fn prune(&mut self, now: u64)
        ensures
            final(self).model() == prune_model(old(self).model(), now),
    {
        let ghost orig = self.model();
        let mut kept: Vec<(String, u64)> = Vec::new();
        let ghost n = self.entries@.len();
        let mut i: usize = 0;
        while i < self.entries.len()
            invariant
                0 <= i <= self.entries@.len(),
                orig == Seq::new(
                    self.entries@.len(),
                    |k: int| (self.entries@[k].0@, self.entries@[k].1),
                ),
                Seq::new(kept@.len(), |k: int| (kept@[k].0@, kept@[k].1)) == prune_model(
                    orig.take(i as int),
                    now,
                ),
            decreases self.entries@.len() - i,
        {
            proof {
                assert(orig.take(i + 1).drop_last() =~= orig.take(i as int));
                assert(orig.take(i + 1).last() == orig[i as int]);
            }
            let stamp = self.entries[i].1;
            if stamp > now || now - stamp < 5000 {
                let ghost kb = kept@;
                let p = clone_entry(&self.entries[i]);
                kept.push(p);
                proof {
                    assert(Seq::new(kept@.len(), |k: int| (kept@[k].0@, kept@[k].1)) =~= Seq::new(
                        kb.len(),
                        |k: int| (kb[k].0@, kb[k].1),
                    ).push((self.entries@[i as int].0@, self.entries@[i as int].1)));
                }
            }
            i = i + 1;
        }
        proof {
            assert(orig.take(orig.len() as int) =~= orig);
        }
        self.entries = kept;
        proof {
            assert(self.model() =~= Seq::new(
                self.entries@.len(),
                |k: int| (self.entries@[k].0@, self.entries@[k].1),
            ));
        }
    }

    /// Accept or suppress an event for `path` at `now` (milliseconds on a
    /// monotonic clock).  A table grown past 100 entries is pruned first;
    /// an event within 500 ms of the path's last accepted one is
    /// suppressed, anything else is recorded and accepted.
    pub fn accept(&mut self, path: &str, now: u64) -> (r: bool)
        requires
            old(self).stamps_le(now),
        ensures
            r == spec_accepts(old(self).model(), path@, now),
            final(self).model() == accept_model(old(self).model(), path@, now),
            final(self).stamps_le(now),
    {
        let ghost orig = self.model();
        if self.entries.len() > 100 {
            proof {
                assert(orig.len() > 100);
            }
            self.prune(now);
        }
        proof {
            assert(self.model() == pruned_model(orig, now));
            lemma_prune_stamps(orig, now);
        }
        let ghost m1 = self.model();
        proof {
            assert(m1.take(m1.len() as int) =~= m1);
        }

        // look the path up, newest entry first
        let pv = to_char_vec(path);
        let mut i: usize = self.entries.len();
        let mut found: Option<u64> = None;
        while i > 0 && found.is_none()
            invariant
                0 <= i <= self.entries@.len(),
                m1 == self.model(),
                pv@ == path@,
                found is None ==> get_stamp(m1, path@) == get_stamp(m1.take(i as int), path@),
                match found {
                    Some(t) => get_stamp(m1, path@) == Some(t),
                    None => true,
                },
            decreases i,
        {
            proof {
                assert(m1.take(i as int).drop_last() =~= m1.take(i - 1));
                assert(m1.take(i as int).last() == m1[i - 1]);
            }
            let e = &self.entries[i - 1];
            let ev = to_char_vec(e.0.as_str());
            if chars_eq(&ev, &pv) {
                proof {
                    assert(m1[i - 1].0 == path@);
                }
                found = Some(e.1);
            } else {
                proof {
                    assert(m1[i - 1].0 != path@);
                }
            }
            i = i - 1;
        }
        proof {
            if found is None {
                assert(m1.take(0) =~= Seq::<(Seq<char>, u64)>::empty());
            }
        }

        match found {
            Some(t) => {
                proof {
                    lemma_get_stamp_le(m1, path@, now);
                }
                if now - t < 500 {
                    proof {
                        assert(!spec_accepts(orig, path@, now));
                    }
                    return false;
                }
                self.record(path, now);
                proof {
                    assert(spec_accepts(orig, path@, now));
                }
                true
            },
            None => {
                self.record(path, now);
                proof {
                    assert(spec_accepts(orig, path@, now));
                }
                true
            },
        }
    }

    /// Replace the path's entry with a fresh stamp.
    fn record(&mut self, path: &str, now: u64)
        requires
            old(self).stamps_le(now),
        ensures
            final(self).model() == remove_path(old(self).model(), path@).push((path@, now)),
            final(self).stamps_le(now),
    {
        let ghost orig = self.model();
        let pv = to_char_vec(path);
        let mut kept: Vec<(String, u64)> = Vec::new();
        let mut i: usize = 0;
        while i < self.entries.len()
            invariant
                0 <= i <= self.entries@.len(),
                pv@ == path@,
                orig == Seq::new(
                    self.entries@.len(),
                    |k: int| (self.entries@[k].0@, self.entries@[k].1),
                ),
                orig.len() == self.entries@.len(),
                old(self).stamps_le(now),
                orig == old(self).model(),
                Seq::new(kept@.len(), |k: int| (kept@[k].0@, kept@[k].1)) == remove_path(
                    orig.take(i as int),
                    path@,
                ),
            decreases self.entries@.len() - i,
        {
            proof {
                assert(orig.take(i + 1).drop_last() =~= orig.take(i as int));
                assert(orig.take(i + 1).last() == orig[i as int]);
            }
            let ev = to_char_vec(self.entries[i].0.as_str());
            if !chars_eq(&ev, &pv) {
                proof {
                    assert(orig[i as int].0 != path@);
                }
                let ghost kb = kept@;
                let p = clone_entry(&self.entries[i]);
                kept.push(p);
                proof {
                    assert(Seq::new(kept@.len(), |k: int| (kept@[k].0@, kept@[k].1)) =~= Seq::new(
                        kb.len(),
                        |k: int| (kb[k].0@, kb[k].1),
                    ).push((self.entries@[i as int].0@, self.entries@[i as int].1)));
                }
            } else {
                proof {
                    assert(orig[i as int].0 == path@);
                }
            }
            i = i + 1;
        }
        proof {
            assert(orig.take(orig.len() as int) =~= orig);
        }
        kept.push((path.to_owned(), now));
        self.entries = kept;
        proof {
            assert(self.model() =~= remove_path(orig, path@).push((path@, now)));
            lemma_remove_path_stamps(orig, path@, now);
        }
    }
}


fn clone_entry(e: &(String, u64)) -> (r: (String, u64))
    ensures
        r == *e,
{
    (e.0.clone(), e.1)
}

/// Pruning keeps only stamps at or before `now` if all stamps were.
proof fn lemma_prune_stamps(m: Seq<(Seq<char>, u64)>, now: u64)
    requires
        forall|i: int| 0 <= i < m.len() ==> (#[trigger] m[i]).1 <= now,
    ensures
        forall|i: int|
            0 <= i < prune_model(m, now).len() ==> (#[trigger] prune_model(m, now)[i]).1 <= now,
        forall|i: int|
            0 <= i < pruned_model(m, now).len() ==> (#[trigger] pruned_model(m, now)[i]).1 <= now,
    decreases m.len(),
{
    if m.len() > 0 {
        assert(forall|i: int| 0 <= i < m.len() - 1 ==> (#[trigger] m.drop_last()[i]).1 <= now);
        lemma_prune_stamps(m.drop_last(), now);
        let pm = prune_model(m, now);
        let pre = prune_model(m.drop_last(), now);
        assert forall|i: int| 0 <= i < pm.len() implies (#[trigger] pm[i]).1 <= now by {
            if now - m.last().1 < 5000 {
                if i < pre.len() {
                    assert(pm[i] == pre[i]);
                } else {
                    assert(pm[i] == m.last());
                }
            } else {
                assert(pm[i] == pre[i]);
            }
        }
    }
}

/// A stored stamp read back is within the clock bound.
proof fn lemma_get_stamp_le(m: Seq<(Seq<char>, u64)>, p: Seq<char>, now: u64)
    requires
        forall|i: int| 0 <= i < m.len() ==> (#[trigger] m[i]).1 <= now,
        get_stamp(m, p) is Some,
    ensures
        get_stamp(m, p).unwrap() <= now,
    decreases m.len(),
{
    if m.len() > 0 && m.last().0 != p {
        assert(forall|i: int| 0 <= i < m.len() - 1 ==> (#[trigger] m.drop_last()[i]).1 <= now);
        lemma_get_stamp_le(m.drop_last(), p, now);
    }
}

/// Removing a path keeps the remaining stamps.
proof fn lemma_remove_path_stamps(m: Seq<(Seq<char>, u64)>, p: Seq<char>, now: u64)
    requires
        forall|i: int| 0 <= i < m.len() ==> (#[trigger] m[i]).1 <= now,
    ensures
        forall|i: int|
            0 <= i < remove_path(m, p).len() ==> (#[trigger] remove_path(m, p)[i]).1 <= now,
    decreases m.len(),
{
    if m.len() > 0 {
        assert(forall|i: int| 0 <= i < m.len() - 1 ==> (#[trigger] m.drop_last()[i]).1 <= now);
        lemma_remove_path_stamps(m.drop_last(), p, now);
        let rm = remove_path(m, p);
        let pre = remove_path(m.drop_last(), p);
        assert forall|i: int| 0 <= i < rm.len() implies (#[trigger] rm[i]).1 <= now by {
            if m.last().0 != p {
                if i < pre.len() {
                    assert(rm[i] == pre[i]);
                } else {
                    assert(rm[i] == m.last());
                }
            } else {
                assert(rm[i] == pre[i]);
            }
        }
    }
}

// ---------------------------------------------------------------------------
// The debounce guarantee: of two events for the same path within 500
// milliseconds, exactly the first is accepted.
// ---------------------------------------------------------------------------

/// A just-recorded path reads back its fresh stamp.
proof fn lemma_get_stamp_after_record(m: Seq<(Seq<char>, u64)>, p: Seq<char>, now: u64)
    ensures
        get_stamp(remove_path(m, p).push((p, now)), p) == Some(now),
{
    let m2 = remove_path(m, p).push((p, now));
    assert(m2.last() == (p, now));
}

/// Pruning keeps a young stamp: a path whose stamp is within the five
/// second horizon reads back unchanged.
proof fn lemma_get_stamp_prune(m: Seq<(Seq<char>, u64)>, p: Seq<char>, now: u64, t: u64)
    requires
        get_stamp(m, p) == Some(t),
        now - t < 5000,
        forall|i: int| 0 <= i < m.len() ==> (#[trigger] m[i]).1 <= now,
    ensures
        get_stamp(prune_model(m, now), p) == Some(t),
    decreases m.len(),
{
    if m.len() > 0 {
        let pre = prune_model(m.drop_last(), now);
        if m.last().0 == p {
            assert(m.last().1 == t);
            assert(prune_model(m, now) == pre.push(m.last()));
        } else {
            assert(forall|i: int|
                0 <= i < m.len() - 1 ==> (#[trigger] m.drop_last()[i]).1 <= now);
            lemma_get_stamp_prune(m.drop_last(), p, now, t);
            if now - m.last().1 < 5000 {
                assert(prune_model(m, now) == pre.push(m.last()));
                assert(prune_model(m, now).drop_last() =~= pre);
            }
        }
    }
}

/// Two events for one path within 500 milliseconds yield exactly one
/// acceptance: the second is suppressed.
pub proof fn lemma_debounce_suppresses_second(
    m: Seq<(Seq<char>, u64)>,
    p: Seq<char>,
    t1: u64,
    t2: u64,
)
    requires
        spec_accepts(m, p, t1),
        forall|i: int| 0 <= i < m.len() ==> (#[trigger] m[i]).1 <= t1,
        t1 <= t2,
        t2 - t1 < 500,
    ensures
        !spec_accepts(accept_model(m, p, t1), p, t2),
{
    let m2 = accept_model(m, p, t1);
    let m1 = pruned_model(m, t1);
    assert(m2 == remove_path(m1, p).push((p, t1)));
    lemma_get_stamp_after_record(m1, p, t1);
    assert(get_stamp(m2, p) == Some(t1));
    if m2.len() > 100 {
        lemma_prune_stamps(m, t1);
        lemma_remove_path_stamps(m1, p, t1);
        assert(forall|i: int| 0 <= i < m2.len() ==> (#[trigger] m2[i]).1 <= t2) by {
            assert(forall|i: int|
                0 <= i < m2.len() - 1 ==> (#[trigger] m2[i]) == remove_path(m1, p)[i]);
        }
        lemma_get_stamp_prune(m2, p, t2, t1);
    }
}

} // verus!
