//! The replicated log and the persistent state of a node.
//!
//! The log keeps its entries in memory and records, in order, every write
//! that the disk must receive to hold the same log: the caller drains these
//! writes with [`RaftLog::take_pending_writes`] and performs them.  A log
//! read back from disk is rebuilt with [`RaftLog::load`].

use crate::bounded::{fit_bytes, fit_data, fit_str, fit_text};
use crate::protocol::{entries_view, Command, CommandView, LogEntry, LogEntryView};
use crate::state::{copy_opt_string, opt_text, PersistentState, PersistentStateView};
use std::collections::HashMap;
use vstd::prelude::*;

verus! {

broadcast use vstd::std_specs::hash::group_hash_axioms;

/// Serializable log entry for disk storage
#[derive(Debug)]
pub struct DiskLogEntry {
    pub index: u64,
    pub term: u64,
    pub command_type: String,
    pub key: Option<String>,
    pub value: Option<Vec<u8>>,
}

/// A disk record as a mathematical value.
pub struct DiskLogEntryView {
    pub index: u64,
    pub term: u64,
    pub command_type: Seq<char>,
    pub key: Option<Seq<char>>,
    pub value: Option<Seq<u8>>,
}

/// The view of optional bytes.
pub open spec fn opt_data(v: Option<Vec<u8>>) -> Option<Seq<u8>> {
    match v {
        Some(b) => Some(b@),
        None => None,
    }
}

impl View for DiskLogEntry {
    type V = DiskLogEntryView;

    open spec fn view(&self) -> DiskLogEntryView {
        DiskLogEntryView {
            index: self.index,
            term: self.term,
            command_type: self.command_type@,
            key: opt_text(self.key),
            value: opt_data(self.value),
        }
    }
}

impl Clone for DiskLogEntry {
    fn clone(&self) -> (r: Self)
        ensures
            r@ == self@,
    {
        DiskLogEntry {
            index: self.index,
            term: self.term,
            command_type: self.command_type.clone(),
            key: copy_opt_string(&self.key),
            value: match &self.value {
                Some(v) => Some(v.clone()),
                None => None,
            },
        }
    }
}

/// The views of a sequence of disk records.
pub open spec fn lines_view(s: Seq<DiskLogEntry>) -> Seq<DiskLogEntryView> {
    s.map_values(|d: DiskLogEntry| d@)
}

/// The disk record of entry `e`.
pub open spec fn disk_of(e: LogEntryView) -> DiskLogEntryView {
    match e.command {
        CommandView::Put { key, value } => DiskLogEntryView {
            index: e.index,
            term: e.term,
            command_type: "Put"@,
            key: Some(key),
            value: Some(value),
        },
        CommandView::Delete { key } => DiskLogEntryView {
            index: e.index,
            term: e.term,
            command_type: "Delete"@,
            key: Some(key),
            value: None,
        },
        CommandView::Noop => DiskLogEntryView {
            index: e.index,
            term: e.term,
            command_type: "Noop"@,
            key: None,
            value: None,
        },
    }
}

/// The entry that disk record `d` is read back as: a missing key or value
/// reads as empty, a key or value longer than a command holds is cut as the
/// wire types cut it, and an unknown command type reads as a no-op.
pub open spec fn entry_of(d: DiskLogEntryView) -> LogEntryView {
    let key = match d.key {
        Some(k) => k,
        None => Seq::empty(),
    };
    let value = match d.value {
        Some(v) => v,
        None => Seq::empty(),
    };
    let command = if d.command_type == "Put"@ {
        CommandView::Put {
            key: fit_text(key, crate::MAX_KEY_SIZE as nat),
            value: fit_data(value, crate::MAX_VALUE_SIZE as nat),
        }
    } else if d.command_type == "Delete"@ {
        CommandView::Delete { key: fit_text(key, crate::MAX_KEY_SIZE as nat) }
    } else {
        CommandView::Noop
    };
    LogEntryView { index: d.index, term: d.term, command }
}

/// A write that the disk must receive.
#[derive(Debug)]
pub enum DiskWrite {
    /// Replace the saved term and vote
    SaveState(PersistentState),
    /// Append these records to the log file, then flush it
    Append(Vec<DiskLogEntry>),
    /// Replace the log file by these records
    Rewrite(Vec<DiskLogEntry>),
}

/// A disk write as a mathematical value.
pub enum DiskWriteView {
    SaveState(PersistentStateView),
    Append(Seq<DiskLogEntryView>),
    Rewrite(Seq<DiskLogEntryView>),
}

impl View for DiskWrite {
    type V = DiskWriteView;

    open spec fn view(&self) -> DiskWriteView {
        match self {
            DiskWrite::SaveState(s) => DiskWriteView::SaveState(s@),
            DiskWrite::Append(v) => DiskWriteView::Append(lines_view(v@)),
            DiskWrite::Rewrite(v) => DiskWriteView::Rewrite(lines_view(v@)),
        }
    }
}

/// The views of a sequence of disk writes.
pub open spec fn writes_view(s: Seq<DiskWrite>) -> Seq<DiskWriteView> {
    s.map_values(|w: DiskWrite| w@)
}

/// The entries of `m` with index `start` to `end` (both included), in index order.
pub open spec fn entries_between(m: Map<u64, LogEntryView>, start: int, end: int) -> Seq<LogEntryView>
    decreases end - start + 1,
{
    if end < start {
        Seq::empty()
    } else {
        let p = entries_between(m, start, end - 1);
        if m.contains_key(end as u64) {
            p.push(m[end as u64])
        } else {
            p
        }
    }
}

/// The disk records of the entries of `m` with index 1 to `n - 1`, in index order.
pub open spec fn lines_before(m: Map<u64, LogEntryView>, n: int) -> Seq<DiskLogEntryView> {
    entries_between(m, 1, n - 1).map_values(|e: LogEntryView| disk_of(e))
}

/// The entries that the records `ls` are read back as; a later record for an
/// index replaces an earlier one.
pub open spec fn loaded_entries(ls: Seq<DiskLogEntryView>) -> Map<u64, LogEntryView>
    decreases ls.len(),
{
    if ls.len() == 0 {
        Map::empty()
    } else {
        loaded_entries(ls.drop_last()).insert(ls.last().index, entry_of(ls.last()))
    }
}

/// The last index of a log read back from the records `ls`: the greatest index among them, or 0.
pub open spec fn loaded_last(ls: Seq<DiskLogEntryView>) -> u64
    decreases ls.len(),
{
    if ls.len() == 0 {
        0
    } else {
        let p = loaded_last(ls.drop_last());
        if ls.last().index > p {
            ls.last().index
        } else {
            p
        }
    }
}

/// The entries of `m` below index `n`.
pub open spec fn entries_below(m: Map<u64, LogEntryView>, n: u64) -> Map<u64, LogEntryView> {
    Map::new(|k: u64| m.contains_key(k) && k < n, |k: u64| m[k])
}

/// The view of a map of entries.
pub open spec fn map_view(m: Map<u64, LogEntry>) -> Map<u64, LogEntryView> {
    m.map_values(|e: LogEntry| e@)
}

/// The entries of `m` once the entries `es` are stored, in order, each at its index.
pub open spec fn with_entries(m: Map<u64, LogEntryView>, es: Seq<LogEntryView>) -> Map<u64, LogEntryView>
    decreases es.len(),
{
    if es.len() == 0 {
        m
    } else {
        with_entries(m, es.drop_last()).insert(es.last().index, es.last())
    }
}

/// The greatest of `base` and the indices of `es`.
pub open spec fn max_index(base: u64, es: Seq<LogEntryView>) -> u64
    decreases es.len(),
{
    if es.len() == 0 {
        base
    } else {
        let p = max_index(base, es.drop_last());
        if es.last().index > p {
            es.last().index
        } else {
            p
        }
    }
}

/// Whether `idx` lies below `from`.
pub fn is_below(idx: u64, from: u64) -> (r: bool)
    ensures
        r == (idx < from),
{
    idx < from
}

/// `HashMap::retain`, keeping the entries whose index lies below `from`.
#[verifier::external_body]
fn retain_below(m: &mut HashMap<u64, LogEntry>, from: u64)
    ensures
        final(m)@ == Map::new(|k: u64| old(m)@.contains_key(k) && k < from, |k: u64| old(m)@[k]),
{
    m.retain(|idx, _| is_below(*idx, from))
}

/// Whether the recorded vote, if any, fits in an identifier of
/// `MAX_ID_SIZE` bytes, as every vote the log records does.
pub open spec fn vote_fits(st: PersistentStateView) -> bool {
    st.voted_for matches Some(v) ==> vstd::utf8::encode_utf8(v).len() <= crate::MAX_ID_SIZE
}

/// Persistent log storage
pub struct RaftLog {
    /// In-memory log entries (index -> entry)
    entries: HashMap<u64, LogEntry>,
    /// Persistent state
    persistent_state: PersistentState,
    /// Last log index
    last_index: u64,
    /// Writes that the disk has not received yet, oldest first
    pending: Vec<DiskWrite>,
}

impl RaftLog {
    /// The entries, by index.
    pub closed spec fn entry_map(&self) -> Map<u64, LogEntryView> {
        map_view(self.entries@)
    }

    /// The last log index.
    pub closed spec fn last(&self) -> u64 {
        self.last_index
    }

    /// The saved term and vote.
    pub closed spec fn state(&self) -> PersistentStateView {
        self.persistent_state@
    }

    /// The writes not yet handed out, oldest first.
    pub closed spec fn pending(&self) -> Seq<DiskWriteView> {
        writes_view(self.pending@)
    }

    #[verifier::type_invariant]
    closed spec fn inv(&self) -> bool {
        &&& forall|k: u64| #[trigger]
            self.entries@.contains_key(k) ==> k <= self.last_index && self.entries@[k].index == k
        &&& vote_fits(self.persistent_state@)
    }

    /// Every entry sits at its own index, and no index exceeds the last one.
    pub open spec fn well_placed(&self) -> bool {
        &&& forall|k: u64| #[trigger]
            self.entry_map().contains_key(k) ==> k <= self.last() && self.entry_map()[k].index == k
        &&& vote_fits(self.state())
    }

    /// Create an empty log with term 0 and no vote
    pub fn new() -> (r: Self)
        ensures
            r.well_placed(),
            r.entry_map() == Map::<u64, LogEntryView>::empty(),
            r.last() == 0,
            r.state().current_term == 0,
            r.state().voted_for is None,
            r.pending() == Seq::<DiskWriteView>::empty(),
            in_step(
                (DiskImage {
                    state: PersistentStateView { current_term: 0, voted_for: None },
                    lines: Seq::empty(),
                }),
                r,
            ),
    {
        let r = RaftLog {
            entries: HashMap::new(),
            persistent_state: PersistentState::default(),
            last_index: 0,
            pending: Vec::new(),
        };
        assert(r.entry_map() =~= Map::<u64, LogEntryView>::empty());
        assert(r.pending() =~= Seq::<DiskWriteView>::empty());
        r
    }

    /// The entry that disk record `disk` is read back as.
    pub fn disk_entry_to_log_entry(disk: &DiskLogEntry) -> (r: LogEntry)
        ensures
            r@ == entry_of(disk@),
    {
        let key = match &disk.key {
            Some(k) => k.clone(),
            None => String::new(),
        };
        let empty: Vec<u8> = Vec::new();
        let value = match &disk.value {
            Some(v) => v,
            None => &empty,
        };
        let put = "Put".to_owned();
        let delete = "Delete".to_owned();
        let command = if disk.command_type == put {
            Command::Put {
                key: fit_str(key.as_str(), crate::MAX_KEY_SIZE),
                value: fit_bytes(value.as_slice(), crate::MAX_VALUE_SIZE),
            }
        } else if disk.command_type == delete {
            Command::Delete { key: fit_str(key.as_str(), crate::MAX_KEY_SIZE) }
        } else {
            Command::Noop
        };
        LogEntry { index: disk.index, term: disk.term, command }
    }

    /// The disk record of `entry`.
    pub fn entry_to_disk(entry: &LogEntry) -> (r: DiskLogEntry)
        ensures
            r@ == disk_of(entry@),
    {
        let (command_type, key, value) = match &entry.command {
            Command::Put { key, value } => ("Put".to_owned(), Some(key.clone()), Some(value.clone())),
            Command::Delete { key } => ("Delete".to_owned(), Some(key.clone()), None),
            Command::Noop => ("Noop".to_owned(), None, None),
        };
        DiskLogEntry { index: entry.index, term: entry.term, command_type, key, value }
    }

    /// Rebuild a log from the saved state and the records of the log file,
    /// in file order; no write is pending afterwards.
    pub fn load(state: PersistentState, lines: &Vec<DiskLogEntry>) -> (r: Self)
        requires
            vote_fits(state@),
        ensures
            r.entry_map() == loaded_entries(lines_view(lines@)),
            r.last() == loaded_last(lines_view(lines@)),
            r.state() == state@,
            r.pending() == Seq::<DiskWriteView>::empty(),
            r.well_placed(),
            in_step((DiskImage { state: state@, lines: lines_view(lines@) }), r),
            (forall|i: int| 0 <= i < lines@.len() ==> (#[trigger] lines@[i]).index > 0) ==> sound_entries(
                r.entry_map(),
            ),
    {
        let mut entries: HashMap<u64, LogEntry> = HashMap::new();
        let mut last_index: u64 = 0;
        let mut i: usize = 0;
        while i < lines.len()
            invariant
                i <= lines@.len(),
                map_view(entries@) == loaded_entries(lines_view(lines@.take(i as int))),
                last_index == loaded_last(lines_view(lines@.take(i as int))),
                forall|k: u64| #[trigger]
                    entries@.contains_key(k) ==> k <= last_index && entries@[k].index == k,
            decreases lines@.len() - i,
        {
            let entry = Self::disk_entry_to_log_entry(&lines[i]);
            let ghost before = map_view(entries@);
            assert(lines_view(lines@.take(i as int + 1)).drop_last() =~= lines_view(lines@.take(i as int)));
            if entry.index > last_index {
                last_index = entry.index;
            }
            let ghost idx = entry.index;
            let ghost ev = entry@;
            entries.insert(entry.index, entry);
            assert(map_view(entries@) =~= before.insert(idx, ev));
            i = i + 1;
        }
        assert(lines@.take(i as int) =~= lines@);
        let r = RaftLog { entries, persistent_state: state, last_index, pending: Vec::new() };
        assert(r.pending() =~= Seq::<DiskWriteView>::empty());
        proof {
            if forall|i: int| 0 <= i < lines@.len() ==> (#[trigger] lines@[i]).index > 0 {
                assert forall|i: int| 0 <= i < lines_view(lines@).len() implies (#[trigger] lines_view(
                    lines@,
                )[i]).index > 0 by {
                    assert(lines_view(lines@)[i] == lines@[i]@);
                }
                lemma_loaded_sound(lines_view(lines@));
            }
        }
        r
    }

    /// Hand out the writes that the disk has not received yet, oldest first.
    pub fn take_pending_writes(&mut self) -> (r: Vec<DiskWrite>)
        ensures
            final(self).well_placed(),
            writes_view(r@) == old(self).pending(),
            final(self).pending() == Seq::<DiskWriteView>::empty(),
            final(self).entry_map() == old(self).entry_map(),
            final(self).last() == old(self).last(),
            final(self).state() == old(self).state(),
            forall|img: DiskImage| #[trigger] in_step(img, *old(self)) ==> in_step(
                apply_writes(img, writes_view(r@)),
                *final(self),
            ),
    {
        proof {
            use_type_invariant(&*self);
        }
        let mut out: Vec<DiskWrite> = Vec::new();
        std::mem::swap(&mut out, &mut self.pending);
        assert(self.pending() =~= Seq::<DiskWriteView>::empty());
        out
    }

    /// Record that the persistent state must be saved
    pub fn save_state(&mut self)
        ensures
            final(self).well_placed(),
            final(self).pending() == old(self).pending().push(DiskWriteView::SaveState(old(self).state())),
            final(self).entry_map() == old(self).entry_map(),
            final(self).last() == old(self).last(),
            final(self).state() == old(self).state(),
            forall|img: DiskImage| #[trigger] in_step(img, *old(self)) ==> in_step(img, *final(self)),
    {
        proof {
            use_type_invariant(&*self);
        }
        let ghost p0 = self.pending@;
        let w = DiskWrite::SaveState(self.persistent_state.clone());
        let mut pending = Vec::new();
        std::mem::swap(&mut pending, &mut self.pending);
        pending.push(w);
        self.pending = pending;
        assert(self.pending() =~= writes_view(p0).push(DiskWriteView::SaveState(self.state())));
        proof {
            assert forall|img: DiskImage| #[trigger] in_step(img, *old(self)) implies in_step(img, *self) by {
                lemma_apply_push(img, old(self).pending(), DiskWriteView::SaveState(old(self).state()));
            }
        }
    }

    /// Get current term
    pub fn current_term(&self) -> (r: u64)
        ensures
            r == self.state().current_term,
    {
        self.persistent_state.current_term
    }

    /// Set current term; the vote is cleared and the state saved
    pub fn set_current_term(&mut self, term: u64)
        ensures
            final(self).well_placed(),
            final(self).state() == (PersistentStateView { current_term: term, voted_for: None }),
            final(self).pending() == old(self).pending().push(DiskWriteView::SaveState(final(self).state())),
            final(self).entry_map() == old(self).entry_map(),
            final(self).last() == old(self).last(),
            forall|img: DiskImage| #[trigger] in_step(img, *old(self)) ==> in_step(img, *final(self)),
    {
        proof {
            use_type_invariant(&*self);
        }
        self.persistent_state.current_term = term;
        self.persistent_state.voted_for = None;
        self.save_state();
        proof {
            assert forall|img: DiskImage| #[trigger] in_step(img, *old(self)) implies in_step(img, *self) by {
                lemma_apply_push(img, old(self).pending(), DiskWriteView::SaveState(self.state()));
            }
        }
    }

    /// Get voted_for
    pub fn voted_for(&self) -> (r: Option<String>)
        ensures
            opt_text(r) == self.state().voted_for,
    {
        copy_opt_string(&self.persistent_state.voted_for)
    }

    /// Set voted_for; the state is saved
    pub fn set_voted_for(&mut self, candidate_id: Option<&str>)
        ensures
            final(self).well_placed(),
            final(self).state().current_term == old(self).state().current_term,
            final(self).state().voted_for == match candidate_id {
                Some(c) => Some(fit_text(c@, crate::MAX_ID_SIZE as nat)),
                None => None::<Seq<char>>,
            },
            final(self).pending() == old(self).pending().push(DiskWriteView::SaveState(final(self).state())),
            final(self).entry_map() == old(self).entry_map(),
            final(self).last() == old(self).last(),
            forall|img: DiskImage| #[trigger] in_step(img, *old(self)) ==> in_step(img, *final(self)),
    {
        proof {
            use_type_invariant(&*self);
        }
        self.persistent_state.voted_for = match candidate_id {
            Some(c) => Some(fit_str(c, crate::MAX_ID_SIZE)),
            None => None,
        };
        self.save_state();
        proof {
            assert forall|img: DiskImage| #[trigger] in_step(img, *old(self)) implies in_step(img, *self) by {
                lemma_apply_push(img, old(self).pending(), DiskWriteView::SaveState(self.state()));
            }
        }
    }

    /// Get last log index
    pub fn last_index(&self) -> (r: u64)
        ensures
            r == self.last(),
    {
        self.last_index
    }

    /// Get last log term: the term of the entry at the last index, or 0 when there is none
    pub fn last_term(&self) -> (r: u64)
        ensures
            r == (if self.entry_map().contains_key(self.last()) {
                self.entry_map()[self.last()].term
            } else {
                0
            }),
    {
        match self.entries.get(&self.last_index) {
            Some(e) => e.term,
            None => 0,
        }
    }

    /// Get entry at index
    pub fn get(&self, index: u64) -> (r: Option<&LogEntry>)
        ensures
            match r {
                Some(e) => self.entry_map().contains_key(index) && e@ == self.entry_map()[index],
                None => !self.entry_map().contains_key(index),
            },
    {
        self.entries.get(&index)
    }

    /// Get term of entry at index
    pub fn term_at(&self, index: u64) -> (r: Option<u64>)
        ensures
            match r {
                Some(t) => self.entry_map().contains_key(index) && t == self.entry_map()[index].term,
                None => !self.entry_map().contains_key(index),
            },
    {
        match self.entries.get(&index) {
            Some(e) => Some(e.term),
            None => None,
        }
    }

    /// Check if log contains entry at index with given term; index 0 matches
    /// any term when the log holds no entry there
    pub fn has_entry(&self, index: u64, term: u64) -> (r: bool)
        ensures
            r == (if self.entry_map().contains_key(index) {
                self.entry_map()[index].term == term
            } else {
                index == 0
            }),
    {
        match self.entries.get(&index) {
            Some(e) => e.term == term,
            None => index == 0,
        }
    }

    /// Append a new entry at the index after the last one
    pub fn append(&mut self, term: u64, command: Command) -> (r: u64)
        requires
            old(self).last() < u64::MAX,
        ensures
            final(self).well_placed(),
            r == old(self).last() + 1,
            final(self).entry_map() == old(self).entry_map().insert(
                r,
                LogEntryView { index: r, term, command: command@ },
            ),
            final(self).last() == r,
            final(self).state() == old(self).state(),
            final(self).pending() == old(self).pending().push(
                DiskWriteView::Append(seq![disk_of(LogEntryView { index: r, term, command: command@ })]),
            ),
            forall|img: DiskImage| #[trigger] in_step(img, *old(self)) && storable(
                LogEntryView { index: r, term, command: command@ },
            ) ==> in_step(img, *final(self)),
            sound_entries(old(self).entry_map()) && storable(LogEntryView { index: r, term, command: command@ })
                ==> sound_entries(final(self).entry_map()),
    {
        proof {
            use_type_invariant(&*self);
        }
        let index = self.last_index + 1;
        let entry = LogEntry { index, term, command };
        let disk_entry = Self::entry_to_disk(&entry);
        let ghost ev = entry@;
        let ghost m0 = self.entries@;
        let ghost p0 = self.pending@;
        let mut lines = Vec::new();
        lines.push(disk_entry);
        assert(lines_view(lines@) =~= seq![disk_of(ev)]);
        let mut pending = Vec::new();
        std::mem::swap(&mut pending, &mut self.pending);
        pending.push(DiskWrite::Append(lines));
        let mut entries = HashMap::new();
        std::mem::swap(&mut entries, &mut self.entries);
        entries.insert(index, entry);
        self.last_index = index;
        self.entries = entries;
        self.pending = pending;
        assert(self.entry_map() =~= map_view(m0).insert(index, ev));
        assert(self.pending() =~= writes_view(p0).push(DiskWriteView::Append(seq![disk_of(ev)])));
        proof {
            assert forall|img: DiskImage| #[trigger] in_step(img, *old(self)) && storable(ev) implies in_step(
                img,
                *self,
            ) by {
                let w = DiskWriteView::Append(seq![disk_of(ev)]);
                lemma_apply_push(img, old(self).pending(), w);
                let lines = apply_writes(img, old(self).pending()).lines;
                law_append_persists(lines, old(self).entry_map(), seq![ev]);
                assert(seq![ev].map_values(|e: LogEntryView| disk_of(e)) =~= seq![disk_of(ev)]);
                assert(seq![ev].drop_last() =~= Seq::<LogEntryView>::empty());
                assert(with_entries(old(self).entry_map(), Seq::<LogEntryView>::empty()) == old(self).entry_map());
                assert(with_entries(old(self).entry_map(), seq![ev]) == old(self).entry_map().insert(index, ev));
                assert(loaded_entries(lines + seq![disk_of(ev)]) == self.entry_map());
                assert(apply_writes(img, self.pending()).lines == lines + seq![disk_of(ev)]);
                assert(apply_writes(img, self.pending()).state == self.state());
            }
        }
        index
    }

    /// Append entries from leader, each at its own index
    pub fn append_entries(&mut self, entries: Vec<LogEntry>)
        ensures
            final(self).well_placed(),
            final(self).entry_map() == with_entries(old(self).entry_map(), entries_view(entries@)),
            final(self).last() == max_index(old(self).last(), entries_view(entries@)),
            final(self).state() == old(self).state(),
            final(self).pending() == old(self).pending().push(
                DiskWriteView::Append(entries_view(entries@).map_values(|e: LogEntryView| disk_of(e))),
            ),
            forall|img: DiskImage| #[trigger] in_step(img, *old(self)) && (forall|i: int|
                0 <= i < entries@.len() ==> storable(#[trigger] entries@[i]@)) ==> in_step(img, *final(self)),
            sound_entries(old(self).entry_map()) && (forall|i: int| 0 <= i < entries@.len() ==> (#[trigger] entries@[i]).index
                > 0 && storable(entries@[i]@)) ==> sound_entries(final(self).entry_map()),
    {
        proof {
            use_type_invariant(&*self);
        }
        let ghost es = entries_view(entries@);
        let ghost m0 = map_view(self.entries@);
        let ghost l0 = self.last_index;
        let ghost p0 = self.pending@;
        let mut map = HashMap::new();
        std::mem::swap(&mut map, &mut self.entries);
        let mut last_index = self.last_index;
        let mut lines: Vec<DiskLogEntry> = Vec::new();
        let n = entries.len();
        let mut i: usize = 0;
        while i < n
            invariant
                n == es.len(),
                es == entries_view(entries@),
                i <= n,
                map_view(map@) == with_entries(m0, es.take(i as int)),
                last_index == max_index(l0, es.take(i as int)),
                lines_view(lines@) == es.take(i as int).map_values(|e: LogEntryView| disk_of(e)),
                forall|k: u64| #[trigger] map@.contains_key(k) ==> k <= last_index && map@[k].index == k,
            decreases n - i,
        {
            let entry = entries[i].clone();
            assert(es.take(i as int + 1).drop_last() =~= es.take(i as int));
            assert(es.take(i as int + 1).last() == entry@);
            let disk_entry = Self::entry_to_disk(&entry);
            let ghost lv0 = lines_view(lines@);
            lines.push(disk_entry);
            assert(lines_view(lines@) =~= es.take(i as int + 1).map_values(|e: LogEntryView| disk_of(e)))
                by {
                assert(lines_view(lines@) =~= lv0.push(disk_of(entry@)));
            }
            if entry.index > last_index {
                last_index = entry.index;
            }
            let ghost before = map_view(map@);
            let ghost idx = entry.index;
            let ghost ev = entry@;
            map.insert(entry.index, entry);
            assert(map_view(map@) =~= before.insert(idx, ev));
            i = i + 1;
        }
        assert(es.take(n as int) =~= es);
        let mut pending = Vec::new();
        std::mem::swap(&mut pending, &mut self.pending);
        pending.push(DiskWrite::Append(lines));
        self.last_index = last_index;
        self.entries = map;
        self.pending = pending;
        assert(self.pending() =~= writes_view(p0).push(
            DiskWriteView::Append(es.map_values(|e: LogEntryView| disk_of(e))),
        ));
        proof {
            assert forall|img: DiskImage| #[trigger] in_step(img, *old(self)) && (forall|i: int|
                0 <= i < entries@.len() ==> storable(#[trigger] entries@[i]@)) implies in_step(img, *self) by {
                let w = DiskWriteView::Append(es.map_values(|e: LogEntryView| disk_of(e)));
                lemma_apply_push(img, old(self).pending(), w);
                let lines = apply_writes(img, old(self).pending()).lines;
                assert forall|i: int| 0 <= i < es.len() implies storable(#[trigger] es[i]) by {
                    assert(es[i] == entries@[i]@);
                }
                law_append_persists(lines, old(self).entry_map(), es);
            }
            if sound_entries(old(self).entry_map()) && (forall|i: int| 0 <= i < entries@.len() ==> (#[trigger] entries@[i]).index
                > 0 && storable(entries@[i]@)) {
                assert forall|i: int| 0 <= i < es.len() implies (#[trigger] es[i]).index > 0 && storable(es[i]) by {
                    assert(es[i] == entries@[i]@);
                }
                lemma_with_entries_sound(old(self).entry_map(), es);
            }
        }
    }

    /// Delete entries from index onwards (for conflict resolution); the log
    /// file is rewritten with the entries that remain below that index
    pub fn truncate_from(&mut self, from_index: u64)
        ensures
            final(self).well_placed(),
            final(self).entry_map() == entries_below(old(self).entry_map(), from_index),
            final(self).last() == (if from_index == 0 {
                0
            } else if from_index - 1 < old(self).last() {
                (from_index - 1) as u64
            } else {
                old(self).last()
            }),
            final(self).state() == old(self).state(),
            final(self).pending() == old(self).pending().push(
                DiskWriteView::Rewrite(lines_before(final(self).entry_map(), from_index as int)),
            ),
            forall|img: DiskImage| #[trigger] in_step(img, *old(self)) && sound_entries(old(self).entry_map())
                ==> in_step(img, *final(self)),
            sound_entries(old(self).entry_map()) ==> sound_entries(final(self).entry_map()),
    {
        proof {
            use_type_invariant(&*self);
        }
        let ghost m0 = map_view(self.entries@);
        let ghost p0 = self.pending@;
        let mut map = HashMap::new();
        std::mem::swap(&mut map, &mut self.entries);
        retain_below(&mut map, from_index);
        let ghost m1 = map_view(map@);
        assert(m1 =~= entries_below(m0, from_index));
        let below: u64 = if from_index == 0 { 0 } else { from_index - 1 };
        let last_index: u64 = if below < self.last_index { below } else { self.last_index };
        let mut lines: Vec<DiskLogEntry> = Vec::new();
        let mut idx: u64 = 1;
        while idx < from_index
            invariant
                1 <= idx,
                idx <= from_index || from_index == 0,
                from_index == 0 ==> idx == 1,
                m1 == map_view(map@),
                lines_view(lines@) == entries_between(m1, 1, idx - 1).map_values(
                    |e: LogEntryView| disk_of(e),
                ),
            decreases from_index - idx,
        {
            let ghost lv0 = lines_view(lines@);
            match map.get(&idx) {
                Some(entry) => {
                    let disk_entry = Self::entry_to_disk(entry);
                    lines.push(disk_entry);
                    assert(lines_view(lines@) =~= lv0.push(disk_of(m1[idx])));
                },
                None => {},
            }
            assert(entries_between(m1, 1, idx as int).map_values(|e: LogEntryView| disk_of(e))
                =~= lines_view(lines@));
            idx = idx + 1;
        }
        proof {
            let lb = entries_between(m1, 1, from_index - 1);
            if from_index > 0 {
                assert(idx == from_index);
                assert(lines_view(lines@) =~= lb.map_values(|e: LogEntryView| disk_of(e)));
            } else {
                assert(entries_between(m1, 1, -1) =~= Seq::<LogEntryView>::empty());
                assert(entries_between(m1, 1, 0) =~= Seq::<LogEntryView>::empty());
                assert(lines_view(lines@).len() == 0);
                assert(lines_view(lines@) =~= lb.map_values(|e: LogEntryView| disk_of(e)));
            }
            assert(lines_before(m1, from_index as int) == lb.map_values(|e: LogEntryView| disk_of(e)));
            assert(lines_view(lines@) =~= lines_before(m1, from_index as int));
        }
        let mut pending = Vec::new();
        std::mem::swap(&mut pending, &mut self.pending);
        pending.push(DiskWrite::Rewrite(lines));
        self.last_index = last_index;
        self.entries = map;
        self.pending = pending;
        assert(self.pending() =~= writes_view(p0).push(
            DiskWriteView::Rewrite(lines_before(m1, from_index as int)),
        ));
        proof {
            assert forall|img: DiskImage| #[trigger] in_step(img, *old(self)) && sound_entries(old(self).entry_map())
                implies in_step(img, *self) by {
                let w = DiskWriteView::Rewrite(lines_before(m1, from_index as int));
                lemma_apply_push(img, old(self).pending(), w);
                law_rewrite_persists(old(self).entry_map(), from_index);
            }
        }
    }

    /// Get entries from start_index to end_index (inclusive), in index order,
    /// skipping indices that hold no entry
    pub fn get_entries(&self, start_index: u64, end_index: u64) -> (r: Vec<LogEntry>)
        ensures
            entries_view(r@) == entries_between(self.entry_map(), start_index as int, end_index as int),
    {
        let ghost m = self.entry_map();
        let mut out: Vec<LogEntry> = Vec::new();
        if start_index > end_index {
            assert(entries_view(out@) =~= entries_between(m, start_index as int, end_index as int));
            return out;
        }
        let mut idx: u64 = start_index;
        loop
            invariant
                start_index <= idx <= end_index,
                m == self.entry_map(),
                entries_view(out@) == entries_between(m, start_index as int, idx - 1),
            decreases end_index - idx,
        {
            let ghost ov0 = entries_view(out@);
            match self.entries.get(&idx) {
                Some(entry) => {
                    out.push(entry.clone());
                    assert(entries_view(out@) =~= ov0.push(m[idx]));
                },
                None => {},
            }
            assert(entries_view(out@) =~= entries_between(m, start_index as int, idx as int));
            if idx == end_index {
                return out;
            }
            idx = idx + 1;
        }
    }
}

/// Whether entry `e` is written to disk and read back unchanged: its
/// command fits what a command holds.
pub open spec fn storable(e: LogEntryView) -> bool {
    match e.command {
        CommandView::Put { key, value } => vstd::utf8::encode_utf8(key).len() <= crate::MAX_KEY_SIZE
            && value.len() <= crate::MAX_VALUE_SIZE,
        CommandView::Delete { key } => vstd::utf8::encode_utf8(key).len() <= crate::MAX_KEY_SIZE,
        CommandView::Noop => true,
    }
}

/// Whether every entry of `m` sits at an index above 0 and fits what a command holds.
pub open spec fn sound_entries(m: Map<u64, LogEntryView>) -> bool {
    forall|k: u64| #[trigger] m.contains_key(k) ==> k > 0 && storable(m[k])
}

/// Storing sound entries in a map of sound entries leaves it sound.
pub proof fn lemma_with_entries_sound(m: Map<u64, LogEntryView>, es: Seq<LogEntryView>)
    requires
        sound_entries(m),
        forall|i: int| 0 <= i < es.len() ==> (#[trigger] es[i]).index > 0 && storable(es[i]),
    ensures
        sound_entries(with_entries(m, es)),
    decreases es.len(),
{
    if es.len() > 0 {
        let init = es.drop_last();
        assert forall|i: int| 0 <= i < init.len() implies (#[trigger] init[i]).index > 0 && storable(init[i]) by {
            assert(init[i] == es[i]);
        }
        lemma_with_entries_sound(m, init);
        assert(es[es.len() - 1] == es.last());
    }
}

/// Records at indices above 0 are read back as entries that are all sound.
proof fn lemma_loaded_sound(ls: Seq<DiskLogEntryView>)
    requires
        forall|i: int| 0 <= i < ls.len() ==> (#[trigger] ls[i]).index > 0,
    ensures
        sound_entries(loaded_entries(ls)),
    decreases ls.len(),
{
    if ls.len() > 0 {
        let init = ls.drop_last();
        assert forall|i: int| 0 <= i < init.len() implies (#[trigger] init[i]).index > 0 by {
            assert(init[i] == ls[i]);
        }
        lemma_loaded_sound(init);
        let d = ls.last();
        assert(ls[ls.len() - 1] == d);
        let e = entry_of(d);
        assert(storable(e)) by {
            reveal_strlit("Put");
            reveal_strlit("Delete");
            assert(vstd::utf8::encode_utf8(Seq::<char>::empty()).len() == 0);
        }
    }
}

/// An entry written to disk is read back as itself, when its command fits
/// what a command holds.
pub proof fn law_disk_roundtrip(e: LogEntryView)
    requires
        storable(e),
    ensures
        entry_of(disk_of(e)) == e,
{
    reveal_strlit("Put");
    reveal_strlit("Delete");
    reveal_strlit("Noop");
    assert("Delete"@.len() == 6);
    assert("Put"@.len() == 3);
    assert("Noop"@.len() == 4);
    match e.command {
        CommandView::Put { key, value } => {
            assert(value.take(value.len() as int) =~= value);
        },
        _ => {},
    }
}

/// What the disk holds: the saved state and the records of the log file.
pub struct DiskImage {
    pub state: PersistentStateView,
    pub lines: Seq<DiskLogEntryView>,
}

/// What the disk holds after write `w`.
pub open spec fn apply_write(img: DiskImage, w: DiskWriteView) -> DiskImage {
    match w {
        DiskWriteView::SaveState(s) => DiskImage { state: s, lines: img.lines },
        DiskWriteView::Append(ls) => DiskImage { state: img.state, lines: img.lines + ls },
        DiskWriteView::Rewrite(ls) => DiskImage { state: img.state, lines: ls },
    }
}

/// What the disk holds after the writes `ws`, in order.
pub open spec fn apply_writes(img: DiskImage, ws: Seq<DiskWriteView>) -> DiskImage
    decreases ws.len(),
{
    if ws.len() == 0 {
        img
    } else {
        apply_write(apply_writes(img, ws.drop_last()), ws.last())
    }
}

/// Whether a log read back from `img` holds the entries `m` and the state `st`.
pub open spec fn persists(img: DiskImage, m: Map<u64, LogEntryView>, st: PersistentStateView) -> bool {
    loaded_entries(img.lines) == m && img.state == st
}

/// Whether `log`, once the writes pending in it reach a disk that holds
/// `img`, is read back from that disk with its entries and its saved state.
pub open spec fn in_step(img: DiskImage, log: RaftLog) -> bool {
    persists(apply_writes(img, log.pending()), log.entry_map(), log.state())
}

/// One more write: the writes `ws` and then `w`.
pub proof fn lemma_apply_push(img: DiskImage, ws: Seq<DiskWriteView>, w: DiskWriteView)
    ensures
        apply_writes(img, ws.push(w)) == apply_write(apply_writes(img, ws), w),
{
    assert(ws.push(w).drop_last() =~= ws);
}

/// The writes `a` and then the writes `b`.
pub proof fn lemma_apply_concat(img: DiskImage, a: Seq<DiskWriteView>, b: Seq<DiskWriteView>)
    ensures
        apply_writes(img, a + b) == apply_writes(apply_writes(img, a), b),
    decreases b.len(),
{
    if b.len() == 0 {
        assert(a + b =~= a);
    } else {
        lemma_apply_concat(img, a, b.drop_last());
        assert((a + b).drop_last() =~= a + b.drop_last());
        assert((a + b).last() == b.last());
    }
}

/// A single write.
pub proof fn lemma_apply_one(img: DiskImage, w: DiskWriteView)
    ensures
        apply_writes(img, seq![w]) == apply_write(img, w),
{
    assert(seq![w].drop_last() =~= Seq::<DiskWriteView>::empty());
    assert(apply_writes(img, Seq::<DiskWriteView>::empty()) == img);
}

/// Appending entries: once their records are appended to the log file, the
/// file reads back as the log with the entries stored, when each of them
/// fits what a command holds.
pub proof fn law_append_persists(lines: Seq<DiskLogEntryView>, m: Map<u64, LogEntryView>, es: Seq<LogEntryView>)
    requires
        loaded_entries(lines) == m,
        forall|i: int| 0 <= i < es.len() ==> storable(#[trigger] es[i]),
    ensures
        loaded_entries(lines + es.map_values(|e: LogEntryView| disk_of(e))) == with_entries(m, es),
    decreases es.len(),
{
    if es.len() == 0 {
        assert(lines + es.map_values(|e: LogEntryView| disk_of(e)) =~= lines);
    } else {
        let init = es.drop_last();
        law_append_persists(lines, m, init);
        let all = lines + es.map_values(|e: LogEntryView| disk_of(e));
        assert(all.drop_last() =~= lines + init.map_values(|e: LogEntryView| disk_of(e)));
        assert(all.last() == disk_of(es.last()));
        law_disk_roundtrip(es.last());
    }
}

/// The records of the entries of `m` with index 1 to `n`, read back.
proof fn lemma_between_reads_back(m: Map<u64, LogEntryView>, n: int)
    requires
        n <= u64::MAX,
        forall|k: u64| #[trigger] m.contains_key(k) ==> m[k].index == k && storable(m[k]),
    ensures
        loaded_entries(entries_between(m, 1, n).map_values(|e: LogEntryView| disk_of(e))) == Map::new(
            |k: u64| m.contains_key(k) && 1 <= k <= n,
            |k: u64| m[k],
        ),
    decreases n,
{
    let target = Map::new(|k: u64| m.contains_key(k) && 1 <= k <= n, |k: u64| m[k]);
    if n < 1 {
        assert(entries_between(m, 1, n) =~= Seq::<LogEntryView>::empty());
        assert(entries_between(m, 1, n).map_values(|e: LogEntryView| disk_of(e)) =~= Seq::<DiskLogEntryView>::empty());
        assert(loaded_entries(Seq::<DiskLogEntryView>::empty()) =~= target);
    } else {
        lemma_between_reads_back(m, n - 1);
        let prev = Map::new(|k: u64| m.contains_key(k) && 1 <= k <= n - 1, |k: u64| m[k]);
        let ls = entries_between(m, 1, n).map_values(|e: LogEntryView| disk_of(e));
        let ps = entries_between(m, 1, n - 1).map_values(|e: LogEntryView| disk_of(e));
        if m.contains_key(n as u64) {
            let e = m[n as u64];
            assert(ls =~= ps.push(disk_of(e)));
            assert(ls.drop_last() =~= ps);
            law_disk_roundtrip(e);
            assert(loaded_entries(ls) =~= prev.insert(n as u64, e));
            assert(prev.insert(n as u64, e) =~= target);
        } else {
            assert(ls =~= ps);
            assert(prev =~= target);
        }
    }
}

/// Truncating: the rewritten log file reads back as the log without the
/// entries from `from` on, when every entry sits at its index, above 0, and
/// fits what a command holds.
pub proof fn law_rewrite_persists(m: Map<u64, LogEntryView>, from: u64)
    requires
        forall|k: u64| #[trigger] m.contains_key(k) ==> k > 0 && m[k].index == k && storable(m[k]),
    ensures
        loaded_entries(lines_before(entries_below(m, from), from as int)) == entries_below(m, from),
{
    let m1 = entries_below(m, from);
    lemma_between_reads_back(m1, from - 1);
    assert(Map::new(|k: u64| m1.contains_key(k) && 1 <= k <= from - 1, |k: u64| m1[k]) =~= m1);
}

} // verus!
