//! The replicated state machine: a key-value store that applies committed
//! log entries in index order.

use crate::protocol::{Command, CommandView, LogEntry, LogEntryView};
use crate::strmap::{has_key, keys_unique, pairs_map, StrMap};
use crate::text::{chars_of, parse_u128};
use vstd::prelude::*;
use crate::snapshot_format::{begins_with_pairs, bincode_pairs_encoding, lemma_encoding_unique};

verus! {

/// The key-value data as a mathematical map.
pub open spec fn data_view(m: Map<Seq<char>, Vec<u8>>) -> Map<Seq<char>, Seq<u8>> {
    m.map_values(|v: Vec<u8>| v@)
}

/// What applying command `c` does to the data `d`.
pub open spec fn apply_command(d: Map<Seq<char>, Seq<u8>>, c: CommandView) -> Map<Seq<char>, Seq<u8>> {
    match c {
        CommandView::Put { key, value } => d.insert(key, value),
        CommandView::Delete { key } => d.remove(key),
        CommandView::Noop => d,
    }
}

/// The data and last applied index after entry `e` is applied to data `d`
/// whose last applied index is `a`: an entry at or below `a` changes nothing.
pub open spec fn apply_entry(d: Map<Seq<char>, Seq<u8>>, a: u64, e: LogEntryView) -> (Map<Seq<char>, Seq<u8>>, u64) {
    if e.index <= a {
        (d, a)
    } else {
        (apply_command(d, e.command), e.index)
    }
}

/// The data and last applied index after the entries of `m` with index
/// `from` to `to` (both included) are applied in index order, skipping
/// indices that hold no entry.
pub open spec fn apply_range(
    d: Map<Seq<char>, Seq<u8>>,
    a: u64,
    m: Map<u64, LogEntryView>,
    from: int,
    to: int,
) -> (Map<Seq<char>, Seq<u8>>, u64)
    decreases to - from + 1,
{
    if to < from {
        (d, a)
    } else {
        let (d1, a1) = apply_range(d, a, m, from, to - 1);
        if m.contains_key(to as u64) {
            apply_entry(d1, a1, m[to as u64])
        } else {
            (d1, a1)
        }
    }
}

/// Whether `bytes` hold one JSON value, as `serde_json` reads it.
pub uninterp spec fn json_value_parses(bytes: Seq<u8>) -> bool;

/// `serde_json::from_slice::<serde_json::Value>`: whether `bytes` parse as
/// one JSON value.  What the parsed value holds is not stated.
#[verifier::external_body]
fn parses_as_json(bytes: &[u8]) -> (r: bool)
    ensures
        r == json_value_parses(bytes@),
{
    serde_json::from_slice::<serde_json::Value>(bytes).is_ok()
}


/// The views of text-to-bytes pairs.
pub open spec fn pairs_view(s: Seq<(String, Vec<u8>)>) -> Seq<(Seq<char>, Seq<u8>)> {
    s.map_values(|p: (String, Vec<u8>)| (p.0@, p.1@))
}

/// `bincode::serialize` of the pairs. With bincode's default options
/// (lengths as eight little-endian bytes, no size limit) it writes the
/// number of pairs, then each text's UTF-8 bytes and each value's bytes,
/// each after its length, as for a map with these entries in this order.
/// It does not fail here: every sequence has a known length, the limit is
/// infinite and writing into a `Vec` cannot fail.
#[verifier::external_body]
fn bincode_serialize_pairs(pairs: &Vec<(String, Vec<u8>)>) -> (r: Vec<u8>)
    ensures
        r@ == bincode_pairs_encoding(pairs_view(pairs@)),
{
    match bincode::serialize(pairs) {
        Ok(b) => b,
        Err(_) => Vec::new(),
    }
}

/// `bincode::deserialize` of a map of text to bytes, with its entries in
/// encoded order, with bincode's default options (lengths as eight
/// little-endian bytes, no size limit, trailing bytes allowed): it reads
/// pairs exactly when the bytes begin with their encoding, and fails when
/// they begin with the encoding of no pairs (a length runs past the end, or
/// a text is not UTF-8).
#[verifier::external_body]
fn bincode_deserialize_pairs(bytes: &[u8]) -> (r: Option<Vec<(String, Vec<u8>)>>)
    ensures
        match r {
            Some(v) => begins_with_pairs(bytes@, pairs_view(v@)),
            None => forall|s: Seq<(Seq<char>, Seq<u8>)>| !#[trigger] begins_with_pairs(bytes@, s),
        },
{
    bincode::deserialize::<Vec<(String, Vec<u8>)>>(bytes).ok()
}

/// The map that the pairs `s` give when they are stored in order, a later
/// pair replacing an earlier one with the same key.
pub open spec fn stored_pairs(s: Seq<(Seq<char>, Seq<u8>)>) -> Map<Seq<char>, Seq<u8>>
    decreases s.len(),
{
    if s.len() == 0 {
        Map::empty()
    } else {
        stored_pairs(s.drop_last()).insert(s.last().0, s.last().1)
    }
}

/// Whether the pairs `s` list the data `d`: no key twice, and storing them
/// in order gives `d`.
pub open spec fn lists_data(s: Seq<(Seq<char>, Seq<u8>)>, d: Map<Seq<char>, Seq<u8>>) -> bool {
    &&& forall|i: int, j: int| 0 <= i < j < s.len() ==> (#[trigger] s[i]).0 != (#[trigger] s[j]).0
    &&& stored_pairs(s) == d
}

/// What `restore` did: from `old` to `new` with `snapshot` and `last_index`,
/// succeeding when `ok`.
pub open spec fn restore_done(old: StateMachine, new: StateMachine, snapshot: Seq<u8>, last_index: u64, ok: bool) -> bool {
    if exists|s: Seq<(Seq<char>, Seq<u8>)>| #[trigger] begins_with_pairs(snapshot, s) {
        &&& ok
        &&& forall|s: Seq<(Seq<char>, Seq<u8>)>| #[trigger] begins_with_pairs(snapshot, s) ==> new.data()
            == stored_pairs(s)
        &&& new.applied() == last_index
    } else {
        &&& !ok
        &&& new.data() == old.data()
        &&& new.applied() == old.applied()
    }
}

/// The characters that open the key of a message.
pub open spec fn message_prefix() -> Seq<char> {
    seq!['_', 'm', 's', 'g', ':']
}

/// The timestamp of a message key: the key is the message prefix followed
/// by a number.
pub open spec fn message_timestamp(k: Seq<char>) -> Option<u128> {
    if k.len() >= 5 && k.take(5) == message_prefix() {
        parse_u128(k.skip(5))
    } else {
        None
    }
}

/// The messages among the pairs `s`, in their order: a pair whose key is a
/// message key and whose value is one JSON value, with its timestamp.
pub open spec fn messages_of(s: Seq<(Seq<char>, Seq<u8>)>) -> Seq<(u128, Seq<u8>)>
    decreases s.len(),
{
    if s.len() == 0 {
        Seq::empty()
    } else {
        let p = messages_of(s.drop_last());
        match message_timestamp(s.last().0) {
            Some(t) => if json_value_parses(s.last().1) {
                p.push((t, s.last().1))
            } else {
                p
            },
            None => p,
        }
    }
}

/// The messages among the pairs `s`, in their order, where `parsed[i]`
/// tells whether the value of pair `i` holds one JSON value.
pub open spec fn messages_given(s: Seq<(Seq<char>, Seq<u8>)>, parsed: Seq<bool>) -> Seq<(u128, Seq<u8>)>
    decreases s.len(),
{
    if s.len() == 0 {
        Seq::empty()
    } else {
        let p = messages_given(s.drop_last(), parsed.take(s.len() - 1));
        match message_timestamp(s.last().0) {
            Some(t) => if parsed[s.len() - 1] {
                p.push((t, s.last().1))
            } else {
                p
            },
            None => p,
        }
    }
}

/// Whether each value of the pairs `s` holds one JSON value.
pub open spec fn json_flags(s: Seq<(Seq<char>, Seq<u8>)>) -> Seq<bool> {
    s.map_values(|p: (Seq<char>, Seq<u8>)| json_value_parses(p.1))
}

/// The messages given the JSON flags of the pairs are their messages.
proof fn lemma_messages_given_json(s: Seq<(Seq<char>, Seq<u8>)>)
    ensures
        messages_given(s, json_flags(s)) == messages_of(s),
    decreases s.len(),
{
    if s.len() > 0 {
        assert(json_flags(s).take(s.len() - 1) =~= json_flags(s.drop_last()));
        lemma_messages_given_json(s.drop_last());
    }
}

/// Whether the messages `s` go from the newest to the oldest.
pub open spec fn newest_first(s: Seq<(u128, Seq<u8>)>) -> bool {
    forall|i: int, j: int| 0 <= i < j < s.len() ==> (#[trigger] s[i]).0 >= (#[trigger] s[j]).0
}

/// The views of timestamped messages.
pub open spec fn timed_view(s: Seq<(u128, Vec<u8>)>) -> Seq<(u128, Seq<u8>)> {
    s.map_values(|p: (u128, Vec<u8>)| (p.0, p.1@))
}

/// An error of the state machine.
#[derive(Debug)]
pub enum StateMachineError {
    /// The snapshot does not decode
    InvalidSnapshot,
}

/// The replicated state machine
///
/// This is a simple key-value store that applies committed log entries.
pub struct StateMachine {
    /// The actual key-value data
    data: StrMap<Vec<u8>>,
    /// Index of the last applied entry
    last_applied: u64,
}

/// Result of applying a command
#[derive(Debug)]
pub enum ApplyResult {
    /// Successfully stored/deleted
    Applied,
    /// Value retrieved for a key
    Value(Option<Vec<u8>>),
    /// No-op applied
    Noop,
}

impl StateMachine {
    /// The stored data.
    pub closed spec fn data(&self) -> Map<Seq<char>, Seq<u8>> {
        data_view(self.data.map())
    }

    /// The index of the last applied entry.
    pub closed spec fn applied(&self) -> u64 {
        self.last_applied
    }

    #[verifier::type_invariant]
    closed spec fn inv(&self) -> bool {
        self.data.wf()
    }

    /// No key is stored twice.
    pub closed spec fn valid(&self) -> bool {
        self.data.wf()
    }

    /// Create a new empty state machine
    pub fn new() -> (r: Self)
        ensures
            r.valid(),
            r.data() == Map::<Seq<char>, Seq<u8>>::empty(),
            r.applied() == 0,
    {
        let r = StateMachine { data: StrMap::new(), last_applied: 0 };
        assert(r.data() =~= Map::<Seq<char>, Seq<u8>>::empty());
        r
    }

    /// Get the last applied index
    pub fn last_applied(&self) -> (r: u64)
        ensures
            r == self.applied(),
    {
        self.last_applied
    }

    /// Apply a log entry to the state machine; an entry at or below the
    /// last applied index changes nothing.
    pub fn apply(&mut self, entry: &LogEntry) -> (r: ApplyResult)
        ensures
            final(self).valid(),
            entry.index <= old(self).applied() ==> {
                &&& final(self).data() == old(self).data()
                &&& final(self).applied() == old(self).applied()
                &&& r is Applied
            },
            entry.index > old(self).applied() ==> {
                &&& final(self).data() == apply_command(old(self).data(), entry.command@)
                &&& final(self).applied() == entry.index
                &&& (if entry.command is Noop {
                    r is Noop
                } else {
                    r is Applied
                })
            },
    {
        proof {
            use_type_invariant(&*self);
        }
        if entry.index <= self.last_applied {
            return ApplyResult::Applied;
        }
        let ghost d0 = self.data.map();
        let mut data = StrMap::new();
        std::mem::swap(&mut data, &mut self.data);
        let result = match &entry.command {
            Command::Put { key, value } => {
                data.insert(key.clone(), value.clone());
                assert(data_view(data.map()) =~= data_view(d0).insert(key@, value@));
                ApplyResult::Applied
            },
            Command::Delete { key } => {
                data.remove(key.as_str());
                assert(data_view(data.map()) =~= data_view(d0).remove(key@));
                ApplyResult::Applied
            },
            Command::Noop => ApplyResult::Noop,
        };
        self.data = data;
        self.last_applied = entry.index;
        result
    }

    /// Get a value from the state machine
    pub fn get(&self, key: &str) -> (r: Option<Vec<u8>>)
        ensures
            match r {
                Some(v) => self.data().contains_key(key@) && self.data()[key@] == v@,
                None => !self.data().contains_key(key@),
            },
    {
        proof {
            use_type_invariant(self);
        }
        match self.data.get(key) {
            Some(v) => Some(v.clone()),
            None => None,
        }
    }

    /// Get all keys in the state machine, each once.
    pub fn keys(&self) -> (r: Vec<String>)
        ensures
            forall|k: Seq<char>|
                self.data().contains_key(k) <==> exists|i: int| 0 <= i < r@.len() && (#[trigger] r@[i])@ == k,
            forall|i: int, j: int| 0 <= i < j < r@.len() ==> (#[trigger] r@[i])@ != (#[trigger] r@[j])@,
    {
        proof {
            use_type_invariant(self);
        }
        let mut out: Vec<String> = Vec::new();
        let n = self.data.len();
        let mut i: usize = 0;
        while i < n
            invariant
                n == self.data.entries().len(),
                i <= n,
                out@.len() == i,
                forall|j: int| 0 <= j < i ==> (#[trigger] out@[j])@ == self.data.entries()[j].0@,
            decreases n - i,
        {
            let (k, _) = self.data.entry_at(i);
            out.push(k.clone());
            i = i + 1;
        }
        proof {
            let s = self.data.entries();
            assert forall|k: Seq<char>| self.data().contains_key(k) implies exists|i: int|
                0 <= i < out@.len() && (#[trigger] out@[i])@ == k by {
                assert(has_key(s, k));
                let j = choose|j: int| 0 <= j < s.len() && (#[trigger] s[j]).0@ == k;
                assert(out@[j]@ == k);
            }
            assert forall|k: Seq<char>| (exists|i: int| 0 <= i < out@.len() && (#[trigger] out@[i])@ == k) implies self.data().contains_key(k) by {
                let j = choose|j: int| 0 <= j < out@.len() && (#[trigger] out@[j])@ == k;
                assert(s[j].0@ == k);
            }
            assert forall|a: int, b: int| 0 <= a < b < out@.len() implies (#[trigger] out@[a])@ != (#[trigger] out@[b])@ by {
                assert(s[a].0@ != s[b].0@);
            }
        }
        out
    }

    /// The stored pairs, in the order they are kept.
    pub closed spec fn stored(&self) -> Seq<(Seq<char>, Seq<u8>)> {
        pairs_view(self.data.entries())
    }

    /// Whether `key` is a message key, and its timestamp.
    fn key_timestamp(key: &String) -> (r: Option<u128>)
        ensures
            r == message_timestamp(key@),
    {
        let chars = chars_of(key.as_str());
        if chars.len() < 5 {
            return None;
        }
        if !(chars[0] == '_' && chars[1] == 'm' && chars[2] == 's' && chars[3] == 'g' && chars[4] == ':') {
            assert(key@.take(5) != message_prefix()) by {
                if key@.take(5) == message_prefix() {
                    assert(key@.take(5)[0] == '_');
                    assert(key@.take(5)[1] == 'm');
                    assert(key@.take(5)[2] == 's');
                    assert(key@.take(5)[3] == 'g');
                    assert(key@.take(5)[4] == ':');
                }
            }
            return None;
        }
        assert(key@.take(5) =~= message_prefix());
        let mut rest: Vec<char> = Vec::new();
        let mut i: usize = 5;
        while i < chars.len()
            invariant
                5 <= i <= chars@.len(),
                chars@ == key@,
                rest@ == key@.subrange(5, i as int),
            decreases chars@.len() - i,
        {
            rest.push(chars[i]);
            i = i + 1;
            assert(rest@ =~= key@.subrange(5, i as int));
        }
        assert(rest@ =~= key@.skip(5));
        crate::text::parse_u128_text(rest.as_slice())
    }

    /// Get recent messages, newest first: the values stored under a message
    /// key (`_msg:` and a number, the message's timestamp) that hold one JSON
    /// value, at most `limit` of them.
    pub fn get_messages(&self, limit: u64) -> (r: Vec<Vec<u8>>)
        ensures
            exists|sorted: Seq<(u128, Seq<u8>)>| #![trigger newest_first(sorted)] {
                let all = messages_of(self.stored());
                let n = if all.len() < limit { all.len() } else { limit as nat };
                &&& sorted.to_multiset() == all.to_multiset()
                &&& newest_first(sorted)
                &&& r@.map_values(|v: Vec<u8>| v@) == sorted.take(n as int).map_values(|p: (u128, Seq<u8>)| p.1)
            },
            lists_data(self.stored(), self.data()),
    {
        proof {
            use_type_invariant(self);
            self.lemma_lists_data();
        }
        let ghost st = self.stored();
        let pairs = self.data.pairs();
        let mut parsed: Vec<bool> = Vec::new();
        let mut i: usize = 0;
        while i < pairs.len()
            invariant
                i <= pairs@.len(),
                st == pairs_view(pairs@),
                parsed@ == json_flags(st.take(i as int)),
            decreases pairs@.len() - i,
        {
            let ok = parses_as_json(pairs[i].1.as_slice());
            parsed.push(ok);
            assert(st.take(i + 1).drop_last() =~= st.take(i as int));
            assert(parsed@ =~= json_flags(st.take(i + 1)));
            i = i + 1;
        }
        assert(st.take(i as int) =~= st);
        proof {
            lemma_messages_given_json(st);
        }
        Self::select_messages(pairs, &parsed, limit)
    }

    /// The messages among the pairs `pairs`, newest first, at most `limit`
    /// of them, where `parsed` tells, pair by pair, whether the value holds
    /// one JSON value: a message is a pair under a message key whose value
    /// holds one.
    pub fn select_messages(pairs: &Vec<(String, Vec<u8>)>, parsed: &Vec<bool>, limit: u64) -> (r: Vec<Vec<u8>>)
        requires
            parsed@.len() == pairs@.len(),
        ensures
            exists|sorted: Seq<(u128, Seq<u8>)>| #![trigger newest_first(sorted)] {
                let all = messages_given(pairs_view(pairs@), parsed@);
                let n = if all.len() < limit { all.len() } else { limit as nat };
                &&& sorted.to_multiset() == all.to_multiset()
                &&& newest_first(sorted)
                &&& r@.map_values(|v: Vec<u8>| v@) == sorted.take(n as int).map_values(|p: (u128, Seq<u8>)| p.1)
            },
    {
        broadcast use vstd::seq_lib::to_multiset_build, vstd::seq_lib::to_multiset_insert;
        let ghost st = pairs_view(pairs@);
        let ghost fl = parsed@;
        let mut sorted: Vec<(u128, Vec<u8>)> = Vec::new();
        let mut i: usize = 0;
        assert(st.take(0) =~= Seq::<(Seq<char>, Seq<u8>)>::empty());
        assert(timed_view(sorted@) =~= Seq::<(u128, Seq<u8>)>::empty());
        while i < pairs.len()
            invariant
                i <= pairs@.len(),
                st == pairs_view(pairs@),
                newest_first(timed_view(sorted@)),
                fl == parsed@,
                fl.len() == st.len(),
                timed_view(sorted@).to_multiset() == messages_given(st.take(i as int), fl.take(i as int)).to_multiset(),
            decreases pairs@.len() - i,
        {
            let (k, v) = &pairs[i];
            let ghost prev = messages_given(st.take(i as int), fl.take(i as int));
            assert(fl.take(i + 1).drop_last() =~= fl.take(i as int));
            assert(st.take(i + 1).drop_last() =~= st.take(i as int));
            assert(st.take(i + 1).last() == (k@, v@));
            let ghost ms0 = timed_view(sorted@).to_multiset();
            match Self::key_timestamp(k) {
                Some(t) => {
                    if parsed[i] {
                        let ghost before = timed_view(sorted@);
                        let mut p: usize = 0;
                        while p < sorted.len() && sorted[p].0 >= t
                            invariant
                                p <= sorted@.len(),
                                before == timed_view(sorted@),
                                forall|j: int| 0 <= j < p ==> (#[trigger] sorted@[j]).0 >= t,
                            decreases sorted@.len() - p,
                        {
                            p = p + 1;
                        }
                        sorted.insert(p, (t, v.clone()));
                        assert(timed_view(sorted@) =~= before.insert(p as int, (t, v@)));
                        assert(messages_given(st.take(i + 1), fl.take(i + 1)) == prev.push((t, v@)));
                        proof {
                            vstd::seq_lib::to_multiset_insert(before, p as int, (t, v@));
                            vstd::seq_lib::to_multiset_build(prev, (t, v@));
                        }
                        assert(newest_first(timed_view(sorted@))) by {
                            let s2 = timed_view(sorted@);
                            assert forall|a: int, b: int| 0 <= a < b < s2.len() implies (#[trigger] s2[a]).0 >= (#[trigger] s2[b]).0 by {
                                if a < p && b == p {
                                    assert(s2[a] == before[a]);
                                } else if a == p && b > p {
                                    assert(s2[b] == before[b - 1]);
                                    if p < before.len() {
                                        assert(!(before[p as int].0 >= t));
                                        assert(before[p as int].0 >= before[b - 1].0);
                                    }
                                } else if a < p && b > p {
                                    assert(s2[a] == before[a]);
                                    assert(s2[b] == before[b - 1]);
                                } else if b < p {
                                    assert(s2[a] == before[a]);
                                    assert(s2[b] == before[b]);
                                } else {
                                    assert(s2[a] == before[a - 1]);
                                    assert(s2[b] == before[b - 1]);
                                }
                            }
                        }
                    } else {
                        assert(messages_given(st.take(i + 1), fl.take(i + 1)) == prev);
                    }
                },
                None => {
                    assert(messages_given(st.take(i + 1), fl.take(i + 1)) == prev);
                },
            }
            i = i + 1;
        }
        assert(st.take(i as int) =~= st);
        assert(fl.take(i as int) =~= fl);
        let mut out: Vec<Vec<u8>> = Vec::new();
        let mut j: usize = 0;
        while j < sorted.len() && (j as u64) < limit
            invariant
                j <= sorted@.len(),
                j <= limit,
                out@.map_values(|v: Vec<u8>| v@) == timed_view(sorted@).take(j as int).map_values(|p: (u128, Seq<u8>)| p.1),
            decreases sorted@.len() - j,
        {
            let ghost before = out@.map_values(|v: Vec<u8>| v@);
            out.push(sorted[j].1.clone());
            assert(out@.map_values(|v: Vec<u8>| v@) =~= before.push(sorted@[j as int].1@));
            assert(timed_view(sorted@).take(j + 1).map_values(|p: (u128, Seq<u8>)| p.1) =~= timed_view(sorted@).take(j as int).map_values(|p: (u128, Seq<u8>)| p.1).push(sorted@[j as int].1@));
            j = j + 1;
            assert(out@.map_values(|v: Vec<u8>| v@) =~= timed_view(sorted@).take(j as int).map_values(|p: (u128, Seq<u8>)| p.1));
        }
        proof {
            let all = messages_given(st, fl);
            let srt = timed_view(sorted@);
            assert(srt.len() == all.len()) by {
                vstd::seq_lib::to_multiset_len(srt);
                vstd::seq_lib::to_multiset_len(all);
            }
            assert(newest_first(srt));
        }
        out
    }

    /// Create a snapshot of the state machine: the key-value data, encoded
    /// by bincode
    pub fn snapshot(&self) -> (r: Vec<u8>)
        ensures
            r@ == bincode_pairs_encoding(self.stored()),
            lists_data(self.stored(), self.data()),
    {
        proof {
            use_type_invariant(self);
            self.lemma_lists_data();
        }
        bincode_serialize_pairs(self.data.pairs())
    }

    /// Restore from a snapshot: the data is what the snapshot encodes and
    /// the last applied index is `last_index`; a snapshot that does not
    /// decode changes nothing.
    pub fn restore(&mut self, snapshot: &[u8], last_index: u64) -> (r: Result<(), StateMachineError>)
        ensures
            final(self).valid(),
            restore_done(*old(self), *final(self), snapshot@, last_index, r is Ok),
    {
        proof {
            use_type_invariant(&*self);
        }
        match bincode_deserialize_pairs(snapshot) {
            Some(pairs) => {
                let ghost pv = pairs_view(pairs@);
                let mut data: StrMap<Vec<u8>> = StrMap::new();
                let mut i: usize = 0;
                while i < pairs.len()
                    invariant
                        i <= pairs@.len(),
                        pv == pairs_view(pairs@),
                        data.wf(),
                        data_view(data.map()) == stored_pairs(pv.take(i as int)),
                    decreases pairs@.len() - i,
                {
                    let (k, v) = &pairs[i];
                    let ghost before = data.map();
                    data.insert(k.clone(), v.clone());
                    assert(pv.take(i + 1).drop_last() =~= pv.take(i as int));
                    assert(data_view(data.map()) =~= data_view(before).insert(k@, v@));
                    i = i + 1;
                }
                assert(pv.take(i as int) =~= pv);
                self.data = data;
                self.last_applied = last_index;
                proof {
                    assert forall|s: Seq<(Seq<char>, Seq<u8>)>| #[trigger] begins_with_pairs(snapshot@, s) implies s
                        == pv by {
                        assert(snapshot@.len() == snapshot.len());
                        lemma_encoding_unique(snapshot@, s, pv);
                    }
                }
                Ok(())
            },
            None => Err(StateMachineError::InvalidSnapshot),
        }
    }
}

impl Default for StateMachine {
    fn default() -> (r: Self)
        ensures
            r.valid(),
            r.data() == Map::<Seq<char>, Seq<u8>>::empty(),
            r.applied() == 0,
    {
        Self::new()
    }
}

/// A value written under a key is what a read of that key gives, and no
/// other key changes.
pub proof fn law_read_your_write(d: Map<Seq<char>, Seq<u8>>, key: Seq<char>, value: Seq<u8>, other: Seq<char>)
    ensures
        apply_command(d, CommandView::Put { key, value }).contains_key(key),
        apply_command(d, CommandView::Put { key, value })[key] == value,
        other != key ==> apply_command(d, CommandView::Put { key, value }).contains_key(other) == d.contains_key(other),
        other != key && d.contains_key(other) ==> apply_command(d, CommandView::Put { key, value })[other] == d[other],
{
}

/// A deleted key reads as absent, and no other key changes.
pub proof fn law_delete_removes(d: Map<Seq<char>, Seq<u8>>, key: Seq<char>, other: Seq<char>)
    ensures
        !apply_command(d, CommandView::Delete { key }).contains_key(key),
        other != key ==> apply_command(d, CommandView::Delete { key }).contains_key(other) == d.contains_key(other),
        other != key && d.contains_key(other) ==> apply_command(d, CommandView::Delete { key })[other] == d[other],
{
}

/// Applying an entry twice is applying it once: once applied, an entry is
/// at or below the last applied index, and applying it again changes nothing.
pub proof fn law_apply_idempotent(d: Map<Seq<char>, Seq<u8>>, a: u64, e: LogEntryView)
    ensures
        ({
            let (d1, a1) = apply_entry(d, a, e);
            apply_entry(d1, a1, e) == (d1, a1)
        }),
{
}

/// Pairs stored in order with no key twice give the map they stand for.
pub proof fn lemma_stored_pairs_map(s: Seq<(String, Vec<u8>)>)
    requires
        keys_unique(s),
    ensures
        stored_pairs(pairs_view(s)) == data_view(pairs_map(s)),
    decreases s.len(),
{
    if s.len() > 0 {
        let init = s.drop_last();
        assert forall|i: int, j: int| 0 <= i < j < init.len() implies (#[trigger] init[i]).0@ != (#[trigger] init[j]).0@ by {
            assert(init[i] == s[i] && init[j] == s[j]);
        }
        lemma_stored_pairs_map(init);
        assert(pairs_view(s).drop_last() =~= pairs_view(init));
        crate::strmap::lemma_pairs_map_all(s);
        crate::strmap::lemma_pairs_map_all(init);
        let last = s.last();
        let a = stored_pairs(pairs_view(s));
        let b = data_view(pairs_map(s));
        assert forall|k: Seq<char>| #[trigger] a.contains_key(k) <==> b.contains_key(k) by {
            if has_key(init, k) {
                let j = choose|j: int| 0 <= j < init.len() && (#[trigger] init[j]).0@ == k;
                assert(s[j].0@ == k);
            }
            if has_key(s, k) && k != last.0@ {
                let j = choose|j: int| 0 <= j < s.len() && (#[trigger] s[j]).0@ == k;
                assert(j < s.len() - 1);
                assert(init[j].0@ == k);
            }
            if k == last.0@ {
                assert(s[s.len() - 1].0@ == k);
            }
        }
        assert forall|k: Seq<char>| #[trigger] a.contains_key(k) implies a[k] == b[k] by {
            if k == last.0@ {
                assert(s[s.len() - 1].0@ == k);
            } else {
                let j = choose|j: int| 0 <= j < s.len() && (#[trigger] s[j]).0@ == k;
                assert(j < s.len() - 1);
                assert(init[j] == s[j]);
            }
        }
        assert(a =~= b);
    } else {
        assert(stored_pairs(pairs_view(s)) =~= data_view(pairs_map(s)));
    }
}

impl StateMachine {
    /// A valid state machine's stored pairs list its data.
    proof fn lemma_lists_data(&self)
        requires
            self.valid(),
        ensures
            lists_data(self.stored(), self.data()),
    {
        lemma_stored_pairs_map(self.data.entries());
        let s = self.stored();
        assert forall|i: int, j: int| 0 <= i < j < s.len() implies (#[trigger] s[i]).0 != (#[trigger] s[j]).0 by {
            assert(s[i].0 == self.data.entries()[i].0@);
            assert(s[j].0 == self.data.entries()[j].0@);
        }
    }
}

/// Restoring from a snapshot gives back the data it was taken of: when
/// `snapshot` of `sm` gave `bytes`, and `restore` of `bytes` with
/// `last_index` took `before` to `after`, the restore succeeded, `after`
/// holds the data of `sm`, and its last applied index is `last_index`.
pub proof fn law_snapshot_restores(
    sm: StateMachine,
    bytes: Seq<u8>,
    before: StateMachine,
    after: StateMachine,
    last_index: u64,
    ok: bool,
)
    requires
        bytes == bincode_pairs_encoding(sm.stored()),
        lists_data(sm.stored(), sm.data()),
        restore_done(before, after, bytes, last_index, ok),
    ensures
        ok,
        after.data() == sm.data(),
        after.applied() == last_index,
{
    assert(bytes.take(bytes.len() as int) =~= bytes);
    assert(begins_with_pairs(bytes, sm.stored()));
}

} // verus!
