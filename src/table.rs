//! The primary-key index of a table and the table buffer that keeps it in
//! step with the table's log.
use vstd::prelude::*;

use crate::expression::column_position;
use crate::storage::{calculate_new_offset, frame_offset, lemma_log_push, log_bytes, StorageError};
use crate::types::{pk_index, ColumnValue, TableDefinition, Tuple, Value};

verus! {

/// The offsets that a list of index entries records, the later of two equal
/// keys winning.
pub open spec fn entries_map(entries: Seq<(ColumnValue, u64)>) -> Map<Value, nat>
    decreases entries.len(),
{
    if entries.len() == 0 {
        Map::empty()
    } else {
        entries_map(entries.drop_last()).insert(entries.last().0@, entries.last().1 as nat)
    }
}

/// No two entries have equal keys.
pub open spec fn keys_distinct(entries: Seq<(ColumnValue, u64)>) -> bool {
    forall|i: int, j: int|
        0 <= i < entries.len() && 0 <= j < entries.len() && i != j ==> (#[trigger] entries[i]).0@
            != (#[trigger] entries[j]).0@
}

/// The offsets that an index holds after the frames `frames` (each a key and
/// a payload length) were written one after the other from offset 0: each key
/// maps to the start of the last frame written under it.
pub open spec fn replay(frames: Seq<(Value, nat)>) -> Map<Value, nat>
    decreases frames.len(),
{
    if frames.len() == 0 {
        Map::empty()
    } else {
        replay(frames.drop_last()).insert(frames.last().0, log_size(frames.drop_last()))
    }
}

/// Number of bytes that the frames `frames` take in the log.
pub open spec fn log_size(frames: Seq<(Value, nat)>) -> nat
    decreases frames.len(),
{
    if frames.len() == 0 {
        0
    } else {
        log_size(frames.drop_last()) + 8 + frames.last().1
    }
}

proof fn lemma_entries_map_domain(entries: Seq<(ColumnValue, u64)>, k: Value)
    ensures
        entries_map(entries).contains_key(k) <==> exists|i: int|
            0 <= i < entries.len() && (#[trigger] entries[i]).0@ == k,
    decreases entries.len(),
{
    if entries.len() > 0 {
        let prev = entries.drop_last();
        lemma_entries_map_domain(prev, k);
        if entries_map(entries).contains_key(k) && entries.last().0@ != k {
            let i = choose|i: int| 0 <= i < prev.len() && (#[trigger] prev[i]).0@ == k;
            assert(entries[i] == prev[i]);
        }
        if exists|i: int| 0 <= i < entries.len() && (#[trigger] entries[i]).0@ == k {
            let i = choose|i: int| 0 <= i < entries.len() && (#[trigger] entries[i]).0@ == k;
            if i < entries.len() - 1 {
                assert(prev[i] == entries[i]);
            }
        }
    }
}

proof fn lemma_entries_map_value(entries: Seq<(ColumnValue, u64)>, i: int)
    requires
        keys_distinct(entries),
        0 <= i < entries.len(),
    ensures
        entries_map(entries).contains_key(entries[i].0@),
        entries_map(entries)[entries[i].0@] == entries[i].1 as nat,
    decreases entries.len(),
{
    let prev = entries.drop_last();
    if i < entries.len() - 1 {
        assert(prev[i] == entries[i]);
        assert(keys_distinct(prev)) by {
            assert forall|a: int, b: int|
                0 <= a < prev.len() && 0 <= b < prev.len() && a != b implies (#[trigger] prev[a]).0@
                != (#[trigger] prev[b]).0@ by {
                assert(prev[a] == entries[a] && prev[b] == entries[b]);
            }
        }
        lemma_entries_map_value(prev, i);
        assert(entries[entries.len() - 1].0@ != entries[i].0@);
    }
}

proof fn lemma_entries_map_len(entries: Seq<(ColumnValue, u64)>)
    requires
        keys_distinct(entries),
    ensures
        entries_map(entries).dom().finite(),
        entries_map(entries).dom().len() == entries.len(),
    decreases entries.len(),
{
    if entries.len() > 0 {
        let prev = entries.drop_last();
        assert(keys_distinct(prev)) by {
            assert forall|a: int, b: int|
                0 <= a < prev.len() && 0 <= b < prev.len() && a != b implies (#[trigger] prev[a]).0@
                != (#[trigger] prev[b]).0@ by {
                assert(prev[a] == entries[a] && prev[b] == entries[b]);
            }
        }
        lemma_entries_map_len(prev);
        lemma_entries_map_domain(prev, entries.last().0@);
        if entries_map(prev).contains_key(entries.last().0@) {
            let i = choose|i: int| 0 <= i < prev.len() && (#[trigger] prev[i]).0@ == entries.last().0@;
            assert(prev[i] == entries[i]);
        }
    }
}

proof fn lemma_entries_map_set(entries: Seq<(ColumnValue, u64)>, i: int, e: (ColumnValue, u64))
    requires
        keys_distinct(entries),
        0 <= i < entries.len(),
        entries[i].0@ == e.0@,
    ensures
        keys_distinct(entries.update(i, e)),
        entries_map(entries.update(i, e)) == entries_map(entries).insert(e.0@, e.1 as nat),
{
    let upd = entries.update(i, e);
    assert(keys_distinct(upd)) by {
        assert forall|a: int, b: int|
            0 <= a < upd.len() && 0 <= b < upd.len() && a != b implies (#[trigger] upd[a]).0@ != (
            #[trigger] upd[b]).0@ by {
            assert(upd[a].0@ == entries[a].0@ && upd[b].0@ == entries[b].0@);
        }
    }
    let m1 = entries_map(upd);
    let m2 = entries_map(entries).insert(e.0@, e.1 as nat);
    assert forall|k: Value| #[trigger] m1.contains_key(k) == m2.contains_key(k) by {
        lemma_entries_map_domain(upd, k);
        lemma_entries_map_domain(entries, k);
        if m2.contains_key(k) && k != e.0@ {
            let j = choose|j: int| 0 <= j < entries.len() && (#[trigger] entries[j]).0@ == k;
            assert(upd[j].0@ == k);
        }
        if k == e.0@ {
            assert(upd[i].0@ == k);
        }
        if m1.contains_key(k) && k != e.0@ {
            let j = choose|j: int| 0 <= j < upd.len() && (#[trigger] upd[j]).0@ == k;
            assert(entries[j].0@ == k);
        }
    }
    assert forall|k: Value| #[trigger] m1.contains_key(k) implies m1[k] == m2[k] by {
        lemma_entries_map_domain(upd, k);
        let j = choose|j: int| 0 <= j < upd.len() && (#[trigger] upd[j]).0@ == k;
        lemma_entries_map_value(upd, j);
        if j != i {
            lemma_entries_map_value(entries, j);
        }
    }
    assert(m1 =~= m2);
}

/// The primary-key index of a table: for each key, the offset of the frame
/// that holds its row; and the offset at which the next frame will start.
#[derive(Debug, Clone)]
pub struct Index {
    entries: Vec<(ColumnValue, u64)>,
    byte_offset: u64,
}

impl Index {
    /// The offset recorded for each key.
    pub closed spec fn offsets(&self) -> Map<Value, nat> {
        entries_map(self.entries@)
    }

    /// The offset at which the next frame will start.
    pub closed spec fn cursor(&self) -> nat {
        self.byte_offset as nat
    }

    /// The entries hold each key once.
    pub closed spec fn wf(&self) -> bool {
        keys_distinct(self.entries@)
    }

    /// A sound index records finitely many keys.
    pub proof fn lemma_finite(&self)
        requires
            self.wf(),
        ensures
            self.offsets().dom().finite(),
    {
        lemma_entries_map_len(self.entries@);
    }

    /// An empty index whose next frame starts at offset 0.
    pub fn new() -> (r: Index)
        ensures
            r.wf(),
            r.offsets() == Map::<Value, nat>::empty(),
            r.cursor() == 0,
    {
        Index { entries: Vec::new(), byte_offset: 0 }
    }

    fn find(&self, key: &ColumnValue) -> (r: Option<usize>)
        requires
            self.wf(),
        ensures
            match r {
                Some(i) => i < self.entries@.len() && self.entries@[i as int].0@ == key@,
                None => forall|j: int|
                    0 <= j < self.entries@.len() ==> (#[trigger] self.entries@[j]).0@ != key@,
            },
    {
        let mut i: usize = 0;
        while i < self.entries.len()
            invariant
                i <= self.entries@.len(),
                forall|j: int| 0 <= j < i ==> (#[trigger] self.entries@[j]).0@ != key@,
            decreases self.entries@.len() - i,
        {
            if self.entries[i].0.eq(key) {
                return Some(i);
            }
            i = i + 1;
        }
        None
    }

    /// The offset of the frame recorded for `key`.
    pub fn get(&self, key: &ColumnValue) -> (r: Option<&u64>)
        requires
            self.wf(),
        ensures
            match r {
                Some(o) => self.offsets().contains_key(key@) && *o as nat == self.offsets()[key@],
                None => !self.offsets().contains_key(key@),
            },
    {
        proof {
            lemma_entries_map_domain(self.entries@, key@);
        }
        match self.find(key) {
            Some(i) => {
                proof {
                    lemma_entries_map_value(self.entries@, i as int);
                }
                Some(&self.entries[i].1)
            },
            None => None,
        }
    }

    /// Whether an offset is recorded for `key`.
    pub fn contains_key(&self, key: &ColumnValue) -> (r: bool)
        requires
            self.wf(),
        ensures
            r == self.offsets().contains_key(key@),
            self.offsets().dom().finite(),
    {
        proof {
            self.lemma_finite();
        }
        self.get(key).is_some()
    }

    /// Number of keys in the index.
    pub fn len(&self) -> (r: usize)
        requires
            self.wf(),
        ensures
            r == self.offsets().dom().len(),
            self.offsets().dom().finite(),
    {
        proof {
            lemma_entries_map_len(self.entries@);
        }
        self.entries.len()
    }

    /// The offset at which the next frame will start.
    pub fn next_offset(&self) -> (r: u64)
        ensures
            r == self.cursor(),
    {
        self.byte_offset
    }

    /// Records that a frame of `tuple_length` payload bytes holding the row of
    /// `key` was written at the cursor, and moves the cursor past it.
    pub fn update(&mut self, key: ColumnValue, tuple_length: u64)
        requires
            old(self).wf(),
            old(self).cursor() + 8 + tuple_length <= u64::MAX,
        ensures
            final(self).wf(),
            final(self).offsets() == old(self).offsets().insert(key@, old(self).cursor()),
            final(self).cursor() == old(self).cursor() + 8 + tuple_length,
            final(self).offsets().dom().finite(),
    {
        let offset = self.byte_offset;
        match self.find(&key) {
            Some(i) => {
                proof {
                    lemma_entries_map_set(self.entries@, i as int, (key, offset));
                }
                self.entries.set(i, (key, offset));
            },
            None => {
                let ghost prev = self.entries@;
                self.entries.push((key, offset));
                proof {
                    assert(self.entries@.drop_last() =~= prev);
                    assert forall|a: int, b: int|
                        0 <= a < self.entries@.len() && 0 <= b < self.entries@.len() && a
                            != b implies (#[trigger] self.entries@[a]).0@
                        != (#[trigger] self.entries@[b]).0@ by {
                        if a < prev.len() && b < prev.len() {
                            assert(self.entries@[a] == prev[a] && self.entries@[b] == prev[b]);
                        } else if a < prev.len() {
                            assert(self.entries@[a] == prev[a]);
                        } else {
                            assert(self.entries@[b] == prev[b]);
                        }
                    }
                }
            },
        }
        self.byte_offset = calculate_new_offset(tuple_length, offset);
        proof {
            self.lemma_finite();
        }
    }
}

/// Why a table buffer could not be built or read.
#[derive(Debug, Clone, PartialEq, Eq)]
pub enum TableBufferError {
    /// The primary key is not one of the schema's columns.
    PrimaryKeyNotInDefn,
    /// A row of the log holds no value at the primary key's position.
    PrimaryKeyNotInTuple,
    /// The log could not be read.
    StorageError(StorageError),
}

/// Row `t` holds a value at position `pk`.
pub open spec fn has_key_at(t: Seq<Option<ColumnValue>>, pk: int) -> bool {
    0 <= pk < t.len() && t[pk] is Some
}

/// Every decoded frame holds a value at position `pk`.
pub open spec fn all_keyed(frames: Seq<(Tuple, u64)>, pk: int) -> bool {
    forall|i: int| 0 <= i < frames.len() ==> has_key_at(#[trigger] frames[i].0@, pk)
}

/// The key (the value at position `pk`) of row `t`.
pub open spec fn key_at(t: Seq<Option<ColumnValue>>, pk: int) -> Value {
    t[pk]->Some_0@
}

/// Row `t` has a key, other than `key`.
pub open spec fn misses(t: Seq<Option<ColumnValue>>, pk: int, key: Value) -> bool {
    has_key_at(t, pk) && key_at(t, pk) != key
}

/// Each of the first `i` rows of `ts` has a key, other than `key`.
pub open spec fn misses_before(ts: Seq<Tuple>, i: int, pk: int, key: Value) -> bool {
    forall|j: int| 0 <= j < i ==> #[trigger] misses(ts[j]@, pk, key)
}

/// Each decoded frame of a log as its key and payload length.
pub open spec fn frame_keys(frames: Seq<(Tuple, u64)>, pk: int) -> Seq<(Value, nat)> {
    frames.map_values(|f: (Tuple, u64)| (key_at(f.0@, pk), f.1 as nat))
}

/// Number of bytes that decoded frames (each a row and its payload length)
/// take in the log.
pub open spec fn frames_size(frames: Seq<(Tuple, u64)>) -> nat
    decreases frames.len(),
{
    if frames.len() == 0 {
        0
    } else {
        frames_size(frames.drop_last()) + 8 + frames.last().1 as nat
    }
}

proof fn lemma_frames_size_prefix(frames: Seq<(Tuple, u64)>, i: int)
    requires
        0 <= i <= frames.len(),
    ensures
        frames_size(frames.take(i)) <= frames_size(frames),
    decreases frames.len(),
{
    if i < frames.len() {
        lemma_frames_size_prefix(frames.drop_last(), i);
        assert(frames.drop_last().take(i) =~= frames.take(i));
    } else {
        assert(frames.take(i) =~= frames);
    }
}

/// The decoded frames of a log take as many bytes as their keys and lengths.
pub proof fn lemma_frame_keys_size(frames: Seq<(Tuple, u64)>, pk: int)
    ensures
        log_size(frame_keys(frames, pk)) == frames_size(frames),
    decreases frames.len(),
{
    if frames.len() > 0 {
        assert(frame_keys(frames, pk).drop_last() =~= frame_keys(frames.drop_last(), pk));
        lemma_frame_keys_size(frames.drop_last(), pk);
    }
}

/// Where the row of a key is to be found.
#[derive(Debug, Clone, Copy, PartialEq, Eq, Structural)]
pub enum Lookup {
    /// In the frame that starts at this offset.
    Offset(u64),
    /// Nowhere that the index knows of: the whole log is to be scanned.
    Scan,
    /// Nowhere: the key has no row.
    Absent,
}

/// The index of one table, and the position of its primary key in each row.
/// Every row of the table's log passes through it, so that the index always
/// records the offsets of the frames the log holds.
pub struct TableBuffer {
    index: Index,
    pk_position: usize,
    history: Ghost<Seq<(Value, nat)>>,
}

impl TableBuffer {
    /// The offset recorded for each key.
    pub closed spec fn offsets(&self) -> Map<Value, nat> {
        self.index.offsets()
    }

    /// The offset at which the next frame will start.
    pub closed spec fn cursor(&self) -> nat {
        self.index.cursor()
    }

    /// Position of the primary key in each row.
    pub closed spec fn pk(&self) -> nat {
        self.pk_position as nat
    }

    /// The frames of the log, each as its key and payload length, in the
    /// order they were written.
    pub closed spec fn history(&self) -> Seq<(Value, nat)> {
        self.history@
    }

    /// The index records exactly the replay of the frames written so far.
    pub closed spec fn wf(&self) -> bool {
        &&& self.index.wf()
        &&& self.index.offsets() == replay(self.history@)
        &&& self.index.cursor() == log_size(self.history@)
    }

    /// Builds the buffer of a table from the decoded frames of its log (each a
    /// row and its payload length, in log order), replaying them into the index.
    pub fn new(table_definition: &TableDefinition, frames: &[(Tuple, u64)]) -> (r: Result<
        TableBuffer,
        TableBufferError,
    >)
        requires
            frames_size(frames@) <= u64::MAX,
        ensures
            match pk_index(*table_definition) {
                None => r == Err::<TableBuffer, TableBufferError>(
                    TableBufferError::PrimaryKeyNotInDefn,
                ),
                Some(pk) => if all_keyed(frames@, pk) {
                    r is Ok && {
                        let tb = r->Ok_0;
                        &&& tb.wf()
                        &&& tb.pk() == pk
                        &&& tb.history() == frame_keys(frames@, pk)
                        &&& tb.offsets() == replay(frame_keys(frames@, pk))
                        &&& tb.cursor() == frames_size(frames@)
                    }
                } else {
                    r == Err::<TableBuffer, TableBufferError>(
                        TableBufferError::PrimaryKeyNotInTuple,
                    )
                },
            },
    {
        let key_position = match column_position(
            table_definition.columns.as_slice(),
            &table_definition.primary_key,
        ) {
            Some(p) => p,
            None => {
                return Err(TableBufferError::PrimaryKeyNotInDefn);
            },
        };
        let mut table = TableBuffer {
            index: Index::new(),
            pk_position: key_position,
            history: Ghost(Seq::empty()),
        };
        let ghost pk = key_position as int;
        let mut i: usize = 0;
        assert(frame_keys(frames@.take(0), pk) =~= Seq::<(Value, nat)>::empty());
        assert(frames@.take(0) =~= Seq::<(Tuple, u64)>::empty());
        while i < frames.len()
            invariant
                i <= frames@.len(),
                frames_size(frames@) <= u64::MAX,
                table.wf(),
                table.pk_position == key_position,
                pk == key_position as int,
                pk_index(*table_definition) == Some(pk),
                table.history@ == frame_keys(frames@.take(i as int), pk),
                table.index.cursor() == frames_size(frames@.take(i as int)),
                forall|j: int| 0 <= j < i ==> has_key_at(#[trigger] frames@[j].0@, pk),
            decreases frames@.len() - i,
        {
            let tuple = &frames[i].0;
            let length = frames[i].1;
            if key_position >= tuple.len() {
                assert(!has_key_at(frames@[i as int].0@, pk));
                return Err(TableBufferError::PrimaryKeyNotInTuple);
            }
            let key = match &tuple[key_position] {
                Some(v) => v.duplicate(),
                None => {
                    assert(!has_key_at(frames@[i as int].0@, pk));
                    return Err(TableBufferError::PrimaryKeyNotInTuple);
                },
            };
            assert(key@ == key_at(frames@[i as int].0@, pk));
            proof {
                lemma_frames_size_prefix(frames@, i + 1);
                assert(frames@.take(i + 1).drop_last() =~= frames@.take(i as int));
                assert(frames@.take(i + 1).last() == frames@[i as int]);
            }
            table.index.update(key, length);
            proof {
                let prev = frame_keys(frames@.take(i as int), pk);
                assert(frame_keys(frames@.take(i + 1), pk) =~= prev.push((key@, length as nat)));
                assert(prev.push((key@, length as nat)).drop_last() =~= prev);
                table.history@ = prev.push((key@, length as nat));
            }
            i = i + 1;
        }
        proof {
            assert(frames@.take(frames@.len() as int) =~= frames@);
            lemma_frame_keys_size(frames@, pk);
        }
        Ok(table)
    }

    /// The index of the table.
    pub fn index(&self) -> (r: &Index)
        requires
            self.wf(),
        ensures
            r.wf(),
            r.offsets() == self.offsets(),
            r.cursor() == self.cursor(),
    {
        &self.index
    }

    /// Position of the primary key in each row.
    pub fn pk_position(&self) -> (r: usize)
        ensures
            r == self.pk(),
    {
        self.pk_position
    }

    /// Where the row of `key` is: at the offset that the index records;
    /// otherwise nowhere, unless `scan_file` asks for a scan of the whole log.
    pub fn get(&self, key: &ColumnValue, scan_file: bool) -> (r: Lookup)
        requires
            self.wf(),
        ensures
            self.offsets().contains_key(key@) ==> r == Lookup::Offset(
                self.offsets()[key@] as u64,
            ),
            !self.offsets().contains_key(key@) ==> r == (if scan_file {
                Lookup::Scan
            } else {
                Lookup::Absent
            }),
    {
        match self.index.get(key) {
            Some(offset) => Lookup::Offset(*offset),
            None => {
                if scan_file {
                    Lookup::Scan
                } else {
                    Lookup::Absent
                }
            },
        }
    }

    /// The first row of `tuples` (the rows of the log, in order) whose key is
    /// `user_key`. Fails where a row before it has no key.
    #[verifier::loop_isolation(false)]
    pub fn scan_block_get_item(&self, tuples: Vec<Tuple>, user_key: &ColumnValue) -> (r: Result<
        Option<Tuple>,
        TableBufferError,
    >)
        ensures
            match r {
                Ok(Some(t)) => exists|i: int|
                    0 <= i < tuples@.len() && #[trigger] tuples@[i] == t && has_key_at(
                        t@,
                        self.pk() as int,
                    ) && key_at(t@, self.pk() as int) == user_key@ && misses_before(
                        tuples@,
                        i,
                        self.pk() as int,
                        user_key@,
                    ),
                Ok(None) => misses_before(tuples@, tuples@.len() as int, self.pk() as int, user_key@),
                Err(e) => e == TableBufferError::PrimaryKeyNotInTuple && exists|i: int|
                    0 <= i < tuples@.len() && !has_key_at(#[trigger] tuples@[i]@, self.pk() as int)
                        && misses_before(tuples@, i, self.pk() as int, user_key@),
            },
    {
        let pk = self.pk_position;
        let ghost all = tuples@;
        let mut rest = tuples;
        let mut i: usize = 0;
        while i < rest.len()
            invariant
                rest@ == all,
                i <= all.len(),
                pk == self.pk(),
                misses_before(all, i as int, pk as int, user_key@),
            decreases all.len() - i,
        {
            let t = &rest[i];
            if pk >= t.len() {
                assert(!has_key_at(all[i as int]@, pk as int));
                return Err(TableBufferError::PrimaryKeyNotInTuple);
            }
            let found = match &t[pk] {
                Some(key) => key.eq(user_key),
                None => {
                    assert(!has_key_at(all[i as int]@, pk as int));
                    return Err(TableBufferError::PrimaryKeyNotInTuple);
                },
            };
            if found {
                let t = rest.remove(i);
                assert(t == all[i as int]);
                return Ok(Some(t));
            }
            assert(misses_before(all, i + 1, pk as int, user_key@)) by {
                assert forall|j: int| 0 <= j < i + 1 implies #[trigger] misses(
                    all[j]@,
                    pk as int,
                    user_key@,
                ) by {
                    if j < i {
                        assert(misses(all[j]@, pk as int, user_key@));
                    }
                }
            }
            i = i + 1;
        }
        Ok(None)
    }

    /// Records in the index that the log has just received, at the cursor, a
    /// frame of `tuple_length` payload bytes holding the row of `key`.
    pub fn write(&mut self, key: ColumnValue, tuple_length: u64)
        requires
            old(self).wf(),
            old(self).cursor() + 8 + tuple_length <= u64::MAX,
        ensures
            final(self).wf(),
            final(self).pk() == old(self).pk(),
            final(self).history() == old(self).history().push((key@, tuple_length as nat)),
            final(self).offsets() == old(self).offsets().insert(key@, old(self).cursor()),
            final(self).cursor() == old(self).cursor() + 8 + tuple_length,
            final(self).offsets().dom().finite(),
            final(self).offsets().dom().len() == old(self).offsets().dom().len() + (if old(
                self,
            ).offsets().contains_key(key@) {
                0int
            } else {
                1int
            }),
    {
        let ghost k = key@;
        proof {
            self.index.lemma_finite();
        }
        self.index.update(key, tuple_length);
        proof {
            let h = self.history@.push((k, tuple_length as nat));
            assert(h.drop_last() =~= self.history@);
            self.history@ = h;
        }
    }

    /// Whether the index holds `key`.
    pub fn contains_key(&self, key: &ColumnValue) -> (r: bool)
        requires
            self.wf(),
        ensures
            r == self.offsets().contains_key(key@),
            self.offsets().dom().finite(),
    {
        self.index.contains_key(key)
    }

    /// Number of distinct keys in the index.
    pub fn size(&self) -> (r: usize)
        requires
            self.wf(),
        ensures
            r == self.offsets().dom().len(),
            self.offsets().dom().finite(),
    {
        self.index.len()
    }

    /// A sound buffer records finitely many keys, and the frames it has seen
    /// fit the offsets of a log.
    pub proof fn lemma_offsets_finite(&self)
        requires
            self.wf(),
        ensures
            self.offsets().dom().finite(),
            log_size(self.history()) <= u64::MAX,
    {
        self.index.lemma_finite();
    }
}

/// Two buffers over the same log hold the same index: the one that a table
/// builds by replaying its log when it is opened agrees, key by key and on the
/// next offset, with the one that recorded the same frames as they were
/// written.
pub proof fn lemma_replay_idempotent(a: &TableBuffer, b: &TableBuffer)
    requires
        a.wf(),
        b.wf(),
        a.history() == b.history(),
    ensures
        log_size(a.history()) <= u64::MAX,
        a.offsets() == b.offsets(),
        a.cursor() == b.cursor(),
        forall|k: Value| a.offsets().contains_key(k) == b.offsets().contains_key(k),
{
}

/// Writing one more frame changes the replayed index only at the frame's key,
/// which then maps to the offset where the log ended before the frame.
pub proof fn lemma_replay_push(frames: Seq<(Value, nat)>, key: Value, length: nat)
    ensures
        replay(frames.push((key, length))) == replay(frames).insert(key, log_size(frames)),
        log_size(frames.push((key, length))) == log_size(frames) + 8 + length,
{
    assert(frames.push((key, length)).drop_last() =~= frames);
}

/// The index points into the log: where the frames of a log hold payloads
/// `payloads` and were written under the keys of `frames` (with the same
/// lengths), the replayed cursor is the log's length, and each key that the
/// replayed index holds maps to the offset of the last frame written under it.
pub proof fn lemma_index_points_to_frames(frames: Seq<(Value, nat)>, payloads: Seq<Seq<u8>>)
    requires
        frames.len() == payloads.len(),
        forall|i: int| 0 <= i < frames.len() ==> #[trigger] frames[i].1 == payloads[i].len(),
    ensures
        log_size(frames) == log_bytes(payloads).len(),
        forall|k: Value| #[trigger]
            replay(frames).contains_key(k) ==> exists|i: int|
                0 <= i < frames.len() && frames[i].0 == k && replay(frames)[k] == frame_offset(
                    payloads,
                    i,
                ) && forall|j: int| i < j < frames.len() ==> #[trigger] frames[j].0 != k,
    decreases frames.len(),
{
    if frames.len() > 0 {
        let n = frames.len() - 1;
        let fs = frames.drop_last();
        let ps = payloads.drop_last();
        assert forall|i: int| 0 <= i < fs.len() implies #[trigger] fs[i].1 == ps[i].len() by {
            assert(fs[i] == frames[i] && ps[i] == payloads[i]);
        }
        lemma_index_points_to_frames(fs, ps);
        lemma_log_push(ps, payloads.last());
        assert(ps.push(payloads.last()) =~= payloads);
        assert(payloads.take(n) =~= ps);
        assert forall|k: Value| #[trigger] replay(frames).contains_key(k) implies exists|i: int|
            0 <= i < frames.len() && frames[i].0 == k && replay(frames)[k] == frame_offset(
                payloads,
                i,
            ) && forall|j: int| i < j < frames.len() ==> #[trigger] frames[j].0 != k by {
            if k == frames.last().0 {
                assert(frames[n].0 == k);
                assert(replay(frames)[k] == frame_offset(payloads, n));
                assert(0 <= n < frames.len() && frames[n].0 == k && replay(frames)[k]
                    == frame_offset(payloads, n) && forall|j: int|
                    n < j < frames.len() ==> #[trigger] frames[j].0 != k);
            } else {
                assert(replay(fs).contains_key(k));
                let i = choose|i: int|
                    0 <= i < fs.len() && fs[i].0 == k && replay(fs)[k] == frame_offset(ps, i)
                        && forall|j: int| i < j < fs.len() ==> #[trigger] fs[j].0 != k;
                assert(payloads.take(i) =~= ps.take(i));
                assert(frames[i] == fs[i]);
                assert forall|j: int| i < j < frames.len() implies #[trigger] frames[j].0 != k by {
                    if j < n {
                        assert(frames[j] == fs[j]);
                    }
                }
                assert(replay(frames)[k] == replay(fs)[k]);
                assert(0 <= i < frames.len() && frames[i].0 == k && replay(frames)[k]
                    == frame_offset(payloads, i) && forall|j: int|
                    i < j < frames.len() ==> #[trigger] frames[j].0 != k);
            }
        }
    }
}

} // verus!
