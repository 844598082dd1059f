//! The logic of a log-structured merge (LSM) storage engine.
//!
//! Writes go to a write-ahead log (WAL) first, then to an in-memory table kept
//! in key order; when that table is full it is flushed, in key order, to a new
//! sorted-string table (sstable) file with the next number. Reads look in the
//! memory table first, then in the sstables from the newest down. The files
//! themselves are read and written by the caller: this module decides what to
//! write, where, and what a read answers given what the files hold.
use super::byte_map::{compare_bytes, entries_to_map, keys_ascending, lex_lt, view_entries, ByteMap, KeyOrder};
use super::{copy_bytes, StorageError};
use vstd::prelude::*;

verus! {

/// The number of keys the memory table holds before a write flushes it.
pub const MEMTABLE_CAPACITY: usize = 2;

/// What a table holds for a key: a value, or the mark that it was deleted (the
/// sstable format holds such marks; a read passes over them to older tables).
#[derive(Debug, Clone)]
pub enum ValueEntry {
    Put(Vec<u8>),
    Tombstone,
}

impl View for ValueEntry {
    type V = Option<Seq<u8>>;

    /// The value, or `None` for a deletion mark.
    open spec fn view(&self) -> Option<Seq<u8>> {
        match self {
            ValueEntry::Put(v) => Some(v@),
            ValueEntry::Tombstone => None,
        }
    }
}

/// One line of an sstable: a key and what the table holds for it.
#[derive(Debug, Clone)]
pub struct SsTableRecord {
    pub key: Vec<u8>,
    pub entry: ValueEntry,
}

impl View for SsTableRecord {
    type V = (Seq<u8>, Option<Seq<u8>>);

    open spec fn view(&self) -> (Seq<u8>, Option<Seq<u8>>) {
        (self.key@, self.entry@)
    }
}

/// An sstable file, known by its path.
pub struct Sstable {
    pub file_path: String,
}

impl Sstable {
    /// The sstable at path `fp`.
    pub fn new(fp: String) -> (r: Self)
        ensures
            r.file_path@ == fp@,
    {
        Sstable { file_path: fp }
    }
}

/// One record of the write-ahead log.
#[derive(Debug, Clone)]
pub enum WalEntry {
    Put { key: Vec<u8>, value: ValueEntry },
    Delete { key: Vec<u8> },
}

/// The abstract state of an LSM engine.
pub struct LsmView {
    /// What the memory table holds: a value, or `None` for a deletion mark.
    pub memtable: Map<Seq<u8>, Option<Seq<u8>>>,
    /// The paths of the sstables written, oldest first.
    pub sstables: Seq<Seq<char>>,
    /// The number the next sstable gets.
    pub next_table_id: nat,
}

/// The in-memory state of an LSM engine.
pub struct LsmStorage {
    mem_table: ByteMap<ValueEntry>,
    sstables: Vec<Sstable>,
    next_table_id: u64,
}

/// The decimal digit `d`.
pub open spec fn digit_char(d: nat) -> char {
    (d + 48) as char
}

/// The decimal representation of `n`, without leading zeros.
pub open spec fn decimal(n: nat) -> Seq<char>
    decreases n,
{
    if n < 10 {
        seq![digit_char(n)]
    } else {
        decimal(n / 10).push(digit_char(n % 10))
    }
}

/// The path of sstable number `id`: `sstables/<id>.sst`.
pub open spec fn sstable_path(id: nat) -> Seq<char> {
    seq!['s', 's', 't', 'a', 'b', 'l', 'e', 's', '/'] + decimal(id) + seq!['.', 's', 's', 't']
}

/// The records of a table, as (key, entry) pairs.
pub open spec fn records_view(r: Seq<SsTableRecord>) -> Seq<(Seq<u8>, Option<Seq<u8>>)> {
    r.map_values(|x: SsTableRecord| x@)
}

/// The digit `d` as a one-character string.
fn digit_str(d: u64) -> (r: &'static str)
    requires
        d < 10,
    ensures
        r@ == seq![digit_char(d as nat)],
{
    if d == 0 {
        proof { reveal_strlit("0"); }
        "0"
    } else if d == 1 {
        proof { reveal_strlit("1"); }
        "1"
    } else if d == 2 {
        proof { reveal_strlit("2"); }
        "2"
    } else if d == 3 {
        proof { reveal_strlit("3"); }
        "3"
    } else if d == 4 {
        proof { reveal_strlit("4"); }
        "4"
    } else if d == 5 {
        proof { reveal_strlit("5"); }
        "5"
    } else if d == 6 {
        proof { reveal_strlit("6"); }
        "6"
    } else if d == 7 {
        proof { reveal_strlit("7"); }
        "7"
    } else if d == 8 {
        proof { reveal_strlit("8"); }
        "8"
    } else {
        proof { reveal_strlit("9"); }
        "9"
    }
}

/// Appends the decimal representation of `n` to `s`.
fn push_decimal(s: &mut String, n: u64)
    ensures
        final(s)@ == old(s)@ + decimal(n as nat),
    decreases n,
{
    if n >= 10 {
        push_decimal(s, n / 10);
    }
    s.append(digit_str(n % 10));
    assert(final(s)@ =~= old(s)@ + decimal(n as nat));
}

/// The path of sstable number `id`.
pub fn sstable_path_for_id(id: u64) -> (r: String)
    ensures
        r@ == sstable_path(id as nat),
{
    proof {
        reveal_strlit("sstables/");
        reveal_strlit(".sst");
    }
    let mut s = String::from_str("sstables/");
    push_decimal(&mut s, id);
    s.append(".sst");
    assert(s@ =~= sstable_path(id as nat));
    s
}

/// What a flush hands the caller to write: the path of the new sstable and its
/// records, one per line, in ascending key order.
pub struct SstableFlush {
    pub path: String,
    pub records: Vec<SsTableRecord>,
}

/// A step of a read: either its answer, or the number of the sstable whose
/// records the read needs next.
#[derive(Debug)]
pub enum GetStep {
    Done(Result<Option<Vec<u8>>, StorageError>),
    ReadSstable(u64),
}

/// The outcome of scanning the lines of one sstable for `key`: the first line that
/// failed to be read, or what the first record of `key` holds, or `Ok(None)`.
pub open spec fn scan_lines(lines: Seq<Result<SsTableRecord, StorageError>>, key: Seq<u8>) -> Result<
    Option<Seq<u8>>,
    StorageError,
>
    decreases lines.len(),
{
    if lines.len() == 0 {
        Ok(None)
    } else {
        match lines[0] {
            Err(e) => Err(e),
            Ok(rec) => if rec.key@ == key {
                Ok(rec.entry@)
            } else {
                scan_lines(lines.drop_first(), key)
            },
        }
    }
}

/// What a read of `key` answers from the sstables numbered `id` down to 1, where
/// `tables[n - 1]` holds the lines of sstable `n`: the first table whose scan finds a
/// value or an error answers; a table without the key, or with a deletion mark for
/// it, passes the read on to the next older one; past sstable 1 the answer is `None`.
pub open spec fn sstables_answer(
    tables: Seq<Seq<Result<SsTableRecord, StorageError>>>,
    id: nat,
    key: Seq<u8>,
) -> Result<Option<Seq<u8>>, StorageError>
    decreases id,
{
    if id == 0 {
        Ok(None)
    } else {
        match scan_lines(tables[id - 1], key) {
            Ok(None) => sstables_answer(tables, (id - 1) as nat, key),
            other => other,
        }
    }
}

/// What a whole read of `key` answers, where `tables[n - 1]` holds the lines of
/// sstable `n`: the memory table's entry if it has one (`None` for a deletion mark),
/// otherwise the sstables' answer from the newest down.
pub open spec fn lsm_answer(
    v: LsmView,
    tables: Seq<Seq<Result<SsTableRecord, StorageError>>>,
    key: Seq<u8>,
) -> Result<Option<Seq<u8>>, StorageError> {
    if v.memtable.contains_key(key) {
        Ok(v.memtable[key])
    } else if v.next_table_id >= 1 {
        sstables_answer(tables, (v.next_table_id - 1) as nat, key)
    } else {
        Ok(None)
    }
}

/// What a read answers once it has reached `step`: the step's own answer, or what
/// the sstables from the one it asks for down answer.
pub open spec fn step_outcome(
    step: GetStep,
    tables: Seq<Seq<Result<SsTableRecord, StorageError>>>,
    key: Seq<u8>,
) -> Result<Option<Seq<u8>>, StorageError> {
    match step {
        GetStep::Done(x) => done_view(x),
        GetStep::ReadSstable(id) => sstables_answer(tables, id as nat, key),
    }
}

/// A read's answer, with the value as a byte sequence.
pub open spec fn done_view(x: Result<Option<Vec<u8>>, StorageError>) -> Result<Option<Seq<u8>>, StorageError> {
    match x {
        Ok(o) => Ok(answer_view(o)),
        Err(e) => Err(e),
    }
}

/// The lines of an sstable file written from `records`, read back without error.
pub open spec fn record_lines(records: Seq<SsTableRecord>) -> Seq<Result<SsTableRecord, StorageError>> {
    records.map_values(|r: SsTableRecord| Ok::<SsTableRecord, StorageError>(r))
}

/// The answer a read hands back, as a byte sequence.
pub open spec fn answer_view(v: Option<Vec<u8>>) -> Option<Seq<u8>> {
    match v {
        Some(x) => Some(x@),
        None => None,
    }
}

/// The memory table as a map of views.
pub open spec fn memtable_view(m: Map<Seq<u8>, ValueEntry>) -> Map<Seq<u8>, Option<Seq<u8>>> {
    m.map_values(|e: ValueEntry| e@)
}

/// The sequence view of a vector of (key, entry) pairs maps through the entries' views.
proof fn lemma_records_of_entries(e: Seq<(Vec<u8>, ValueEntry)>, r: Seq<SsTableRecord>)
    requires
        e.len() == r.len(),
        forall|i: int| 0 <= i < e.len() ==> #[trigger] r[i].key@ == e[i].0@ && r[i].entry == e[i].1,
        keys_ascending(view_entries(e)),
    ensures
        keys_ascending(records_view(r)),
        entries_to_map(records_view(r)) == memtable_view(entries_to_map(view_entries(e))),
{
    let s = view_entries(e);
    let t = records_view(r);
    assert forall|i: int, j: int| 0 <= i < j < t.len() implies lex_lt(#[trigger] t[i].0, #[trigger] t[j].0) by {
        assert(lex_lt(s[i].0, s[j].0));
    }
    let m = memtable_view(entries_to_map(s));
    assert forall|i: int| #![trigger t[i]] 0 <= i < t.len() implies m.contains_key(t[i].0) && m[t[i].0] == t[i].1 by {
        super::byte_map::lemma_entries_to_map_at(s, i);
    }
    assert forall|k: Seq<u8>| #[trigger] m.contains_key(k) implies exists|i: int| 0 <= i < t.len() && t[i].0 == k by {
        let i = super::byte_map::key_index(s, k);
        assert(t[i].0 == k);
    }
    super::byte_map::lemma_entries_to_map_is(t, m);
}

impl View for LsmStorage {
    type V = LsmView;

    closed spec fn view(&self) -> LsmView {
        LsmView {
            memtable: memtable_view(self.mem_table@),
            sstables: self.sstables@.map_values(|t: Sstable| t.file_path@),
            next_table_id: self.next_table_id as nat,
        }
    }
}

impl LsmStorage {
    /// Sstables are numbered from 1.
    #[verifier::type_invariant]
    closed spec fn wf(&self) -> bool {
        self.next_table_id >= 1
    }

    /// An engine with an empty memory table, no sstables, and 1 as the next number.
    pub fn new() -> (r: Self)
        ensures
            r@.memtable == Map::<Seq<u8>, Option<Seq<u8>>>::empty(),
            r@.sstables == Seq::<Seq<char>>::empty(),
            r@.next_table_id == 1,
    {
        let r = LsmStorage { mem_table: ByteMap::new(), sstables: Vec::new(), next_table_id: 1 };
        assert(r@.memtable =~= Map::<Seq<u8>, Option<Seq<u8>>>::empty());
        assert(r@.sstables =~= Seq::<Seq<char>>::empty());
        r
    }

    /// The path for the next sstable; the next number goes up by one.
    pub fn create_next_sstable_path(&mut self) -> (r: Result<String, StorageError>)
        requires
            old(self)@.next_table_id < u64::MAX,
        ensures
            r matches Ok(p) && p@ == sstable_path(old(self)@.next_table_id),
            final(self)@.next_table_id == old(self)@.next_table_id + 1,
            final(self)@.memtable == old(self)@.memtable,
            final(self)@.sstables == old(self)@.sstables,
    {
        let path = sstable_path_for_id(self.next_table_id);
        self.next_table_id = self.next_table_id + 1;
        Ok(path)
    }

    /// Records a new sstable at the next path, and hands back that path.
    pub fn add_sstable(&mut self) -> (r: Result<String, StorageError>)
        requires
            old(self)@.next_table_id < u64::MAX,
        ensures
            r matches Ok(p) && p@ == sstable_path(old(self)@.next_table_id),
            final(self)@.next_table_id == old(self)@.next_table_id + 1,
            final(self)@.memtable == old(self)@.memtable,
            final(self)@.sstables == old(self)@.sstables.push(sstable_path(old(self)@.next_table_id)),
    {
        proof {
            use_type_invariant(&*self);
        }
        let path = sstable_path_for_id(self.next_table_id);
        let mut tables = Vec::new();
        std::mem::swap(&mut tables, &mut self.sstables);
        tables.push(Sstable::new(path.clone()));
        std::mem::swap(&mut tables, &mut self.sstables);
        self.next_table_id = self.next_table_id + 1;
        assert(self@.sstables =~= old(self)@.sstables.push(sstable_path(old(self)@.next_table_id)));
        Ok(path)
    }

    /// Empties the memory table into a new sstable: hands back its path and its
    /// records in ascending key order, which the caller writes to that path.
    pub fn flush_memtable(&mut self) -> (r: Result<SstableFlush, StorageError>)
        requires
            old(self)@.next_table_id < u64::MAX,
        ensures
            r matches Ok(f) && {
                &&& f.path@ == sstable_path(old(self)@.next_table_id)
                &&& keys_ascending(records_view(f.records@))
                &&& entries_to_map(records_view(f.records@)) == old(self)@.memtable
            },
            final(self)@.memtable == Map::<Seq<u8>, Option<Seq<u8>>>::empty(),
            final(self)@.next_table_id == old(self)@.next_table_id + 1,
            final(self)@.sstables == old(self)@.sstables.push(sstable_path(old(self)@.next_table_id)),
    {
        proof {
            use_type_invariant(&*self);
        }
        let mut table = ByteMap::new();
        std::mem::swap(&mut table, &mut self.mem_table);
        let entries = table.take_entries();
        std::mem::swap(&mut table, &mut self.mem_table);
        assert(self@.memtable =~= Map::<Seq<u8>, Option<Seq<u8>>>::empty());
        let ghost e = entries@;
        let mut records: Vec<SsTableRecord> = Vec::new();
        for pair in it: entries
            invariant
                records.len() == it.index(),
                it.seq() == e,
                forall|i: int| 0 <= i < records.len() ==> #[trigger] records@[i].key@ == e[i].0@ && records@[i].entry == e[i].1,
        {
            let (key, entry) = pair;
            records.push(SsTableRecord { key, entry });
        }
        proof {
            lemma_records_of_entries(e, records@);
        }
        let path = self.add_sstable()?;
        Ok(SstableFlush { path, records })
    }

    /// Searches the lines of one sstable for `key`, in file order: the first line
    /// that could not be read is the error; the first record of `key` answers, with
    /// its value or `None` for a deletion mark; no such record answers `None`.
    pub fn search_sstable(key: &[u8], lines: Vec<Result<SsTableRecord, StorageError>>) -> (r: Result<
        Option<Vec<u8>>,
        StorageError,
    >)
        ensures
            match (r, scan_lines(lines@, key@)) {
                (Ok(Some(v)), Ok(Some(w))) => v@ == w,
                (Ok(None), Ok(None)) => true,
                (Err(e), Err(f)) => e == f,
                _ => false,
            },
    {
        let ghost all = lines@;
        assert(all.subrange(0, all.len() as int) =~= all);
        for line in it: lines
            invariant
                it.seq() == all,
                scan_lines(all, key@) == scan_lines(all.subrange(it.index() as int, all.len() as int), key@),
        {
            let ghost i = it.index();
            let ghost rest = all.subrange(i as int, all.len() as int);
            assert(rest[0] == all[i as int]);
            assert(rest.drop_first() =~= all.subrange(i + 1, all.len() as int));
            match line {
                Err(e) => {
                    return Err(e);
                },
                Ok(rec) => {
                    let SsTableRecord { key: rec_key, entry } = rec;
                    if compare_bytes(rec_key.as_slice(), key) == KeyOrder::Equal {
                        return match entry {
                            ValueEntry::Put(value) => Ok(Some(value)),
                            ValueEntry::Tombstone => Ok(None),
                        };
                    }
                },
            }
        }
        assert(all.subrange(all.len() as int, all.len() as int).len() == 0);
        Ok(None)
    }

    /// The first step of a read of `key`: the memory table answers if it holds the
    /// key; otherwise the read goes to the newest sstable, if there is one.
    pub fn start_get(&self, key: &[u8]) -> (r: GetStep)
        ensures
            self@.memtable.contains_key(key@) ==> (r matches GetStep::Done(Ok(v)) && answer_view(v)
                == self@.memtable[key@]),
            !self@.memtable.contains_key(key@) && self@.next_table_id > 1 ==> (r matches GetStep::ReadSstable(
                id,
            ) && id == self@.next_table_id - 1),
            !self@.memtable.contains_key(key@) && self@.next_table_id <= 1 ==> r matches GetStep::Done(
                Ok(None),
            ),
            forall|tables: Seq<Seq<Result<SsTableRecord, StorageError>>>| #[trigger]
                step_outcome(r, tables, key@) == lsm_answer(self@, tables, key@),
    {
        proof {
            use_type_invariant(self);
        }
        match self.mem_table.get(key) {
            Some(entry) => match entry {
                ValueEntry::Put(value) => GetStep::Done(Ok(Some(copy_bytes(value)))),
                ValueEntry::Tombstone => GetStep::Done(Ok(None)),
            },
            None => {
                let curr_table_id = self.next_table_id - 1;
                if curr_table_id > 0 {
                    GetStep::ReadSstable(curr_table_id)
                } else {
                    GetStep::Done(Ok(None))
                }
            },
        }
    }

    /// The step of a read of `key` after the lines of sstable `sstable_id` were read:
    /// a value or an error there answers; otherwise (no record, or a deletion mark)
    /// the read goes on to the next older sstable, and ends with `None` after the
    /// first one.
    pub fn continue_get(key: &[u8], sstable_id: u64, lines: Vec<Result<SsTableRecord, StorageError>>) -> (r:
        GetStep)
        requires
            sstable_id >= 1,
        ensures
            match scan_lines(lines@, key@) {
                Err(e) => r matches GetStep::Done(Err(e2)) && e2 == e,
                Ok(Some(w)) => r matches GetStep::Done(Ok(Some(v))) && v@ == w,
                Ok(None) => if sstable_id > 1 {
                    r matches GetStep::ReadSstable(id) && id == sstable_id - 1
                } else {
                    r matches GetStep::Done(Ok(None))
                },
            },
            forall|tables: Seq<Seq<Result<SsTableRecord, StorageError>>>|
                sstable_id <= tables.len() && tables[sstable_id - 1] == lines@ ==> #[trigger] step_outcome(
                    r,
                    tables,
                    key@,
                ) == sstables_answer(tables, sstable_id as nat, key@),
    {
        match Self::search_sstable(key, lines) {
            Err(e) => GetStep::Done(Err(e)),
            Ok(Some(value)) => GetStep::Done(Ok(Some(value))),
            Ok(None) => {
                let curr_table_id = sstable_id - 1;
                if curr_table_id > 0 {
                    GetStep::ReadSstable(curr_table_id)
                } else {
                    GetStep::Done(Ok(None))
                }
            },
        }
    }

    /// The write-ahead log record of a put of `value` at `key`.
    pub fn wal_entry_for_put(key: &Vec<u8>, value: &Vec<u8>) -> (r: WalEntry)
        ensures
            r matches WalEntry::Put { key: k, value: e } && k@ == key@ && e@ == Some(value@),
    {
        WalEntry::Put { key: copy_bytes(key), value: ValueEntry::Put(copy_bytes(value)) }
    }

    /// The write-ahead log record of a delete of `key`.
    pub fn wal_entry_for_delete(key: &Vec<u8>) -> (r: WalEntry)
        ensures
            r matches WalEntry::Delete { key: k } && k@ == key@,
    {
        WalEntry::Delete { key: copy_bytes(key) }
    }

    /// Stores `value` at `key` in the memory table.
    fn memtable_insert(&mut self, key: Vec<u8>, entry: ValueEntry)
        ensures
            final(self)@.memtable == old(self)@.memtable.insert(key@, entry@),
            final(self)@.next_table_id == old(self)@.next_table_id,
            final(self)@.sstables == old(self)@.sstables,
    {
        proof {
            use_type_invariant(&*self);
        }
        let ghost e = entry@;
        let mut table = ByteMap::new();
        std::mem::swap(&mut table, &mut self.mem_table);
        table.insert(key, entry);
        std::mem::swap(&mut table, &mut self.mem_table);
        assert(self@.memtable =~= old(self)@.memtable.insert(key@, e));
    }

    /// A put of `value` at `key`, once its write-ahead log record was written with
    /// outcome `wal_written`. A failed write is the error, and nothing changes.
    /// Otherwise a full memory table is first flushed (the flush is handed back for
    /// the caller to write), then the value goes into the memory table.
    pub fn apply_put(&mut self, key: Vec<u8>, value: Vec<u8>, wal_written: Result<(), StorageError>) -> (r:
        Result<Option<SstableFlush>, StorageError>)
        requires
            wal_written is Ok && old(self)@.memtable.len() >= MEMTABLE_CAPACITY ==> old(self)@.next_table_id
                < u64::MAX,
        ensures
            wal_written matches Err(e) ==> (r matches Err(e2) && e2 == e && final(self)@.memtable
                == old(self)@.memtable && final(self)@.sstables == old(self)@.sstables
                && final(self)@.next_table_id == old(self)@.next_table_id),
            wal_written is Ok && old(self)@.memtable.len() >= MEMTABLE_CAPACITY ==> (r matches Ok(Some(f)) && {
                &&& f.path@ == sstable_path(old(self)@.next_table_id)
                &&& keys_ascending(records_view(f.records@))
                &&& entries_to_map(records_view(f.records@)) == old(self)@.memtable
                &&& final(self)@.memtable == Map::<Seq<u8>, Option<Seq<u8>>>::empty().insert(
                    key@,
                    Some(value@),
                )
                &&& final(self)@.next_table_id == old(self)@.next_table_id + 1
                &&& final(self)@.sstables == old(self)@.sstables.push(
                    sstable_path(old(self)@.next_table_id),
                )
            }),
            wal_written is Ok && old(self)@.memtable.len() < MEMTABLE_CAPACITY ==> (r matches Ok(None)
                && final(self)@.memtable == old(self)@.memtable.insert(key@, Some(value@))
                && final(self)@.sstables == old(self)@.sstables && final(self)@.next_table_id
                == old(self)@.next_table_id),
    {
        if let Err(e) = wal_written {
            return Err(e);
        }
        let flushed = if self.is_full() {
            Some(self.flush_memtable()?)
        } else {
            None
        };
        self.memtable_insert(key, ValueEntry::Put(value));
        Ok(flushed)
    }

    /// A delete of `key`, once its write-ahead log record was written with outcome
    /// `wal_written`. A failed write is the error. Otherwise the delete stands in the
    /// write-ahead log only: the memory table and the sstables stay as they are, so a
    /// read of `key` answers what it answered before the delete.
    pub fn apply_delete(&mut self, key: Vec<u8>, wal_written: Result<(), StorageError>) -> (r: Result<
        (),
        StorageError,
    >)
        ensures
            wal_written matches Err(e) ==> (r matches Err(e2) && e2 == e),
            wal_written is Ok ==> r is Ok,
            final(self)@.memtable == old(self)@.memtable,
            final(self)@.sstables == old(self)@.sstables,
            final(self)@.next_table_id == old(self)@.next_table_id,
    {
        let _ = key;
        if let Err(e) = wal_written {
            return Err(e);
        }
        Ok(())
    }

    /// The number the next sstable gets.
    pub fn next_table_id(&self) -> (r: u64)
        ensures
            r == self@.next_table_id,
    {
        self.next_table_id
    }

    /// The memory table holds at least `MEMTABLE_CAPACITY` keys.
    pub fn is_full(&self) -> (r: bool)
        ensures
            r == (self@.memtable.len() >= MEMTABLE_CAPACITY),
            self@.memtable.dom().finite(),
    {
        let n = self.mem_table.len();
        assert(self@.memtable.dom() =~= self.mem_table@.dom());
        n >= MEMTABLE_CAPACITY
    }
}

} // verus!
