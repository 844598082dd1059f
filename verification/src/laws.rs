//! Properties that hold across the operations of the library.
use crate::cli::{command_of, is_white, lemma_word_len_bounds, word_len, words};
use crate::document::{
    apply_entry, collection_pred, is_selection, member_pred, query_result, replay, Documents, Json, LogEntry,
};
use crate::storage_engine::byte_map::{entries_to_map, key_index, keys_ascending, lemma_entries_to_map_at, lex_lt};
use crate::storage_engine::lsm::{
    decimal, digit_char, lsm_answer, record_lines, records_view, scan_lines, sstable_path, sstables_answer,
    LsmView, SsTableRecord, MEMTABLE_CAPACITY,
};
use crate::storage_engine::StorageError;
use vstd::prelude::*;

verus! {

proof fn lemma_digit_injective(a: nat, b: nat)
    requires
        a < 10,
        b < 10,
        digit_char(a) == digit_char(b),
    ensures
        a == b,
{
    assert(digit_char(a) as u32 == a + 48);
    assert(digit_char(b) as u32 == b + 48);
}

proof fn lemma_decimal_len(n: nat)
    ensures
        decimal(n).len() >= 1,
        n >= 10 ==> decimal(n).len() >= 2,
    decreases n,
{
    if n >= 10 {
        lemma_decimal_len(n / 10);
    }
}

/// Distinct numbers have distinct decimal representations.
pub proof fn law_decimal_injective(a: nat, b: nat)
    requires
        decimal(a) == decimal(b),
    ensures
        a == b,
    decreases a,
{
    lemma_decimal_len(a);
    lemma_decimal_len(b);
    if a < 10 && b < 10 {
        assert(decimal(a) == seq![digit_char(a)]);
        assert(decimal(b) == seq![digit_char(b)]);
        assert(seq![digit_char(a)][0] == digit_char(a));
        assert(seq![digit_char(b)][0] == digit_char(b));
        assert(decimal(a)[0] == decimal(b)[0]);
        lemma_digit_injective(a, b);
    } else if a >= 10 && b >= 10 {
        let da = decimal(a);
        let db = decimal(b);
        assert(da.last() == db.last());
        lemma_digit_injective(a % 10, b % 10);
        assert(da.drop_last() =~= decimal(a / 10));
        assert(db.drop_last() =~= decimal(b / 10));
        law_decimal_injective(a / 10, b / 10);
    }
}

/// Each sstable number gets a path of its own, so a flush never overwrites an
/// earlier sstable.
pub proof fn law_sstable_paths_distinct(a: nat, b: nat)
    requires
        a != b,
    ensures
        sstable_path(a) != sstable_path(b),
{
    if sstable_path(a) == sstable_path(b) {
        let pa = sstable_path(a);
        lemma_decimal_len(a);
        lemma_decimal_len(b);
        assert(pa.len() == 13 + decimal(a).len());
        assert(decimal(a) =~= pa.subrange(9, pa.len() - 4));
        assert(decimal(b) =~= pa.subrange(9, pa.len() - 4));
        law_decimal_injective(a, b);
    }
}

/// Reopening a store replays its commit log: with the record that an add or a
/// delete handed back appended to the log, the replay gives the store as that
/// operation left it.
pub proof fn law_reopen_reproduces_state(log: Seq<LogEntry>, e: LogEntry, after: Documents)
    requires
        after == apply_entry(replay(log), e),
    ensures
        replay(log.push(e)) == after,
{
    assert(log.push(e).drop_last() =~= log);
}

/// The documents after applying the records `es` in order to `m`.
pub open spec fn apply_entries(m: Documents, es: Seq<LogEntry>) -> Documents
    decreases es.len(),
{
    if es.len() == 0 {
        m
    } else {
        apply_entry(apply_entries(m, es.drop_last()), es.last())
    }
}

/// Every add and delete of a session survives reopening: a store opened from `log`,
/// then changed by adds and deletes handing back the records `es` (each leaving the
/// store as `apply_entry` of its record says), is what reopening the log with `es`
/// appended gives.
pub proof fn law_reopen_session(log: Seq<LogEntry>, es: Seq<LogEntry>)
    ensures
        replay(log + es) == apply_entries(replay(log), es),
    decreases es.len(),
{
    if es.len() == 0 {
        assert(log + es =~= log);
    } else {
        assert((log + es).drop_last() =~= log + es.drop_last());
        assert((log + es).last() == es.last());
        law_reopen_session(log, es.drop_last());
    }
}

/// A query without a member filter answers the collection's scan, and one with a
/// filter answers the filtered scan, in the same order.
pub proof fn law_query_is_scan(
    entries: Seq<((Seq<char>, Seq<char>, Seq<char>), Json)>,
    partition_key: Seq<char>,
    collection: Seq<char>,
    name: Seq<char>,
    expected: Json,
)
    ensures
        query_result(entries, partition_key, collection, None) == entries.filter(
            collection_pred(partition_key, collection),
        ),
        query_result(entries, partition_key, collection, Some((name, expected))) == query_result(
            entries,
            partition_key,
            collection,
            None,
        ).filter(member_pred(name, expected)),
{
}

/// A document added is what a read of its key gives back, until it is deleted.
pub proof fn law_read_after_write(m: Documents, e: LogEntry)
    ensures
        e matches LogEntry::Add { key, value } ==> apply_entry(m, e).contains_key(key@) && apply_entry(
            m,
            e,
        )[key@] == value.deep(),
        e matches LogEntry::Delete { key } ==> !apply_entry(m, e).contains_key(key@),
{
}

/// The answer of a query is determined up to order: two answers to the same query
/// on the same documents hold the same pairs, as many of them.
pub proof fn law_selection_determined(
    m: Documents,
    r1: Seq<((Seq<char>, Seq<char>, Seq<char>), Json)>,
    r2: Seq<((Seq<char>, Seq<char>, Seq<char>), Json)>,
    partition_key: Seq<char>,
    collection: Seq<char>,
    filter: Option<(Seq<char>, Json)>,
)
    requires
        is_selection(m, r1, partition_key, collection, filter),
        is_selection(m, r2, partition_key, collection, filter),
    ensures
        r1.to_set() == r2.to_set(),
        r1.len() == r2.len(),
{
    assert forall|x| r1.to_set().contains(x) implies r2.to_set().contains(x) by {
        let i = choose|i: int| 0 <= i < r1.len() && r1[i] == x;
        assert(r1[i] == r1[i]);
        let j = choose|j: int| 0 <= j < r2.len() && r2[j].0 == x.0;
        assert(r2[j] == r2[j]);
        assert(r2[j] == x);
    }
    assert forall|x| r2.to_set().contains(x) implies r1.to_set().contains(x) by {
        let i = choose|i: int| 0 <= i < r2.len() && r2[i] == x;
        assert(r2[i] == r2[i]);
        let j = choose|j: int| 0 <= j < r1.len() && r1[j].0 == x.0;
        assert(r1[j] == r1[j]);
        assert(r1[j] == x);
    }
    assert(r1.to_set() =~= r2.to_set());
    r1.unique_seq_to_set();
    r2.unique_seq_to_set();
}

/// The documents of a collection that pass a member filter are among those of the
/// collection.
pub proof fn law_filter_within_collection(
    m: Documents,
    filtered: Seq<((Seq<char>, Seq<char>, Seq<char>), Json)>,
    all: Seq<((Seq<char>, Seq<char>, Seq<char>), Json)>,
    partition_key: Seq<char>,
    collection: Seq<char>,
    filter: (Seq<char>, Json),
)
    requires
        is_selection(m, filtered, partition_key, collection, Some(filter)),
        is_selection(m, all, partition_key, collection, None),
    ensures
        filtered.to_set().subset_of(all.to_set()),
{
    assert forall|x| filtered.to_set().contains(x) implies all.to_set().contains(x) by {
        let i = choose|i: int| 0 <= i < filtered.len() && filtered[i] == x;
        assert(filtered[i] == filtered[i]);
        let j = choose|j: int| 0 <= j < all.len() && all[j].0 == x.0;
        assert(all[j] == all[j]);
        assert(all[j] == x);
    }
}

/// After a put of `value` at `key` (flushing or not), a read of `key` answers
/// `value`, whatever the sstables hold.
pub proof fn law_lsm_read_after_put(
    before: LsmView,
    after: LsmView,
    tables: Seq<Seq<Result<SsTableRecord, StorageError>>>,
    key: Seq<u8>,
    value: Seq<u8>,
)
    requires
        after.memtable == before.memtable.insert(key, Some(value)) || after.memtable == Map::<
            Seq<u8>,
            Option<Seq<u8>>,
        >::empty().insert(key, Some(value)),
    ensures
        lsm_answer(after, tables, key) == Ok::<Option<Seq<u8>>, StorageError>(Some(value)),
{
}

/// A delete leaves every read answering as before it.
pub proof fn law_lsm_delete_keeps_reads(
    before: LsmView,
    after: LsmView,
    tables: Seq<Seq<Result<SsTableRecord, StorageError>>>,
    key: Seq<u8>,
)
    requires
        after.memtable == before.memtable,
        after.next_table_id == before.next_table_id,
    ensures
        lsm_answer(after, tables, key) == lsm_answer(before, tables, key),
{
}

/// The scan of an sstable stops at the first record of the key: two tables whose
/// lines agree up to and including that record scan alike, whatever follows.
pub proof fn law_scan_stops_at_first_record(
    a: Seq<Result<SsTableRecord, StorageError>>,
    b: Seq<Result<SsTableRecord, StorageError>>,
    key: Seq<u8>,
    i: int,
)
    requires
        0 <= i < a.len(),
        i < b.len(),
        a.take(i + 1) == b.take(i + 1),
        a[i] matches Ok(rec) && rec.key@ == key,
    ensures
        scan_lines(a, key) == scan_lines(b, key),
    decreases i,
{
    assert(a[0] == a.take(i + 1)[0]);
    assert(b[0] == b.take(i + 1)[0]);
    if i > 0 {
        assert(a.drop_first().take(i) =~= a.take(i + 1).drop_first());
        assert(b.drop_first().take(i) =~= b.take(i + 1).drop_first());
        assert(a.drop_first()[i - 1] == a[i]);
        law_scan_stops_at_first_record(a.drop_first(), b.drop_first(), key, i - 1);
    }
}

/// Scanning the lines written from a flush's records (keys ascending) finds what the
/// flushed memory table held for the key: its value, `None` for a deletion mark,
/// `None` for a key it did not hold.
pub proof fn law_scan_of_flushed_table(records: Seq<SsTableRecord>, key: Seq<u8>)
    requires
        keys_ascending(records_view(records)),
    ensures
        scan_lines(record_lines(records), key) == Ok::<Option<Seq<u8>>, StorageError>(
            if entries_to_map(records_view(records)).contains_key(key) {
                entries_to_map(records_view(records))[key]
            } else {
                None
            },
        ),
    decreases records.len(),
{
    let rv = records_view(records);
    let m = entries_to_map(rv);
    if records.len() > 0 {
        let rest = records.drop_first();
        let rrv = records_view(rest);
        let mr = entries_to_map(rrv);
        assert(record_lines(records)[0] == Ok::<SsTableRecord, StorageError>(records[0]));
        assert(record_lines(records).drop_first() =~= record_lines(rest));
        assert(rrv =~= rv.drop_first());
        assert(keys_ascending(rrv)) by {
            assert forall|i: int, j: int| 0 <= i < j < rrv.len() implies lex_lt(#[trigger] rrv[i].0, #[trigger] rrv[j].0) by {
                assert(lex_lt(rv[i + 1].0, rv[j + 1].0));
            }
        }
        if records[0].key@ == key {
            lemma_entries_to_map_at(rv, 0);
        } else {
            law_scan_of_flushed_table(rest, key);
            if m.contains_key(key) {
                let j = key_index(rv, key);
                assert(rv[j].0 == key);
                assert(j != 0);
                lemma_entries_to_map_at(rv, j);
                lemma_entries_to_map_at(rrv, j - 1);
            }
            if mr.contains_key(key) {
                let j = key_index(rrv, key);
                assert(rrv[j].0 == key);
                assert(rv[j + 1].0 == key);
            }
        }
    }
}

/// The answer of the sstables when each holds what a flush wrote: `tables[i]` holds
/// the lines written from `records[i]`, which describe the map `flushed[i]`.
pub open spec fn flushed_tables(
    tables: Seq<Seq<Result<SsTableRecord, StorageError>>>,
    records: Seq<Seq<SsTableRecord>>,
    flushed: Seq<Map<Seq<u8>, Option<Seq<u8>>>>,
) -> bool {
    &&& tables.len() == records.len()
    &&& records.len() == flushed.len()
    &&& forall|i: int| #![trigger records[i]] 0 <= i < records.len() ==> {
        &&& tables[i] == record_lines(records[i])
        &&& keys_ascending(records_view(records[i]))
        &&& entries_to_map(records_view(records[i])) == flushed[i]
    }
}

/// What the flushed memory tables `flushed[0..id]` answer for `key`, newest first:
/// the first that holds a value for it; one without the key, or with a deletion
/// mark, passes the read on.
pub open spec fn flushed_answer(flushed: Seq<Map<Seq<u8>, Option<Seq<u8>>>>, id: nat, key: Seq<u8>) -> Option<
    Seq<u8>,
>
    decreases id,
{
    if id == 0 {
        None
    } else if flushed[id - 1].contains_key(key) && flushed[id - 1][key] is Some {
        flushed[id - 1][key]
    } else {
        flushed_answer(flushed, (id - 1) as nat, key)
    }
}

/// When every sstable holds what its flush wrote, the sstables answer what the
/// flushed memory tables held: reading them never fails.
pub proof fn law_flushed_tables_answer(
    tables: Seq<Seq<Result<SsTableRecord, StorageError>>>,
    records: Seq<Seq<SsTableRecord>>,
    flushed: Seq<Map<Seq<u8>, Option<Seq<u8>>>>,
    id: nat,
    key: Seq<u8>,
)
    requires
        flushed_tables(tables, records, flushed),
        id <= tables.len(),
    ensures
        sstables_answer(tables, id, key) == Ok::<Option<Seq<u8>>, StorageError>(flushed_answer(flushed, id, key)),
    decreases id,
{
    if id > 0 {
        let i = id - 1;
        assert(tables[i] == record_lines(records[i]));
        law_scan_of_flushed_table(records[i], key);
        law_flushed_tables_answer(tables, records, flushed, (id - 1) as nat, key);
    }
}

/// A put or a delete, as a session of the LSM engine issues it.
pub enum LsmOp {
    Put(Seq<u8>, Seq<u8>),
    Delete(Seq<u8>),
}

/// The state of an LSM engine as its operations shape it: the memory table, and the
/// memory tables flushed so far, oldest first (the `n`-th is sstable `n`).
pub struct LsmModel {
    pub memtable: Map<Seq<u8>, Option<Seq<u8>>>,
    pub flushed: Seq<Map<Seq<u8>, Option<Seq<u8>>>>,
}

/// What one operation does, as `apply_put` and `apply_delete` state it when the
/// write-ahead log write succeeds.
pub open spec fn model_step(m: LsmModel, op: LsmOp) -> LsmModel {
    match op {
        LsmOp::Put(k, v) => if m.memtable.len() >= MEMTABLE_CAPACITY {
            LsmModel {
                memtable: Map::<Seq<u8>, Option<Seq<u8>>>::empty().insert(k, Some(v)),
                flushed: m.flushed.push(m.memtable),
            }
        } else {
            LsmModel { memtable: m.memtable.insert(k, Some(v)), flushed: m.flushed }
        },
        LsmOp::Delete(_) => m,
    }
}

/// The state after a session of operations on a new engine.
pub open spec fn model_run(ops: Seq<LsmOp>) -> LsmModel
    decreases ops.len(),
{
    if ops.len() == 0 {
        LsmModel { memtable: Map::empty(), flushed: Seq::empty() }
    } else {
        model_step(model_run(ops.drop_last()), ops.last())
    }
}

/// What a read of `key` answers in state `m`.
pub open spec fn model_answer(m: LsmModel, key: Seq<u8>) -> Option<Seq<u8>> {
    if m.memtable.contains_key(key) {
        m.memtable[key]
    } else {
        flushed_answer(m.flushed, m.flushed.len(), key)
    }
}

/// The operation names `key`.
pub open spec fn names(op: LsmOp, key: Seq<u8>) -> bool {
    match op {
        LsmOp::Put(k, _) => k == key,
        LsmOp::Delete(k) => k == key,
    }
}

proof fn lemma_flushed_answer_push(
    flushed: Seq<Map<Seq<u8>, Option<Seq<u8>>>>,
    t: Map<Seq<u8>, Option<Seq<u8>>>,
    id: nat,
    key: Seq<u8>,
)
    requires
        id <= flushed.len(),
    ensures
        flushed_answer(flushed.push(t), id, key) == flushed_answer(flushed, id, key),
    decreases id,
{
    if id > 0 {
        assert(flushed.push(t)[id - 1] == flushed[id - 1]);
        lemma_flushed_answer_push(flushed, t, (id - 1) as nat, key);
    }
}

/// An operation that does not name `key` leaves a read of `key` answering a value as
/// before.
proof fn lemma_step_keeps_answer(m: LsmModel, op: LsmOp, key: Seq<u8>, v: Seq<u8>)
    requires
        !names(op, key),
        model_answer(m, key) == Some(v),
    ensures
        model_answer(model_step(m, op), key) == Some(v),
{
    match op {
        LsmOp::Put(k, w) => {
            if m.memtable.len() >= MEMTABLE_CAPACITY {
                let n = model_step(m, op);
                assert(!n.memtable.contains_key(key));
                assert(n.flushed[m.flushed.len() as int] == m.memtable);
                if !m.memtable.contains_key(key) {
                    lemma_flushed_answer_push(m.flushed, m.memtable, m.flushed.len(), key);
                }
            }
        },
        LsmOp::Delete(_) => {},
    }
}

/// The newest put of a key is what a read of it finds: after a session whose last
/// operation naming `key` is a put of `value`, the read answers `value`, from the
/// memory table or, once flushed, from the newest sstable that holds the key.
pub proof fn law_newest_put_found(ops: Seq<LsmOp>, i: int, key: Seq<u8>, value: Seq<u8>)
    requires
        0 <= i < ops.len(),
        ops[i] == LsmOp::Put(key, value),
        forall|j: int| i < j < ops.len() ==> !names(#[trigger] ops[j], key),
    ensures
        model_answer(model_run(ops), key) == Some(value),
    decreases ops.len(),
{
    let prev = ops.drop_last();
    if i == ops.len() - 1 {
        assert(ops.last() == LsmOp::Put(key, value));
    } else {
        assert forall|j: int| i < j < prev.len() implies !names(#[trigger] prev[j], key) by {
            assert(prev[j] == ops[j]);
        }
        law_newest_put_found(prev, i, key, value);
        lemma_step_keeps_answer(model_run(prev), ops.last(), key, value);
    }
}

/// An engine, its sstable files and a session's state correspond: the memory tables
/// agree, and sstable `n` holds what the `n`-th flush wrote.
pub open spec fn corresponds(
    v: LsmView,
    m: LsmModel,
    tables: Seq<Seq<Result<SsTableRecord, StorageError>>>,
    records: Seq<Seq<SsTableRecord>>,
) -> bool {
    &&& v.memtable == m.memtable
    &&& v.next_table_id == m.flushed.len() + 1
    &&& flushed_tables(tables, records, m.flushed)
}

/// A put keeps an engine in step with its session: with the records of a flush, if
/// `apply_put` handed one back, written as the next sstable, the engine after the put
/// corresponds to the session's state after it.
pub proof fn law_put_follows_session(
    before: LsmView,
    after: LsmView,
    m: LsmModel,
    tables: Seq<Seq<Result<SsTableRecord, StorageError>>>,
    records: Seq<Seq<SsTableRecord>>,
    flush: Option<Seq<SsTableRecord>>,
    key: Seq<u8>,
    value: Seq<u8>,
)
    requires
        corresponds(before, m, tables, records),
        before.memtable.len() >= MEMTABLE_CAPACITY ==> (flush matches Some(r) && keys_ascending(
            records_view(r),
        ) && entries_to_map(records_view(r)) == before.memtable && after.memtable == Map::<
            Seq<u8>,
            Option<Seq<u8>>,
        >::empty().insert(key, Some(value)) && after.next_table_id == before.next_table_id + 1),
        before.memtable.len() < MEMTABLE_CAPACITY ==> (flush is None && after.memtable
            == before.memtable.insert(key, Some(value)) && after.next_table_id == before.next_table_id),
    ensures
        corresponds(
            after,
            model_step(m, LsmOp::Put(key, value)),
            match flush {
                Some(r) => tables.push(record_lines(r)),
                None => tables,
            },
            match flush {
                Some(r) => records.push(r),
                None => records,
            },
        ),
{
    if let Some(r) = flush {
        let t2 = tables.push(record_lines(r));
        let r2 = records.push(r);
        let f2 = m.flushed.push(m.memtable);
        assert forall|i: int| #![trigger r2[i]] 0 <= i < r2.len() implies {
            &&& t2[i] == record_lines(r2[i])
            &&& keys_ascending(records_view(r2[i]))
            &&& entries_to_map(records_view(r2[i])) == f2[i]
        } by {
            if i < records.len() {
                assert(records[i] == r2[i]);
            }
        }
    }
}

/// A delete keeps an engine in step with its session.
pub proof fn law_delete_follows_session(
    before: LsmView,
    after: LsmView,
    m: LsmModel,
    tables: Seq<Seq<Result<SsTableRecord, StorageError>>>,
    records: Seq<Seq<SsTableRecord>>,
    key: Seq<u8>,
)
    requires
        corresponds(before, m, tables, records),
        after.memtable == before.memtable,
        after.next_table_id == before.next_table_id,
    ensures
        corresponds(after, model_step(m, LsmOp::Delete(key)), tables, records),
{
}

/// A whole read on an engine in the state of a session, with every sstable holding
/// what its flush wrote, answers what the session's state answers; so by
/// `law_newest_put_found` it finds the newest put of the key.
pub proof fn law_read_answers_session_state(
    v: LsmView,
    m: LsmModel,
    tables: Seq<Seq<Result<SsTableRecord, StorageError>>>,
    records: Seq<Seq<SsTableRecord>>,
    key: Seq<u8>,
)
    requires
        v.memtable == m.memtable,
        v.next_table_id == m.flushed.len() + 1,
        flushed_tables(tables, records, m.flushed),
    ensures
        lsm_answer(v, tables, key) == Ok::<Option<Seq<u8>>, StorageError>(model_answer(m, key)),
{
    if !v.memtable.contains_key(key) {
        law_flushed_tables_answer(tables, records, m.flushed, m.flushed.len(), key);
    }
}

proof fn lemma_word_len_push(s: Seq<char>, c: char)
    requires
        is_white(c),
    ensures
        word_len(s.push(c)) == word_len(s),
    decreases s.len(),
{
    if s.len() > 0 && !is_white(s[0]) {
        assert(s.push(c).drop_first() =~= s.drop_first().push(c));
        lemma_word_len_push(s.drop_first(), c);
    }
}

/// White space at the end of a line (such as the line break that reading a console
/// line keeps) does not change its words.
pub proof fn law_words_ignore_trailing_white(s: Seq<char>, c: char)
    requires
        is_white(c),
    ensures
        words(s.push(c)) == words(s),
    decreases s.len(),
{
    let t = s.push(c);
    if s.len() == 0 {
        assert(t.drop_first() =~= s);
        assert(t[0] == c);
        assert(words(t) == words(t.drop_first()));
    } else if is_white(s[0]) {
        assert(t.drop_first() =~= s.drop_first().push(c));
        assert(t[0] == s[0]);
        law_words_ignore_trailing_white(s.drop_first(), c);
    } else {
        assert(t[0] == s[0]);
        lemma_word_len_push(s, c);
        lemma_word_len_bounds(s);
        let n = word_len(s);
        assert(t.take(n as int) =~= s.take(n as int));
        assert(t.skip(n as int) =~= s.skip(n as int).push(c));
        law_words_ignore_trailing_white(s.skip(n as int), c);
        assert(words(t) == seq![t.take(n as int)] + words(t.skip(n as int)));
    }
}

/// A console line means the same command with or without white space at its end.
pub proof fn law_command_ignores_trailing_white(s: Seq<char>, c: char)
    requires
        is_white(c),
    ensures
        command_of(words(s.push(c))) == command_of(words(s)),
{
    law_words_ignore_trailing_white(s, c);
}

/// In a key-value engine whose contents are a map, a read after a put of `value`
/// at `key` gives `value`, a read after a delete of `key` gives nothing, and either
/// leaves every other key as it was.
pub proof fn law_engine_read_after_write(m: Map<Seq<u8>, Seq<u8>>, key: Seq<u8>, value: Seq<u8>, other: Seq<u8>)
    ensures
        m.insert(key, value).contains_key(key),
        m.insert(key, value)[key] == value,
        !m.remove(key).contains_key(key),
        other != key ==> m.insert(key, value).contains_key(other) == m.contains_key(other),
        other != key && m.contains_key(other) ==> m.insert(key, value)[other] == m[other],
        other != key ==> m.remove(key).contains_key(other) == m.contains_key(other),
        other != key && m.contains_key(other) ==> m.remove(key)[other] == m[other],
{
}

/// Puts keep the memory table within its capacity: a put into a full table
/// flushes it first, so it then holds the one key put.
pub proof fn law_puts_keep_memtable_within_capacity(
    before: LsmView,
    after: LsmView,
    key: Seq<u8>,
    value: Seq<u8>,
)
    requires
        before.memtable.dom().finite(),
        before.memtable.len() >= MEMTABLE_CAPACITY ==> after.memtable == Map::<
            Seq<u8>,
            Option<Seq<u8>>,
        >::empty().insert(key, Some(value)),
        before.memtable.len() < MEMTABLE_CAPACITY ==> after.memtable == before.memtable.insert(
            key,
            Some(value),
        ),
    ensures
        after.memtable.dom().finite(),
        after.memtable.len() <= MEMTABLE_CAPACITY,
{
    if before.memtable.len() >= MEMTABLE_CAPACITY {
        let e = Map::<Seq<u8>, Option<Seq<u8>>>::empty();
        assert(e.dom() =~= Set::<Seq<u8>>::empty());
        assert(after.memtable.dom() =~= Set::<Seq<u8>>::empty().insert(key));
    } else {
        assert(after.memtable.dom() =~= before.memtable.dom().insert(key));
    }
}

} // verus!
