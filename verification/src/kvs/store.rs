//! The store: the bytes of the log, the index of the live records, and the
//! count of records that compaction would drop.

use crate::kvs::codec::{
    decode_record, encode_record, lemma_stable_reads, parse_record, record_bytes, record_written,
    stable_record, Decoded, Parsed,
};
use crate::kvs::error::ErrorKind;
use crate::kvs::log::{tombstone_text, LogEntry};
use vstd::prelude::*;
use vstd::slice::slice_subrange;

verus! {

/// The number of dropped records above which the log is compacted.
pub const COMPACTION_THRESHOLD: u64 = 1024;

/// Where a record lies in the log.
#[derive(Debug, Clone, Copy)]
pub struct Location {
    pub position: usize,
    pub length: usize,
}

/// A key with the place of its latest live record.
#[derive(Debug)]
pub struct IndexEntry {
    pub key: String,
    pub location: Location,
}

/// A record of the log as mathematical values.
pub struct RecordView {
    pub key: Seq<char>,
    pub value: Seq<char>,
    pub bytes: Seq<u8>,
}

/// The bytes of the records, one after the other.
pub open spec fn concat_records(records: Seq<RecordView>) -> Seq<u8>
    decreases records.len(),
{
    if records.len() == 0 {
        Seq::empty()
    } else {
        concat_records(records.drop_last()) + records.last().bytes
    }
}

/// The map after one record: a tombstone removes its key, any other value
/// is set.
pub open spec fn apply_entry(
    map: Map<Seq<char>, Seq<char>>,
    key: Seq<char>,
    value: Seq<char>,
) -> Map<Seq<char>, Seq<char>> {
    if value == tombstone_text() {
        map.remove(key)
    } else {
        map.insert(key, value)
    }
}

/// The map that the records describe, read first to last.
pub open spec fn live_map(records: Seq<RecordView>) -> Map<Seq<char>, Seq<char>>
    decreases records.len(),
{
    if records.len() == 0 {
        Map::empty()
    } else {
        apply_entry(live_map(records.drop_last()), records.last().key, records.last().value)
    }
}

/// The map that the bytes of `log` from `pos` on make of `map`, record by
/// record, or `None` where bytes that are no record stand in the way.
pub open spec fn replay_from(
    log: Seq<u8>,
    pos: int,
    map: Map<Seq<char>, Seq<char>>,
) -> Option<Map<Seq<char>, Seq<char>>>
    decreases log.len() - pos,
{
    if pos < 0 || pos >= log.len() {
        Some(map)
    } else {
        match parse_record(log.skip(pos)) {
            Parsed::Entry { key, value, len } => if len <= 0 {
                None
            } else {
                replay_from(log, pos + len, apply_entry(map, key, value))
            },
            _ => None,
        }
    }
}

/// The count of dropped records after the bytes of `log` from `pos` on
/// have been replayed onto `map` and `dirty`: a tombstone counts, and so
/// does a record whose key already has a value.
pub open spec fn dirty_from(
    log: Seq<u8>,
    pos: int,
    map: Map<Seq<char>, Seq<char>>,
    dirty: nat,
) -> nat
    decreases log.len() - pos,
{
    if pos < 0 || pos >= log.len() {
        dirty
    } else {
        match parse_record(log.skip(pos)) {
            Parsed::Entry { key, value, len } => if len <= 0 {
                dirty
            } else {
                dirty_from(
                    log,
                    pos + len,
                    apply_entry(map, key, value),
                    dirty + shadows(map, key, value),
                )
            },
            _ => dirty,
        }
    }
}

/// Whether a record of `key` and `value` on top of `map` drops a record:
/// 1 if it does, 0 if not.
pub open spec fn shadows(map: Map<Seq<char>, Seq<char>>, key: Seq<char>, value: Seq<char>) -> nat {
    if value == tombstone_text() || map.contains_key(key) {
        1
    } else {
        0
    }
}

/// The count of dropped records in a log.
pub open spec fn replay_dirty(log: Seq<u8>) -> nat {
    dirty_from(log, 0, Map::empty(), 0)
}

/// The map that a log describes, or `None` for a log that is not made of
/// records alone.
pub open spec fn replay(log: Seq<u8>) -> Option<Map<Seq<char>, Seq<char>>> {
    replay_from(log, 0, Map::empty())
}

/// The bytes that the records of the index take.
pub open spec fn indexed_bytes(index: Seq<IndexEntry>) -> nat
    decreases index.len(),
{
    if index.len() == 0 {
        0
    } else {
        indexed_bytes(index.drop_last()) + index.last().location.length as nat
    }
}

/// The bytes of the records that the index points at in `log`, one after
/// the other in the order of the index.
pub open spec fn live_bytes(index: Seq<IndexEntry>, log: Seq<u8>) -> Seq<u8>
    decreases index.len(),
{
    if index.len() == 0 {
        Seq::empty()
    } else {
        live_bytes(index.drop_last(), log) + log.subrange(
            index.last().location.position as int,
            index.last().location.position + index.last().location.length,
        )
    }
}

/// Whether `packed` is `index` with each record moved up to the end of the
/// one before it: the same keys, the same lengths, and each position the
/// sum of the lengths before it.
pub open spec fn packed_index(index: Seq<IndexEntry>, packed: Seq<IndexEntry>) -> bool {
    &&& packed.len() == index.len()
    &&& forall|j: int|
        0 <= j < index.len() ==> {
            &&& (#[trigger] packed[j]).key@ == index[j].key@
            &&& packed[j].location.length == index[j].location.length
            &&& packed[j].location.position == indexed_bytes(index.take(j))
        }
}

/// Whether the index holds `key` with its record at `position`, `length`
/// bytes long.
pub open spec fn points_at(index: Seq<IndexEntry>, key: Seq<char>, position: int, length: int) -> bool {
    exists|i: int|
        0 <= i < index.len() && (#[trigger] index[i]).key@ == key && index[i].location.position
            == position && index[i].location.length == length
}

/// Whether `after` is `before` with `key` pointed at the record at
/// `position`, `length` bytes long, and every other key where it was.
pub open spec fn index_put_to(
    before: Seq<IndexEntry>,
    after: Seq<IndexEntry>,
    key: Seq<char>,
    position: int,
    length: int,
) -> bool {
    forall|k: Seq<char>, p: int, l: int| #[trigger]
        points_at(after, k, p, l) <==> if k == key {
            p == position && l == length
        } else {
            points_at(before, k, p, l)
        }
}

/// Whether `after` is `before` without `key`, and every other key where it
/// was.
pub open spec fn index_dropped(before: Seq<IndexEntry>, after: Seq<IndexEntry>, key: Seq<char>) -> bool {
    forall|k: Seq<char>, p: int, l: int| #[trigger]
        points_at(after, k, p, l) <==> k != key && points_at(before, k, p, l)
}

/// Where the latest live record of each key lies after the bytes of `log`
/// from `pos` on have been replayed onto `places`: a record puts its key at
/// its own offset with its own length, and a tombstone takes its key out.
pub open spec fn places_from(
    log: Seq<u8>,
    pos: int,
    places: Map<Seq<char>, (int, int)>,
) -> Map<Seq<char>, (int, int)>
    decreases log.len() - pos,
{
    if pos < 0 || pos >= log.len() {
        places
    } else {
        match parse_record(log.skip(pos)) {
            Parsed::Entry { key, value, len } => if len <= 0 {
                places
            } else {
                places_from(
                    log,
                    pos + len,
                    if value == tombstone_text() {
                        places.remove(key)
                    } else {
                        places.insert(key, (pos, len))
                    },
                )
            },
            _ => places,
        }
    }
}

/// Where the latest live record of each key lies in a log.
pub open spec fn replay_places(log: Seq<u8>) -> Map<Seq<char>, (int, int)> {
    places_from(log, 0, Map::empty())
}

/// Whether the index holds just the keys of `places`, each at its place.
pub open spec fn index_holds(index: Seq<IndexEntry>, places: Map<Seq<char>, (int, int)>) -> bool {
    forall|k: Seq<char>, p: int, l: int| #[trigger]
        points_at(index, k, p, l) <==> places.contains_key(k) && places[k] == (p, l)
}

/// What a store shows: the value of each key, the bytes of the log, the
/// index, the count of dropped records, and whether the last change
/// rewrote the log.
pub struct StoreState {
    pub map: Map<Seq<char>, Seq<char>>,
    pub log: Seq<u8>,
    pub index: Seq<IndexEntry>,
    pub dirty: nat,
    pub rewritten: bool,
}

/// What opening a store on `bytes` that are records alone comes to. The
/// store holds what the records describe. The log is compacted exactly if
/// more records are dropped than the threshold allows; else the log is the
/// bytes and each key's entry points at its latest record.
pub open spec fn opened(bytes: Seq<u8>, after: StoreState) -> bool {
    &&& replay(bytes) == Some(after.map)
    &&& after.rewritten == (replay_dirty(bytes) > COMPACTION_THRESHOLD)
    &&& after.dirty == if after.rewritten {
        0
    } else {
        replay_dirty(bytes)
    }
    &&& index_sound(after.index, after.log, after.map)
    &&& if after.rewritten {
        compact_form(after.index, after.log)
    } else {
        after.log == bytes && index_holds(after.index, replay_places(bytes))
    }
}

/// What setting `key` to `value` with the bytes `record` comes to. The key
/// has the value. The count rises by one if the key had a value, and the
/// log is compacted exactly if the count then passes the threshold. Else
/// the record stands at the old end of the log and the key's entry points
/// at it, with every other entry where it was.
pub open spec fn set_done(
    before: StoreState,
    after: StoreState,
    key: Seq<char>,
    value: Seq<char>,
    record: Seq<u8>,
) -> bool {
    &&& after.map == before.map.insert(key, value)
    &&& after.rewritten == (before.dirty + shadows(before.map, key, value) > COMPACTION_THRESHOLD)
    &&& after.dirty == if after.rewritten {
        0
    } else {
        before.dirty + shadows(before.map, key, value)
    }
    &&& index_sound(after.index, after.log, after.map)
    &&& if after.rewritten {
        compact_form(after.index, after.log)
    } else {
        &&& after.log == before.log + record
        &&& index_put_to(
            before.index,
            after.index,
            key,
            before.log.len() as int,
            record.len() as int,
        )
    }
}

/// What removing a `key` that the store holds, with the bytes `record` of
/// its tombstone, comes to. The key is gone. The count rises by one, and
/// the log is compacted exactly if it then passes the threshold. Else the
/// tombstone stands at the old end of the log and the key's entry is gone,
/// with every other entry where it was.
pub open spec fn remove_done(
    before: StoreState,
    after: StoreState,
    key: Seq<char>,
    record: Seq<u8>,
) -> bool {
    &&& after.map == before.map.remove(key)
    &&& after.rewritten == (before.dirty + 1 > COMPACTION_THRESHOLD)
    &&& after.dirty == if after.rewritten {
        0
    } else {
        before.dirty + 1
    }
    &&& index_sound(after.index, after.log, after.map)
    &&& if after.rewritten {
        compact_form(after.index, after.log)
    } else {
        after.log == before.log + record && index_dropped(before.index, after.index, key)
    }
}

/// What removing a key that the store does not hold, with the bytes
/// `record` of its tombstone, comes to: the tombstone stands at the end of
/// the log, the count rises by one, the log is not compacted, and the store
/// holds what it held.
pub open spec fn remove_missed(before: StoreState, after: StoreState, record: Seq<u8>) -> bool {
    &&& after.map == before.map
    &&& after.index == before.index
    &&& after.log == before.log + record
    &&& after.dirty == before.dirty + 1
    &&& !after.rewritten
    &&& index_sound(after.index, after.log, after.map)
}

/// What compaction comes to: the store holds what it held, the log is the
/// records of the index, one behind the other in its order, and the index
/// points at them.
pub open spec fn compacted(before: StoreState, after: StoreState) -> bool {
    &&& after.map == before.map
    &&& after.dirty == 0
    &&& after.rewritten
    &&& after.log == live_bytes(before.index, before.log)
    &&& packed_index(before.index, after.index)
    &&& compact_form(after.index, after.log)
    &&& index_sound(after.index, after.log, after.map)
}

/// Whether `log` is just the records of `index`, one behind the other in
/// the order of the index: what a log is right after compaction.
pub open spec fn compact_form(index: Seq<IndexEntry>, log: Seq<u8>) -> bool {
    &&& packed_index(index, index)
    &&& log.len() == indexed_bytes(index)
    &&& live_bytes(index, log) == log
}

/// The entry points at a whole record of its key in `log`, with the value
/// that `map` gives the key.
pub open spec fn entry_sound(
    entry: IndexEntry,
    log: Seq<u8>,
    map: Map<Seq<char>, Seq<char>>,
) -> bool {
    &&& entry.location.position + entry.location.length <= log.len()
    &&& map.contains_key(entry.key@)
    &&& stable_record(
        log.subrange(
            entry.location.position as int,
            entry.location.position + entry.location.length,
        ),
        entry.key@,
        map[entry.key@],
    )
}

/// The index holds each key of `map` once, and nothing else, and each
/// entry is sound.
pub open spec fn index_sound(
    index: Seq<IndexEntry>,
    log: Seq<u8>,
    map: Map<Seq<char>, Seq<char>>,
) -> bool {
    &&& forall|i: int, j: int|
        0 <= i < j < index.len() ==> (#[trigger] index[i]).key@ != (#[trigger] index[j]).key@
    &&& forall|i: int| 0 <= i < index.len() ==> entry_sound(#[trigger] index[i], log, map)
    &&& forall|k: Seq<char>| #[trigger]
        map.contains_key(k) ==> exists|i: int|
            0 <= i < index.len() && (#[trigger] index[i]).key@ == k
}

/// Each record is stable.
pub open spec fn records_stable(records: Seq<RecordView>) -> bool {
    forall|i: int|
        0 <= i < records.len() ==> stable_record(
            (#[trigger] records[i]).bytes,
            records[i].key,
            records[i].value,
        )
}

/// One more record at the end.
proof fn lemma_push_record(records: Seq<RecordView>, r: RecordView)
    ensures
        concat_records(records.push(r)) == concat_records(records) + r.bytes,
        live_map(records.push(r)) == apply_entry(live_map(records), r.key, r.value),
{
    assert(records.push(r).drop_last() =~= records);
}

/// No live value is the tombstone.
pub proof fn lemma_live_values(records: Seq<RecordView>, key: Seq<char>)
    requires
        live_map(records).contains_key(key),
    ensures
        live_map(records)[key] != tombstone_text(),
    decreases records.len(),
{
    if records.len() > 0 {
        let last = records.last();
        if last.value == tombstone_text() || last.key != key {
            lemma_live_values(records.drop_last(), key);
        }
    }
}

/// Stable records take at least one byte each.
proof fn lemma_records_fill(records: Seq<RecordView>)
    requires
        records_stable(records),
    ensures
        records.len() <= concat_records(records).len(),
    decreases records.len(),
{
    if records.len() > 0 {
        let last = records.last();
        assert(stable_record(last.bytes, last.key, last.value));
        lemma_stable_reads(last.bytes, last.key, last.value);
        assert forall|i: int| 0 <= i < records.drop_last().len() implies stable_record(
            (#[trigger] records.drop_last()[i]).bytes,
            records.drop_last()[i].key,
            records.drop_last()[i].value,
        ) by {
            assert(records.drop_last()[i] == records[i]);
        }
        lemma_records_fill(records.drop_last());
    }
}

/// The first `n` records lie at the front of the log.
proof fn lemma_concat_prefix(records: Seq<RecordView>, n: int)
    requires
        0 <= n <= records.len(),
    ensures
        concat_records(records.take(n)).len() <= concat_records(records).len(),
        concat_records(records).take(concat_records(records.take(n)).len() as int)
            == concat_records(records.take(n)),
    decreases records.len() - n,
{
    let log = concat_records(records);
    if n == records.len() {
        assert(records.take(n) =~= records);
        assert(log.take(log.len() as int) =~= log);
    } else {
        lemma_concat_prefix(records, n + 1);
        lemma_push_record(records.take(n), records[n]);
        assert(records.take(n + 1) =~= records.take(n).push(records[n]));
        let longer = concat_records(records.take(n + 1));
        let shorter = concat_records(records.take(n));
        assert(log.take(shorter.len() as int) =~= log.take(longer.len() as int).take(
            shorter.len() as int,
        ));
        assert(longer.take(shorter.len() as int) =~= shorter);
    }
}

/// Replaying a log of stable records from the end of the first `n` of them
/// gives the map of all of them.
#[verifier::rlimit(60)]
proof fn lemma_replay_records(records: Seq<RecordView>, n: int)
    requires
        records_stable(records),
        0 <= n <= records.len(),
    ensures
        replay_from(
            concat_records(records),
            concat_records(records.take(n)).len() as int,
            live_map(records.take(n)),
        ) == Some(live_map(records)),
    decreases records.len() - n,
{
    let log = concat_records(records);
    let pos = concat_records(records.take(n)).len() as int;
    lemma_concat_prefix(records, n);
    if n == records.len() {
        assert(records.take(n) =~= records);
    } else {
        let r = records[n];
        lemma_concat_prefix(records, n + 1);
        lemma_push_record(records.take(n), r);
        assert(records.take(n + 1) =~= records.take(n).push(r));
        let next = concat_records(records.take(n + 1)).len() as int;
        assert(stable_record(r.bytes, r.key, r.value));
        lemma_stable_reads(r.bytes, r.key, r.value);
        assert(log.take(next) == concat_records(records.take(n)) + r.bytes);
        assert(log.skip(pos) =~= r.bytes + log.skip(next)) by {
            assert(log.take(next).skip(pos) =~= r.bytes);
            assert(log =~= log.take(next) + log.skip(next));
        }
        assert(parse_record(r.bytes + log.skip(next)) == (Parsed::Entry {
            key: r.key,
            value: r.value,
            len: r.bytes.len() as int,
        }));
        lemma_replay_records(records, n + 1);
    }
}

/// The records of a packed index lie one behind the other from the start
/// of the log.
proof fn lemma_packed_prefix(index: Seq<IndexEntry>, log: Seq<u8>, n: int)
    requires
        packed_index(index, index),
        indexed_bytes(index) <= log.len(),
        0 <= n <= index.len(),
    ensures
        indexed_bytes(index.take(n)) <= indexed_bytes(index),
        live_bytes(index.take(n), log) == log.take(indexed_bytes(index.take(n)) as int),
    decreases n,
{
    lemma_indexed_prefix(index, n);
    if n == 0 {
        assert(index.take(0) =~= Seq::<IndexEntry>::empty());
        assert(log.take(0) =~= Seq::<u8>::empty());
    } else {
        lemma_packed_prefix(index, log, n - 1);
        let front = index.take(n - 1);
        let upto = index.take(n);
        let entry = index[n - 1];
        assert(upto.drop_last() =~= front);
        assert(upto.last() == entry);
        let start = indexed_bytes(front) as int;
        let end = indexed_bytes(upto) as int;
        assert(entry.location.position == start);
        assert(end == start + entry.location.length);
        assert(end <= log.len());
        lemma_take_grows(log, start, end);
    }
}

/// A longer front of a sequence is a shorter front and the stretch between.
proof fn lemma_take_grows(log: Seq<u8>, start: int, end: int)
    requires
        0 <= start <= end <= log.len(),
    ensures
        log.take(end) == log.take(start) + log.subrange(start, end),
{
    assert(log.take(end) =~= log.take(start) + log.subrange(start, end));
}

/// The first entries of an index take no more bytes than all of them.
proof fn lemma_indexed_prefix(index: Seq<IndexEntry>, n: int)
    requires
        0 <= n <= index.len(),
    ensures
        indexed_bytes(index.take(n)) <= indexed_bytes(index),
    decreases index.len() - n,
{
    if n == index.len() {
        assert(index.take(n) =~= index);
    } else {
        lemma_indexed_prefix(index, n + 1);
        assert(index.take(n + 1).drop_last() =~= index.take(n));
    }
}

/// Compaction settles: a log that is just the records of its packed index
/// is what compaction makes of it, and the index stays where it is.
pub proof fn law_compaction_settles(index: Seq<IndexEntry>, log: Seq<u8>)
    requires
        packed_index(index, index),
        log.len() == indexed_bytes(index),
    ensures
        live_bytes(index, log) == log,
{
    lemma_packed_prefix(index, log, index.len() as int);
    assert(index.take(index.len() as int) =~= index);
    assert(log.take(log.len() as int) =~= log);
}

/// What compaction makes of an index is packed.
pub proof fn law_compacted_is_packed(index: Seq<IndexEntry>, packed: Seq<IndexEntry>)
    requires
        packed_index(index, packed),
    ensures
        packed_index(packed, packed),
        indexed_bytes(packed) == indexed_bytes(index),
{
    assert forall|j: int| 0 <= j <= index.len() implies #[trigger] indexed_bytes(packed.take(j))
        == indexed_bytes(index.take(j)) by {
        lemma_same_lengths(index, packed, j);
    }
    assert(index.take(index.len() as int) =~= index);
    assert(packed.take(packed.len() as int) =~= packed);
}

/// Indexes with the same lengths take the same bytes.
proof fn lemma_same_lengths(index: Seq<IndexEntry>, packed: Seq<IndexEntry>, n: int)
    requires
        packed_index(index, packed),
        0 <= n <= index.len(),
    ensures
        indexed_bytes(packed.take(n)) == indexed_bytes(index.take(n)),
    decreases n,
{
    if n == 0 {
        assert(index.take(0) =~= Seq::<IndexEntry>::empty());
        assert(packed.take(0) =~= Seq::<IndexEntry>::empty());
    } else {
        lemma_same_lengths(index, packed, n - 1);
        assert(index.take(n).drop_last() =~= index.take(n - 1));
        assert(packed.take(n).drop_last() =~= packed.take(n - 1));
        assert(packed.take(n).last() == packed[n - 1]);
        assert(index.take(n).last() == index[n - 1]);
    }
}

/// An entry that is sound in a log is sound in any log that begins with
/// it.
proof fn lemma_entry_extends(
    entry: IndexEntry,
    log: Seq<u8>,
    longer: Seq<u8>,
    map: Map<Seq<char>, Seq<char>>,
)
    requires
        entry_sound(entry, log, map),
        log.len() <= longer.len(),
        longer.take(log.len() as int) == log,
    ensures
        entry_sound(entry, longer, map),
{
    let start = entry.location.position as int;
    let end = entry.location.position + entry.location.length;
    assert(longer.subrange(start, end) =~= longer.take(log.len() as int).subrange(start, end));
}

/// The place of `key` in the index, if it has one.
fn find(index: &Vec<IndexEntry>, key: &String) -> (r: Option<usize>)
    ensures
        match r {
            Some(i) => i < index@.len() && index@[i as int].key@ == key@,
            None => forall|j: int| 0 <= j < index@.len() ==> (#[trigger] index@[j]).key@ != key@,
        },
{
    let mut i: usize = 0;
    while i < index.len()
        invariant
            i <= index.len(),
            forall|j: int| 0 <= j < i ==> (#[trigger] index@[j]).key@ != key@,
        decreases index.len() - i,
    {
        if index[i].key == *key {
            return Some(i);
        }
        i = i + 1;
    }
    None
}

/// Points `key` at `location`, and says whether the key had an entry.
fn index_put(
    index: &mut Vec<IndexEntry>,
    key: String,
    location: Location,
    Ghost(log): Ghost<Seq<u8>>,
    Ghost(map): Ghost<Map<Seq<char>, Seq<char>>>,
    Ghost(value): Ghost<Seq<char>>,
) -> (shadowed: bool)
    requires
        index_sound(old(index)@, log, map),
        location.position + location.length <= log.len(),
        stable_record(
            log.subrange(location.position as int, location.position + location.length),
            key@,
            value,
        ),
    ensures
        index_sound(final(index)@, log, map.insert(key@, value)),
        shadowed == map.contains_key(key@),
        index_put_to(
            old(index)@,
            final(index)@,
            key@,
            location.position as int,
            location.length as int,
        ),
{
    let ghost before = index@;
    let ghost after = map.insert(key@, value);
    let ghost text = key@;
    match find(index, &key) {
        Some(i) => {
            index.set(i, IndexEntry { key, location });
            proof {
                let now = index@;
                assert(entry_sound(before[i as int], log, map));
                assert forall|a: int, b: int| 0 <= a < b < now.len() implies (#[trigger] now[a]).key@
                    != (#[trigger] now[b]).key@ by {
                    assert(now[a].key@ == before[a].key@);
                    assert(now[b].key@ == before[b].key@);
                }
                assert forall|j: int| 0 <= j < now.len() implies entry_sound(
                    #[trigger] now[j],
                    log,
                    after,
                ) by {
                    if j != i {
                        assert(now[j] == before[j]);
                        assert(entry_sound(before[j], log, map));
                        if j < i {
                            assert(before[j].key@ != before[i as int].key@);
                        } else {
                            assert(before[i as int].key@ != before[j].key@);
                        }
                    }
                }
                assert forall|k: Seq<char>| #[trigger] after.contains_key(k) implies exists|j: int|
                    0 <= j < now.len() && (#[trigger] now[j]).key@ == k by {
                    if k == text {
                        assert(now[i as int].key@ == k);
                    } else {
                        assert(map.contains_key(k));
                        let j = choose|j: int|
                            0 <= j < before.len() && (#[trigger] before[j]).key@ == k;
                        assert(now[j].key@ == k);
                    }
                }
                assert forall|k: Seq<char>, p: int, l: int| #[trigger]
                    points_at(now, k, p, l) <==> if k == text {
                        p == location.position && l == location.length
                    } else {
                        points_at(before, k, p, l)
                    } by {
                    if points_at(now, k, p, l) {
                        let j = choose|j: int|
                            0 <= j < now.len() && (#[trigger] now[j]).key@ == k
                                && now[j].location.position == p && now[j].location.length == l;
                        if j != i {
                            assert(now[j] == before[j]);
                            if j < i {
                                assert(now[j].key@ != now[i as int].key@);
                            } else {
                                assert(now[i as int].key@ != now[j].key@);
                            }
                        }
                    }
                    if k == text {
                        assert(now[i as int].key@ == text);
                    } else if points_at(before, k, p, l) {
                        let j = choose|j: int|
                            0 <= j < before.len() && (#[trigger] before[j]).key@ == k
                                && before[j].location.position == p && before[j].location.length
                                == l;
                        assert(now[j] == before[j]);
                    }
                }
            }
            true
        },
        None => {
            index.push(IndexEntry { key, location });
            proof {
                let now = index@;
                if map.contains_key(text) {
                    let j = choose|j: int|
                        0 <= j < before.len() && (#[trigger] before[j]).key@ == text;
                    assert(false);
                }
                assert forall|a: int, b: int| 0 <= a < b < now.len() implies (#[trigger] now[a]).key@
                    != (#[trigger] now[b]).key@ by {
                    assert(now[a] == before[a]);
                    if b < before.len() {
                        assert(now[b] == before[b]);
                    }
                }
                assert forall|j: int| 0 <= j < now.len() implies entry_sound(
                    #[trigger] now[j],
                    log,
                    after,
                ) by {
                    if j < before.len() {
                        assert(now[j] == before[j]);
                        assert(entry_sound(before[j], log, map));
                    }
                }
                assert forall|k: Seq<char>| #[trigger] after.contains_key(k) implies exists|j: int|
                    0 <= j < now.len() && (#[trigger] now[j]).key@ == k by {
                    if k == text {
                        assert(now[before.len() as int].key@ == k);
                    } else {
                        assert(map.contains_key(k));
                        let j = choose|j: int|
                            0 <= j < before.len() && (#[trigger] before[j]).key@ == k;
                        assert(now[j].key@ == k);
                    }
                }
                assert forall|k: Seq<char>, p: int, l: int| #[trigger]
                    points_at(now, k, p, l) <==> if k == text {
                        p == location.position && l == location.length
                    } else {
                        points_at(before, k, p, l)
                    } by {
                    let last = before.len() as int;
                    if points_at(now, k, p, l) {
                        let j = choose|j: int|
                            0 <= j < now.len() && (#[trigger] now[j]).key@ == k
                                && now[j].location.position == p && now[j].location.length == l;
                        if j < last {
                            assert(now[j] == before[j]);
                        }
                    }
                    if k == text {
                        assert(now[last].key@ == text);
                    } else if points_at(before, k, p, l) {
                        let j = choose|j: int|
                            0 <= j < before.len() && (#[trigger] before[j]).key@ == k
                                && before[j].location.position == p && before[j].location.length
                                == l;
                        assert(now[j] == before[j]);
                    }
                }
            }
            false
        },
    }
}

/// Takes `key` out of the index, and says whether it had an entry.
fn index_drop(
    index: &mut Vec<IndexEntry>,
    key: &String,
    Ghost(log): Ghost<Seq<u8>>,
    Ghost(map): Ghost<Map<Seq<char>, Seq<char>>>,
) -> (present: bool)
    requires
        index_sound(old(index)@, log, map),
    ensures
        index_sound(final(index)@, log, map.remove(key@)),
        present == map.contains_key(key@),
        index_dropped(old(index)@, final(index)@, key@),
        !present ==> final(index)@ == old(index)@,
{
    let ghost before = index@;
    let ghost after = map.remove(key@);
    match find(index, key) {
        Some(i) => {
            index.remove(i);
            proof {
                let now = index@;
                assert(entry_sound(before[i as int], log, map));
                assert forall|j: int| 0 <= j < now.len() implies #[trigger] now[j] == before[if j
                    < i {
                    j
                } else {
                    j + 1
                }] by {}
                assert forall|a: int, b: int| 0 <= a < b < now.len() implies (#[trigger] now[a]).key@
                    != (#[trigger] now[b]).key@ by {
                    let a0 = if a < i { a } else { a + 1 };
                    let b0 = if b < i { b } else { b + 1 };
                    assert(before[a0].key@ != before[b0].key@);
                }
                assert forall|j: int| 0 <= j < now.len() implies entry_sound(
                    #[trigger] now[j],
                    log,
                    after,
                ) by {
                    let j0 = if j < i { j } else { j + 1 };
                    assert(entry_sound(before[j0], log, map));
                    if j0 < i {
                        assert(before[j0].key@ != before[i as int].key@);
                    } else {
                        assert(before[i as int].key@ != before[j0].key@);
                    }
                }
                assert forall|k: Seq<char>| #[trigger] after.contains_key(k) implies exists|j: int|
                    0 <= j < now.len() && (#[trigger] now[j]).key@ == k by {
                    assert(map.contains_key(k));
                    let j0 = choose|j: int|
                        0 <= j < before.len() && (#[trigger] before[j]).key@ == k;
                    let j = if j0 < i { j0 } else { j0 - 1 };
                    assert(now[j].key@ == k);
                }
                assert forall|k: Seq<char>, p: int, l: int| #[trigger]
                    points_at(now, k, p, l) <==> k != key@ && points_at(before, k, p, l) by {
                    if points_at(now, k, p, l) {
                        let j = choose|j: int|
                            0 <= j < now.len() && (#[trigger] now[j]).key@ == k
                                && now[j].location.position == p && now[j].location.length == l;
                        let j0 = if j < i { j } else { j + 1 };
                        assert(now[j] == before[j0]);
                        if j0 < i {
                            assert(before[j0].key@ != before[i as int].key@);
                        } else {
                            assert(before[i as int].key@ != before[j0].key@);
                        }
                    }
                    if k != key@ && points_at(before, k, p, l) {
                        let j0 = choose|j: int|
                            0 <= j < before.len() && (#[trigger] before[j]).key@ == k
                                && before[j].location.position == p && before[j].location.length
                                == l;
                        let j = if j0 < i { j0 } else { j0 - 1 };
                        assert(now[j] == before[j0]);
                    }
                }
            }
            true
        },
        None => {
            proof {
                if map.contains_key(key@) {
                    let j = choose|j: int|
                        0 <= j < before.len() && (#[trigger] before[j]).key@ == key@;
                    assert(false);
                }
                assert(after =~= map);
                assert forall|k: Seq<char>, p: int, l: int| #[trigger]
                    points_at(before, k, p, l) <==> k != key@ && points_at(before, k, p, l) by {
                    if points_at(before, k, p, l) {
                        let j = choose|j: int|
                            0 <= j < before.len() && (#[trigger] before[j]).key@ == k
                                && before[j].location.position == p && before[j].location.length
                                == l;
                    }
                }
            }
            false
        },
    }
}

/// Puts `length` bytes of `source` from `start` on at the end of `out`.
fn append_range(out: &mut Vec<u8>, source: &Vec<u8>, start: usize, length: usize)
    requires
        start + length <= source.len(),
    ensures
        final(out)@ == old(out)@ + source@.subrange(start as int, start + length),
{
    let ghost before = out@;
    let mut i: usize = 0;
    while i < length
        invariant
            i <= length,
            start + length <= source.len(),
            out@ == before + source@.subrange(start as int, start + i),
        decreases length - i,
    {
        out.push(source[start + i]);
        i = i + 1;
        assert(out@ =~= before + source@.subrange(start as int, start + i));
    }
}

/// The log, the index and the count, with their invariant stated apart.
struct LogStore {
    log: Vec<u8>,
    index: Vec<IndexEntry>,
    to_compact: u64,
    compacted: bool,
    records: Ghost<Seq<RecordView>>,
}

impl View for LogStore {
    type V = Map<Seq<char>, Seq<char>>;

    /// The value of each key that the store holds.
    closed spec fn view(&self) -> Map<Seq<char>, Seq<char>> {
        live_map(self.records@)
    }
}

impl LogStore {
    /// The bytes of the log.
    spec fn log_view(&self) -> Seq<u8> {
        self.log@
    }

    /// The index.
    spec fn index_view(&self) -> Seq<IndexEntry> {
        self.index@
    }

    /// The number of records that compaction would drop.
    spec fn dirty(&self) -> nat {
        self.to_compact as nat
    }

    /// Whether the last change rewrote the log instead of adding to it.
    spec fn rewritten(&self) -> bool {
        self.compacted
    }

    /// What the store shows.
    spec fn state(&self) -> StoreState {
        StoreState {
            map: self@,
            log: self.log_view(),
            index: self.index_view(),
            dirty: self.dirty(),
            rewritten: self.rewritten(),
        }
    }

    /// The log is made of whole records, the store holds what they
    /// describe, and the index points at the latest record of each key.
    spec fn wf(&self) -> bool {
        &&& self.log@ == concat_records(self.records@)
        &&& records_stable(self.records@)
        &&& self.records@.len() <= self.log@.len()
        &&& self.to_compact <= self.records@.len()
        &&& index_sound(self.index@, self.log@, live_map(self.records@))
    }

    /// A store without a log.
    fn empty() -> (r: LogStore)
        ensures
            r.wf(),
            r@ == Map::<Seq<char>, Seq<char>>::empty(),
            r.log_view() == Seq::<u8>::empty(),
            r.index_view() == Seq::<IndexEntry>::empty(),
            r.dirty() == 0,
            !r.rewritten(),
    {
        LogStore {
            log: Vec::new(),
            index: Vec::new(),
            to_compact: 0,
            compacted: false,
            records: Ghost(Seq::empty()),
        }
    }

    /// The bytes of the log.
    fn log(&self) -> (r: &Vec<u8>)
        ensures
            r@ == self.log_view(),
    {
        &self.log
    }

    /// The number of keys.
    fn len(&self) -> (r: usize)
        ensures
            r == self.index_view().len(),
    {
        self.index.len()
    }

    /// The number of records that compaction would drop.
    fn to_compact(&self) -> (r: u64)
        ensures
            r == self.dirty(),
    {
        self.to_compact
    }

    /// Whether the last change rewrote the log instead of adding to it.
    fn was_compacted(&self) -> (r: bool)
        ensures
            r == self.rewritten(),
    {
        self.compacted
    }

    /// Opens the store on the bytes of its log. Every record is replayed in
    /// order; bytes that are no record are an error. Where more records
    /// are dropped than the threshold allows, the log is compacted.
    fn open(bytes: Vec<u8>) -> (r: Result<LogStore, ErrorKind>)
        ensures
            match r {
                Ok(store) => store.wf() && opened(bytes@, store.state()),
                Err(e) => replay(bytes@) is None && e is Serialization,
            },
    {
        let mut index: Vec<IndexEntry> = Vec::new();
        let mut to_compact: u64 = 0;
        let mut pos: usize = 0;
        let ghost mut records: Seq<RecordView> = Seq::empty();
        let ghost mut places: Map<Seq<char>, (int, int)> = Map::empty();
        assert(bytes@.take(0) =~= Seq::<u8>::empty());
        while pos < bytes.len()
            invariant
                pos <= bytes@.len(),
                bytes@.take(pos as int) == concat_records(records),
                records_stable(records),
                records.len() <= pos,
                to_compact <= records.len(),
                index_sound(index@, bytes@, live_map(records)),
                replay_from(bytes@, pos as int, live_map(records)) == replay(bytes@),
                dirty_from(bytes@, pos as int, live_map(records), to_compact as nat)
                    == replay_dirty(bytes@),
                index_holds(index@, places),
                places_from(bytes@, pos as int, places) == replay_places(bytes@),
            decreases bytes@.len() - pos,
        {
            let rest = slice_subrange(bytes.as_slice(), pos, bytes.len());
            assert(rest@ =~= bytes@.skip(pos as int));
            match decode_record(rest) {
                Decoded::End => {
                    return Err(ErrorKind::Serialization("unexpected end of the log".to_owned()));
                },
                Decoded::Broken(why) => {
                    return Err(ErrorKind::Serialization(why));
                },
                Decoded::Entry { entry, len } => {
                    let ghost map = live_map(records);
                    let ghost record = RecordView {
                        key: entry.key@,
                        value: entry.value@,
                        bytes: rest@.take(len as int),
                    };
                    proof {
                        lemma_push_record(records, record);
                        assert(bytes@.subrange(pos as int, pos + len) =~= record.bytes);
                        assert(bytes@.take(pos + len) =~= bytes@.take(pos as int) + record.bytes);
                    }
                    if entry.is_tombstone() {
                        index_drop(&mut index, &entry.key, Ghost(bytes@), Ghost(map));
                        to_compact = to_compact + 1;
                    } else {
                        let location = Location { position: pos, length: len };
                        let shadowed = index_put(
                            &mut index,
                            entry.key,
                            location,
                            Ghost(bytes@),
                            Ghost(map),
                            Ghost(record.value),
                        );
                        if shadowed {
                            to_compact = to_compact + 1;
                        }
                    }
                    proof {
                        records = records.push(record);
                        places = if record.value == tombstone_text() {
                            places.remove(record.key)
                        } else {
                            places.insert(record.key, (pos as int, len as int))
                        };
                    }
                    pos = pos + len;
                },
            }
        }
        assert(bytes@.take(pos as int) =~= bytes@);
        let mut store = LogStore {
            log: bytes,
            index,
            to_compact,
            compacted: false,
            records: Ghost(records),
        };
        if store.to_compact > COMPACTION_THRESHOLD {
            store.compact();
        }
        Ok(store)
    }

    /// The second half of `set`, given the outcome of encoding the record:
    /// on bytes it does what `set` says, and on a failure it changes
    /// nothing and hands the reason on.
    fn write_set(&mut self, entry: LogEntry, encoded: Result<Vec<u8>, String>) -> (r: Result<
        (),
        ErrorKind,
    >)
        requires
            old(self).wf(),
            entry.value@ != tombstone_text(),
            encoded matches Ok(bytes) ==> stable_record(bytes@, entry.key@, entry.value@),
        ensures
            final(self).wf(),
            match encoded {
                Ok(bytes) => r is Ok && set_done(
                    old(self).state(),
                    final(self).state(),
                    entry.key@,
                    entry.value@,
                    bytes@,
                ),
                Err(why) => r == Err::<(), ErrorKind>(ErrorKind::Serialization(why))
                    && final(self).state() == old(self).state(),
            },
    {
        let mut bytes = match encoded {
            Ok(bytes) => bytes,
            Err(why) => {
                return Err(ErrorKind::Serialization(why));
            },
        };
        let ghost record = RecordView { key: entry.key@, value: entry.value@, bytes: bytes@ };
        let ghost map = live_map(self.records@);
        let location = self.append(&mut bytes, Ghost(record));
        let shadowed = index_put(
            &mut self.index,
            entry.key,
            location,
            Ghost(self.log@),
            Ghost(map),
            Ghost(record.value),
        );
        if shadowed {
            assert(self.to_compact < self.log.len());
            self.to_compact = self.to_compact + 1;
        }
        self.compacted = false;
        if self.to_compact > COMPACTION_THRESHOLD {
            self.compact();
        }
        Ok(())
    }

    /// The second half of `remove`, given the outcome of encoding the
    /// tombstone: on bytes it does what `remove` says, and on a failure it
    /// changes nothing and hands the reason on.
    fn write_remove(&mut self, entry: LogEntry, encoded: Result<Vec<u8>, String>) -> (r: Result<
        (),
        ErrorKind,
    >)
        requires
            old(self).wf(),
            entry.value@ == tombstone_text(),
            encoded matches Ok(bytes) ==> stable_record(bytes@, entry.key@, entry.value@),
        ensures
            final(self).wf(),
            match encoded {
                Ok(bytes) => if old(self)@.contains_key(entry.key@) {
                    r is Ok && remove_done(
                        old(self).state(),
                        final(self).state(),
                        entry.key@,
                        bytes@,
                    )
                } else {
                    r == Err::<(), ErrorKind>(ErrorKind::KeyNotFound) && remove_missed(
                        old(self).state(),
                        final(self).state(),
                        bytes@,
                    )
                },
                Err(why) => r == Err::<(), ErrorKind>(ErrorKind::Serialization(why))
                    && final(self).state() == old(self).state(),
            },
    {
        let mut bytes = match encoded {
            Ok(bytes) => bytes,
            Err(why) => {
                return Err(ErrorKind::Serialization(why));
            },
        };
        let ghost record = RecordView { key: entry.key@, value: entry.value@, bytes: bytes@ };
        let ghost map = live_map(self.records@);
        self.append(&mut bytes, Ghost(record));
        assert(self.to_compact < self.log.len());
        self.to_compact = self.to_compact + 1;
        self.compacted = false;
        let present = index_drop(&mut self.index, &entry.key, Ghost(self.log@), Ghost(map));
        if !present {
            assert(map.remove(entry.key@) =~= map);
            return Err(ErrorKind::KeyNotFound);
        }
        if self.to_compact > COMPACTION_THRESHOLD {
            self.compact();
        }
        Ok(())
    }

    /// The value of `key`, read from its record in the log, or `None` for a
    /// key that the store does not hold.
    fn get(&self, key: String) -> (r: Result<Option<String>, ErrorKind>)
        requires
            self.wf(),
        ensures
            r matches Ok(found) && match found {
                Some(value) => self@.contains_key(key@) && self@[key@] == value@,
                None => !self@.contains_key(key@),
            },
    {
        match find(&self.index, &key) {
            None => {
                proof {
                    if self@.contains_key(key@) {
                        let j = choose|j: int|
                            0 <= j < self.index@.len() && (#[trigger] self.index@[j]).key@ == key@;
                        assert(false);
                    }
                }
                Ok(None)
            },
            Some(i) => {
                let location = self.index[i].location;
                assert(entry_sound(self.index@[i as int], self.log@, self@));
                assert(location.position + location.length <= self.log.len());
                let record = slice_subrange(
                    self.log.as_slice(),
                    location.position,
                    location.position + location.length,
                );
                proof {
                    lemma_stable_reads(record@, key@, self@[key@]);
                }
                match decode_record(record) {
                    Decoded::Entry { entry, len } => Ok(Some(entry.value)),
                    Decoded::Broken(why) => Err(ErrorKind::Serialization(why)),
                    Decoded::End => Err(ErrorKind::Serialization("empty record".to_owned())),
                }
            },
        }
    }

    /// Reopening: the log of a store replays to what the store holds, so
    /// that `open` on its bytes gives a store with the same keys and
    /// values.
    proof fn law_log_replays(&self)
        requires
            self.wf(),
        ensures
            replay(self.log_view()) == Some(self@),
    {
        lemma_replay_records(self.records@, 0);
        assert(self.records@.take(0) =~= Seq::<RecordView>::empty());
    }

    /// The index has one entry for each key that the store holds.
    proof fn law_index_counts_keys(&self)
        requires
            self.wf(),
        ensures
            self@.dom().finite(),
            self@.dom().len() == self.index_view().len(),
    {
        let index = self.index@;
        let keys = index.map_values(|e: IndexEntry| e.key@);
        assert forall|i: int, j: int|
            0 <= i < keys.len() && 0 <= j < keys.len() && i != j implies keys[i] != keys[j] by {
            if i < j {
                assert(index[i].key@ != index[j].key@);
            } else {
                assert(index[j].key@ != index[i].key@);
            }
        }
        keys.unique_seq_to_set();
        vstd::seq_lib::seq_to_set_is_finite(keys);
        assert(keys.to_set() =~= self@.dom()) by {
            assert forall|k: Seq<char>| keys.to_set().contains(k) implies self@.dom().contains(
                k,
            ) by {
                let i = choose|i: int| 0 <= i < keys.len() && keys[i] == k;
                assert(entry_sound(index[i], self.log@, self@));
            }
            assert forall|k: Seq<char>| self@.dom().contains(k) implies keys.to_set().contains(
                k,
            ) by {
                let i = choose|i: int| 0 <= i < index.len() && (#[trigger] index[i]).key@ == k;
                assert(keys[i] == k);
            }
        }
    }

    /// No key is held with the tombstone as its value.
    proof fn law_no_tombstone(&self, key: Seq<char>)
        requires
            self.wf(),
            self@.contains_key(key),
        ensures
            self@[key] != tombstone_text(),
    {
        lemma_live_values(self.records@, key);
    }

    /// Puts the bytes of a record at the end of the log.
    fn append(&mut self, bytes: &mut Vec<u8>, Ghost(record): Ghost<RecordView>) -> (location: Location)
        requires
            old(self).wf(),
            record.bytes == old(bytes)@,
            stable_record(record.bytes, record.key, record.value),
        ensures
            final(self).log@ == old(self).log@ + record.bytes,
            final(self).records@ == old(self).records@.push(record),
            final(self).index == old(self).index,
            final(self).to_compact == old(self).to_compact,
            final(self).compacted == old(self).compacted,
            location.position == old(self).log@.len(),
            location.length == record.bytes.len(),
            final(self).log@ == concat_records(final(self).records@),
            records_stable(final(self).records@),
            final(self).records@.len() <= final(self).log@.len(),
            final(self).to_compact < final(self).records@.len(),
            index_sound(final(self).index@, final(self).log@, live_map(old(self).records@)),
            stable_record(
                final(self).log@.subrange(
                    location.position as int,
                    location.position + location.length,
                ),
                record.key,
                record.value,
            ),
            live_map(final(self).records@) == apply_entry(
                live_map(old(self).records@),
                record.key,
                record.value,
            ),
    {
        let ghost old_log = self.log@;
        let ghost old_records = self.records@;
        let ghost map = live_map(self.records@);
        let location = Location { position: self.log.len(), length: bytes.len() };
        self.log.append(bytes);
        self.records = Ghost(old_records.push(record));
        proof {
            lemma_push_record(old_records, record);
            lemma_stable_reads(record.bytes, record.key, record.value);
            assert(self.log@.take(old_log.len() as int) =~= old_log);
            assert forall|j: int| 0 <= j < self.index@.len() implies entry_sound(
                #[trigger] self.index@[j],
                self.log@,
                map,
            ) by {
                lemma_entry_extends(self.index@[j], old_log, self.log@, map);
            }
            assert(self.log@.subrange(
                location.position as int,
                location.position + location.length,
            ) =~= record.bytes);
            assert forall|j: int| 0 <= j < self.records@.len() implies stable_record(
                (#[trigger] self.records@[j]).bytes,
                self.records@[j].key,
                self.records@[j].value,
            ) by {
                if j < old_records.len() {
                    assert(self.records@[j] == old_records[j]);
                }
            }
        }
        location
    }

    /// Rewrites the log with the live records alone, in the order of the
    /// index, and points the index at them.
    fn compact(&mut self)
        requires
            old(self).wf(),
        ensures
            final(self).wf(),
            compacted(old(self).state(), final(self).state()),
    {
        let mut new_log: Vec<u8> = Vec::new();
        let mut new_index: Vec<IndexEntry> = Vec::new();
        let ghost mut new_records: Seq<RecordView> = Seq::empty();
        let ghost map = live_map(self.records@);
        let mut i: usize = 0;
        assert(self.index@.take(0) =~= Seq::<IndexEntry>::empty());
        while i < self.index.len()
            invariant
                self.wf(),
                *self == *old(self),
                map == live_map(self.records@),
                i <= self.index@.len(),
                new_index@.len() == i,
                new_records.len() == i,
                new_log@ == concat_records(new_records),
                records_stable(new_records),
                new_log@.len() == indexed_bytes(new_index@),
                new_log@ == live_bytes(self.index@.take(i as int), self.log@),
                indexed_bytes(new_index@) == indexed_bytes(self.index@.take(i as int)),
                forall|j: int|
                    0 <= j < i ==> {
                        &&& (#[trigger] new_index@[j]).location.length
                            == self.index@[j].location.length
                        &&& new_index@[j].location.position == indexed_bytes(self.index@.take(j))
                    },
                forall|j: int|
                    0 <= j < i ==> {
                        &&& (#[trigger] new_index@[j]).key@ == self.index@[j].key@
                        &&& new_index@[j].location.position + new_index@[j].location.length
                            <= new_log@.len()
                        &&& new_log@.subrange(
                            new_index@[j].location.position as int,
                            new_index@[j].location.position + new_index@[j].location.length,
                        ) == self.log@.subrange(
                            self.index@[j].location.position as int,
                            self.index@[j].location.position + self.index@[j].location.length,
                        )
                    },
                forall|k: Seq<char>|
                    live_map(new_records).contains_key(k) <==> (exists|j: int|
                        0 <= j < i && (#[trigger] self.index@[j]).key@ == k),
                forall|k: Seq<char>| #[trigger]
                    live_map(new_records).contains_key(k) ==> live_map(new_records)[k] == map[k],
            decreases self.index@.len() - i,
        {
            let location = self.index[i].location;
            let key = self.index[i].key.clone();
            let ghost entry = self.index@[i as int];
            let ghost old_log = new_log@;
            let ghost old_index = new_index@;
            let ghost old_records = new_records;
            assert(entry_sound(entry, self.log@, map));
            let position = new_log.len();
            append_range(&mut new_log, &self.log, location.position, location.length);
            new_index.push(IndexEntry { key, location: Location { position, length: location.length } });
            proof {
                let record = RecordView {
                    key: entry.key@,
                    value: map[entry.key@],
                    bytes: self.log@.subrange(
                        location.position as int,
                        location.position + location.length,
                    ),
                };
                lemma_push_record(old_records, record);
                lemma_live_values(self.records@, entry.key@);
                new_records = old_records.push(record);
                assert(new_index@.drop_last() =~= old_index);
                assert(self.index@.take(i + 1).drop_last() =~= self.index@.take(i as int));
                assert(self.index@.take(i + 1).last() == entry);
                assert forall|j: int| 0 <= j < i + 1 implies {
                    &&& (#[trigger] new_index@[j]).location.length
                        == self.index@[j].location.length
                    &&& new_index@[j].location.position == indexed_bytes(self.index@.take(j))
                } by {
                    if j < i {
                        assert(new_index@[j] == old_index[j]);
                    }
                }
                assert(new_log@.subrange(position as int, position + location.length)
                    =~= record.bytes);
                assert forall|j: int| 0 <= j < i + 1 implies {
                    &&& (#[trigger] new_index@[j]).key@ == self.index@[j].key@
                    &&& new_index@[j].location.position + new_index@[j].location.length
                        <= new_log@.len()
                    &&& new_log@.subrange(
                        new_index@[j].location.position as int,
                        new_index@[j].location.position + new_index@[j].location.length,
                    ) == self.log@.subrange(
                        self.index@[j].location.position as int,
                        self.index@[j].location.position + self.index@[j].location.length,
                    )
                } by {
                    if j < i {
                        assert(new_index@[j] == old_index[j]);
                        assert(new_log@.subrange(
                            old_index[j].location.position as int,
                            old_index[j].location.position + old_index[j].location.length,
                        ) =~= old_log.subrange(
                            old_index[j].location.position as int,
                            old_index[j].location.position + old_index[j].location.length,
                        ));
                    }
                }
                assert forall|k: Seq<char>|
                    live_map(new_records).contains_key(k) <==> (exists|j: int|
                        0 <= j < i + 1 && (#[trigger] self.index@[j]).key@ == k) by {
                    if live_map(new_records).contains_key(k) {
                        if k == entry.key@ {
                            assert(self.index@[i as int].key@ == k);
                        } else {
                            assert(live_map(old_records).contains_key(k));
                            let j = choose|j: int|
                                0 <= j < i && (#[trigger] self.index@[j]).key@ == k;
                            assert(self.index@[j].key@ == k);
                        }
                    }
                    if exists|j: int| 0 <= j < i + 1 && (#[trigger] self.index@[j]).key@ == k {
                        let j = choose|j: int|
                            0 <= j < i + 1 && (#[trigger] self.index@[j]).key@ == k;
                        if j < i {
                            assert(live_map(old_records).contains_key(k));
                        }
                    }
                }
                assert forall|j: int| 0 <= j < new_records.len() implies stable_record(
                    (#[trigger] new_records[j]).bytes,
                    new_records[j].key,
                    new_records[j].value,
                ) by {
                    if j < i {
                        assert(new_records[j] == old_records[j]);
                    }
                }
            }
            i = i + 1;
        }
        assert(self.index@.take(i as int) =~= self.index@);
        proof {
            assert(live_map(new_records) =~= map) by {
                assert forall|k: Seq<char>| map.contains_key(k) implies live_map(
                    new_records,
                ).contains_key(k) by {
                    let j = choose|j: int|
                        0 <= j < self.index@.len() && (#[trigger] self.index@[j]).key@ == k;
                    assert(self.index@[j].key@ == k);
                }
                assert forall|k: Seq<char>| live_map(new_records).contains_key(k) implies map.contains_key(
                    k,
                ) by {
                    let j = choose|j: int| 0 <= j < i && (#[trigger] self.index@[j]).key@ == k;
                    assert(entry_sound(self.index@[j], self.log@, map));
                }
            }
            lemma_records_fill(new_records);
            assert forall|a: int, b: int| 0 <= a < b < new_index@.len() implies (
            #[trigger] new_index@[a]).key@ != (#[trigger] new_index@[b]).key@ by {
                assert(self.index@[a].key@ != self.index@[b].key@);
            }
            assert forall|j: int| 0 <= j < new_index@.len() implies entry_sound(
                #[trigger] new_index@[j],
                new_log@,
                map,
            ) by {
                assert(entry_sound(self.index@[j], self.log@, map));
            }
            assert forall|k: Seq<char>| #[trigger] map.contains_key(k) implies exists|j: int|
                0 <= j < new_index@.len() && (#[trigger] new_index@[j]).key@ == k by {
                let j = choose|j: int|
                    0 <= j < self.index@.len() && (#[trigger] self.index@[j]).key@ == k;
                assert(new_index@[j].key@ == k);
            }
        }
        proof {
            law_compacted_is_packed(self.index@, new_index@);
            law_compaction_settles(new_index@, new_log@);
        }
        self.log = new_log;
        self.index = new_index;
        self.to_compact = 0;
        self.compacted = true;
        self.records = Ghost(new_records);
    }
}

/// A key/value store on a log. The log is made of whole records, the
/// store holds what they describe, and the index points at the latest
/// record of each key: that is kept from `open` on, whatever is called.
pub struct KvStore {
    inner: LogStore,
}

impl View for KvStore {
    type V = Map<Seq<char>, Seq<char>>;

    /// The value of each key that the store holds.
    closed spec fn view(&self) -> Map<Seq<char>, Seq<char>> {
        self.inner@
    }
}

impl KvStore {
    /// What is kept of every value of this type.
    #[verifier::type_invariant]
    pub closed spec fn sound(self) -> bool {
        self.inner.wf()
    }

    /// The bytes of the log.
    pub closed spec fn log_view(&self) -> Seq<u8> {
        self.inner.log_view()
    }

    /// The index.
    pub closed spec fn index_view(&self) -> Seq<IndexEntry> {
        self.inner.index_view()
    }

    /// The number of records that compaction would drop.
    pub closed spec fn dirty(&self) -> nat {
        self.inner.dirty()
    }

    /// Whether the last change rewrote the log instead of adding to it.
    pub closed spec fn rewritten(&self) -> bool {
        self.inner.rewritten()
    }

    /// What the store shows.
    pub open spec fn state(&self) -> StoreState {
        StoreState {
            map: self@,
            log: self.log_view(),
            index: self.index_view(),
            dirty: self.dirty(),
            rewritten: self.rewritten(),
        }
    }

    /// What is kept of every store: each key that the store holds has one
    /// entry in the index, which points at a whole record of the key with
    /// its value; no value is the tombstone; and the log replays to what
    /// the store holds.
    pub proof fn law_index_sound(&self)
        requires
            self.sound(),
        ensures
            index_sound(self.index_view(), self.log_view(), self@),
            replay(self.log_view()) == Some(self@),
            self@.dom().finite(),
            self@.dom().len() == self.index_view().len(),
            forall|key: Seq<char>| #[trigger] self@.contains_key(key) ==> self@[key] != tombstone_text(),
    {
        self.inner.law_log_replays();
        self.inner.law_index_counts_keys();
        assert forall|key: Seq<char>| #[trigger] self@.contains_key(key) implies self@[key]
            != tombstone_text() by {
            self.inner.law_no_tombstone(key);
        }
    }

    /// The bytes of the log. They replay to what the store holds, so that
    /// `open` on them gives a store with the same keys and values.
    pub fn log(&self) -> (r: &Vec<u8>)
        ensures
            r@ == self.log_view(),
            replay(r@) == Some(self@),
            index_sound(self.index_view(), r@, self@),
    {
        proof {
            use_type_invariant(self);
            self.inner.law_log_replays();
        }
        self.inner.log()
    }

    /// The number of keys.
    pub fn len(&self) -> (r: usize)
        ensures
            r == self.index_view().len(),
            self@.dom().finite(),
            r == self@.dom().len(),
    {
        proof {
            use_type_invariant(self);
            self.inner.law_index_counts_keys();
        }
        self.inner.len()
    }

    /// The number of records that compaction would drop.
    pub fn to_compact(&self) -> (r: u64)
        ensures
            r == self.dirty(),
    {
        self.inner.to_compact()
    }

    /// Whether the last change rewrote the log instead of adding to it.
    pub fn was_compacted(&self) -> (r: bool)
        ensures
            r == self.rewritten(),
    {
        self.inner.was_compacted()
    }

    /// Opens the store on the bytes of its log. Every record is replayed in
    /// order; bytes that are no record are an error. Where more records
    /// are dropped than the threshold allows, the log is compacted.
    pub fn open(bytes: Vec<u8>) -> (r: Result<KvStore, ErrorKind>)
        ensures
            match r {
                Ok(store) => opened(bytes@, store.state()),
                Err(e) => replay(bytes@) is None && e is Serialization,
            },
    {
        match LogStore::open(bytes) {
            Ok(inner) => Ok(KvStore { inner }),
            Err(e) => Err(e),
        }
    }

    /// Sets `key` to `value`: the record is added to the log and the index
    /// points at it. Where this drops more records than the threshold
    /// allows, the log is compacted. It succeeds exactly where the record
    /// can be written; where it cannot, nothing changes and the error
    /// carries the writer's message.
    pub fn set(&mut self, key: String, value: String) -> (r: Result<(), ErrorKind>)
        requires
            value@ != tombstone_text(),
        ensures
            match r {
                Ok(()) => record_written(key@, value@) is Ok && set_done(
                    old(self).state(),
                    final(self).state(),
                    key@,
                    value@,
                    record_bytes(key@, value@),
                ),
                Err(e) => {
                    &&& e matches ErrorKind::Serialization(why) && record_written(key@, value@)
                        == Err::<Seq<u8>, Seq<char>>(why@)
                    &&& final(self).state() == old(self).state()
                },
            },
    {
        let entry = LogEntry::add(key, value);
        let encoded = encode_record(&entry);
        self.write_set(entry, encoded)
    }

    /// The second half of `set`, given the outcome of encoding the record:
    /// on bytes it does what `set` says, and on a failure it changes
    /// nothing and hands the reason on.
    pub fn write_set(&mut self, entry: LogEntry, encoded: Result<Vec<u8>, String>) -> (r: Result<
        (),
        ErrorKind,
    >)
        requires
            entry.value@ != tombstone_text(),
            encoded matches Ok(bytes) ==> stable_record(bytes@, entry.key@, entry.value@),
        ensures
            match encoded {
                Ok(bytes) => r is Ok && set_done(
                    old(self).state(),
                    final(self).state(),
                    entry.key@,
                    entry.value@,
                    bytes@,
                ),
                Err(why) => r == Err::<(), ErrorKind>(ErrorKind::Serialization(why))
                    && final(self).state() == old(self).state(),
            },
    {
        proof {
            use_type_invariant(&*self);
        }
        let mut inner = LogStore::empty();
        std::mem::swap(&mut inner, &mut self.inner);
        let r = inner.write_set(entry, encoded);
        self.inner = inner;
        r
    }

    /// Removes `key`: a tombstone is added to the log, and the key leaves
    /// the index. The tombstone is written even where the key is not in
    /// the store, which is the error `KeyNotFound`. Where the tombstone
    /// cannot be written, nothing changes and the error carries the
    /// writer's message.
    pub fn remove(&mut self, key: String) -> (r: Result<(), ErrorKind>)
        ensures
            match r {
                Ok(()) => {
                    &&& record_written(key@, tombstone_text()) is Ok
                    &&& old(self)@.contains_key(key@)
                    &&& remove_done(
                        old(self).state(),
                        final(self).state(),
                        key@,
                        record_bytes(key@, tombstone_text()),
                    )
                },
                Err(ErrorKind::KeyNotFound) => {
                    &&& record_written(key@, tombstone_text()) is Ok
                    &&& !old(self)@.contains_key(key@)
                    &&& remove_missed(
                        old(self).state(),
                        final(self).state(),
                        record_bytes(key@, tombstone_text()),
                    )
                },
                Err(ErrorKind::Serialization(why)) => {
                    &&& record_written(key@, tombstone_text()) == Err::<Seq<u8>, Seq<char>>(why@)
                    &&& final(self).state() == old(self).state()
                },
                Err(_) => false,
            },
    {
        let entry = LogEntry::remove(key);
        let encoded = encode_record(&entry);
        self.write_remove(entry, encoded)
    }

    /// The second half of `remove`, given the outcome of encoding the
    /// tombstone: on bytes it does what `remove` says, and on a failure it
    /// changes nothing and hands the reason on.
    pub fn write_remove(&mut self, entry: LogEntry, encoded: Result<Vec<u8>, String>) -> (r: Result<
        (),
        ErrorKind,
    >)
        requires
            entry.value@ == tombstone_text(),
            encoded matches Ok(bytes) ==> stable_record(bytes@, entry.key@, entry.value@),
        ensures
            match encoded {
                Ok(bytes) => if old(self)@.contains_key(entry.key@) {
                    r is Ok && remove_done(
                        old(self).state(),
                        final(self).state(),
                        entry.key@,
                        bytes@,
                    )
                } else {
                    r == Err::<(), ErrorKind>(ErrorKind::KeyNotFound) && remove_missed(
                        old(self).state(),
                        final(self).state(),
                        bytes@,
                    )
                },
                Err(why) => r == Err::<(), ErrorKind>(ErrorKind::Serialization(why))
                    && final(self).state() == old(self).state(),
            },
    {
        proof {
            use_type_invariant(&*self);
        }
        let mut inner = LogStore::empty();
        std::mem::swap(&mut inner, &mut self.inner);
        let r = inner.write_remove(entry, encoded);
        self.inner = inner;
        r
    }

    /// The value of `key`, read from its record in the log, or `None` for a
    /// key that the store does not hold. No key is held with the tombstone
    /// as its value.
    pub fn get(&self, key: String) -> (r: Result<Option<String>, ErrorKind>)
        ensures
            r matches Ok(found) && match found {
                Some(value) => self@.contains_key(key@) && self@[key@] == value@ && value@
                    != tombstone_text(),
                None => !self@.contains_key(key@),
            },
    {
        proof {
            use_type_invariant(self);
            if self@.contains_key(key@) {
                self.inner.law_no_tombstone(key@);
            }
        }
        self.inner.get(key)
    }

    /// Rewrites the log with the live records alone, in the order of the
    /// index, and points the index at them. What the store holds stays as
    /// it is, and the log is as long as the records of the index together.
    pub fn compact(&mut self)
        ensures
            compacted(old(self).state(), final(self).state()),
    {
        proof {
            use_type_invariant(&*self);
        }
        let mut inner = LogStore::empty();
        std::mem::swap(&mut inner, &mut self.inner);
        inner.compact();
        self.inner = inner;
    }
}

} // verus!
