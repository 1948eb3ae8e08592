//! What a log means: the index that replaying it gives, and what a lookup
//! through an index finds in it. All of this is mathematics; the engine's
//! contracts are stated over it.

use crate::data::log_record::{
    lemma_decode_len, lemma_decode_of_encode, lemma_decode_prefix, lemma_decode_torn,
    spec_encode, spec_record_at, LogRecordPos, LogRecordType, LogRecordView,
};
use crate::error::Errors;
use crate::index::Entries;
use vstd::prelude::*;

verus! {

/// The segments of a log: the contents of each, by its id.
pub type Files = Map<u32, Seq<u8>>;

/// Whether `a` is the front of `b`.
pub open spec fn spec_is_prefix(a: Seq<u8>, b: Seq<u8>) -> bool {
    a.len() <= b.len() && b.subrange(0, a.len() as int) == a
}

/// Whether `after` holds every segment of `before`, each with the same
/// contents or more behind them.
pub open spec fn spec_extends(before: Files, after: Files) -> bool {
    forall|id: u32| #[trigger]
        before.contains_key(id) ==> after.contains_key(id) && spec_is_prefix(
            before[id],
            after[id],
        )
}

/// Whether `after` holds every segment of `before` but the active one just
/// as it was: a segment that is sealed is written no more.
pub open spec fn spec_sealed_kept(before: Files, active: u32, after: Files) -> bool {
    forall|id: u32| #[trigger]
        before.contains_key(id) && id != active ==> after.contains_key(id) && after[id]
            == before[id]
}

/// The index after `record`, found at `pos`, is replayed onto it: a normal
/// record sets the position of its key, a tombstone removes the key.
pub open spec fn spec_apply_record(index: Entries, record: LogRecordView, pos: LogRecordPos) -> Entries {
    match record.record_type {
        LogRecordType::NORMAL => index.insert(record.key, pos),
        LogRecordType::DELETED => index.remove(record.key),
    }
}

/// Whether a record of `n` bytes at offset `from` lies within the segment
/// and can be held in memory.
pub open spec fn spec_fits(contents: Seq<u8>, from: nat, n: nat) -> bool {
    0 < n <= usize::MAX && from + n <= contents.len()
}

/// The index after the records of segment `id` from offset `from` on are
/// replayed onto it, one after the other, up to the first place where no
/// whole record starts that can be held in memory.
pub open spec fn spec_replay_segment(index: Entries, id: u32, contents: Seq<u8>, from: nat) -> Entries
    decreases contents.len() - from,
{
    match spec_record_at(contents, from) {
        Some((record, n)) => if spec_fits(contents, from, n) {
            spec_replay_segment(
                spec_apply_record(index, record, LogRecordPos { file_id: id, offset: from as u64 }),
                id,
                contents,
                from + n,
            )
        } else {
            index
        },
        None => index,
    }
}

/// Where the records that follow one another from offset `from` on end: the
/// first place where no whole record starts that can be held in memory.
pub open spec fn spec_valid_end(contents: Seq<u8>, from: nat) -> nat
    decreases contents.len() - from,
{
    match spec_record_at(contents, from) {
        Some((record, n)) => if spec_fits(contents, from, n) {
            spec_valid_end(contents, from + n)
        } else {
            from
        },
        None => from,
    }
}

/// The index that replaying the segments with an id below `upto` gives, in
/// ascending order of their ids.
pub open spec fn spec_replay(files: Files, upto: nat) -> Entries
    decreases upto,
{
    if upto == 0 {
        Map::empty()
    } else {
        let id = (upto - 1) as nat;
        let before = spec_replay(files, id);
        if id <= u32::MAX && files.contains_key(id as u32) {
            spec_replay_segment(before, id as u32, files[id as u32], 0)
        } else {
            before
        }
    }
}

/// What a lookup of `key` gives.
pub open spec fn spec_lookup(files: Files, index: Entries, key: Seq<u8>) -> Result<Seq<u8>, Errors> {
    if key.len() == 0 {
        Err(Errors::KeyIsEmpty)
    } else if !index.contains_key(key) {
        Err(Errors::KeyNotFound)
    } else if !files.contains_key(index[key].file_id) {
        Err(Errors::DataFileNotFound)
    } else {
        match spec_record_at(files[index[key].file_id], index[key].offset as nat) {
            None => Err(Errors::CorruptRecord),
            Some((record, _)) => match record.record_type {
                LogRecordType::DELETED => Err(Errors::KeyNotFound),
                LogRecordType::NORMAL => Ok(record.value),
            },
        }
    }
}

/// Whether `pos` is the place of a normal record of `key` that can be held
/// in memory.
pub open spec fn spec_entry_valid(files: Files, key: Seq<u8>, pos: LogRecordPos) -> bool {
    &&& files.contains_key(pos.file_id)
    &&& spec_record_at(files[pos.file_id], pos.offset as nat) matches Some((record, n))
    &&& record.key == key
    &&& record.record_type == LogRecordType::NORMAL
    &&& n <= usize::MAX
}

/// Whether every entry of `index` is the place of a normal record of its
/// key.
pub open spec fn spec_index_valid(files: Files, index: Entries) -> bool {
    forall|key: Seq<u8>| #[trigger]
        index.contains_key(key) ==> spec_entry_valid(files, key, index[key])
}

/// The record that gives `key` the value `value`.
pub open spec fn spec_normal_record(key: Seq<u8>, value: Seq<u8>) -> LogRecordView {
    LogRecordView { key, value, record_type: LogRecordType::NORMAL }
}

/// The record that deletes `key`: a tombstone.
pub open spec fn spec_tombstone(key: Seq<u8>) -> LogRecordView {
    LogRecordView { key, value: Seq::empty(), record_type: LogRecordType::DELETED }
}

/// Whether appending `len` bytes starts a new segment: whether the active
/// segment would grow beyond `size`.
pub open spec fn spec_rotates(files: Files, active: u32, size: u64, len: nat) -> bool {
    files[active].len() + len > size
}

/// The segments after the active one was sealed for `len` bytes to come, if
/// it had to be: a new, empty segment with the next id is there, or nothing
/// has changed.
pub open spec fn spec_sealed(files: Files, active: u32, size: u64, len: nat) -> Files {
    if spec_rotates(files, active, size, len) {
        files.insert((active + 1) as u32, Seq::empty())
    } else {
        files
    }
}

/// Where `len` bytes that are appended come to lie: at the end of the active
/// segment, or at the start of a new one.
pub open spec fn spec_append_pos(files: Files, active: u32, size: u64, len: nat) -> LogRecordPos {
    if spec_rotates(files, active, size, len) {
        LogRecordPos { file_id: (active + 1) as u32, offset: 0 }
    } else {
        LogRecordPos { file_id: active, offset: files[active].len() as u64 }
    }
}

/// The segments after `bytes` are appended: they go to the end of the active
/// segment, or, where that would grow beyond `size`, to a new segment with
/// the next id, and all that was there is left as it is.
pub open spec fn spec_appended(files: Files, active: u32, size: u64, bytes: Seq<u8>) -> Files {
    if spec_rotates(files, active, size, bytes.len()) {
        files.insert((active + 1) as u32, bytes)
    } else {
        files.insert(active, files[active] + bytes)
    }
}

/// Segments extend themselves.
pub proof fn lemma_extends_reflexive(files: Files)
    ensures
        spec_extends(files, files),
{
    assert forall|id: u32| #[trigger] files.contains_key(id) implies spec_is_prefix(
        files[id],
        files[id],
    ) by {
        assert(files[id].subrange(0, files[id].len() as int) =~= files[id]);
    }
}

/// What extends an extension extends what that extends.
pub proof fn lemma_extends_transitive(a: Files, b: Files, c: Files)
    requires
        spec_extends(a, b),
        spec_extends(b, c),
    ensures
        spec_extends(a, c),
{
    assert forall|id: u32| #[trigger] a.contains_key(id) implies c.contains_key(id)
        && spec_is_prefix(a[id], c[id]) by {
        assert(b.contains_key(id));
        assert(c[id].subrange(0, a[id].len() as int) =~= c[id].subrange(
            0,
            b[id].len() as int,
        ).subrange(0, a[id].len() as int));
    }
}

/// Bytes behind one segment, or a new segment, extend the segments.
pub proof fn lemma_extends_grown(files: Files, id: u32, longer: Seq<u8>)
    requires
        files.contains_key(id) ==> spec_is_prefix(files[id], longer),
    ensures
        spec_extends(files, files.insert(id, longer)),
{
    let grown = files.insert(id, longer);
    assert forall|other: u32| #[trigger] files.contains_key(other) implies grown.contains_key(
        other,
    ) && spec_is_prefix(files[other], grown[other]) by {
        assert(grown[other].subrange(0, files[other].len() as int) =~= files[other]);
    }
}

/// What is kept over one step and over the next is kept over both, where
/// the active segment stays the same or becomes one that was not there.
pub proof fn lemma_sealed_kept_chain(a: Files, first: u32, b: Files, second: u32, c: Files)
    requires
        spec_sealed_kept(a, first, b),
        spec_sealed_kept(b, second, c),
        second == first || !a.contains_key(second),
    ensures
        spec_sealed_kept(a, first, c),
{
    assert forall|id: u32| #[trigger] a.contains_key(id) && id != first implies c.contains_key(id)
        && c[id] == a[id] by {
        assert(b.contains_key(id));
    }
}

/// A record stays where it is when bytes are added behind the segment.
pub proof fn lemma_record_at_prefix(a: Seq<u8>, b: Seq<u8>, offset: nat)
    requires
        spec_is_prefix(a, b),
        spec_record_at(a, offset) is Some,
    ensures
        spec_record_at(b, offset) == spec_record_at(a, offset),
        offset + spec_record_at(a, offset).unwrap().1 <= a.len(),
        spec_record_at(a, offset).unwrap().1 > 0,
{
    let ra = a.skip(offset as int);
    let rb = b.skip(offset as int);
    lemma_decode_len(ra);
    let n = spec_record_at(a, offset).unwrap().1 as int;
    assert(rb.subrange(0, n) =~= ra.subrange(0, n)) by {
        assert forall|i: int| 0 <= i < n implies rb.subrange(0, n)[i] == ra.subrange(0, n)[i] by {
            assert(b.subrange(0, a.len() as int)[offset + i] == a[offset + i]);
        }
    }
    lemma_decode_prefix(ra, rb);
}

/// A record that lies within the front of a segment is read from the front
/// alone.
pub proof fn lemma_record_at_front(a: Seq<u8>, b: Seq<u8>, offset: nat)
    requires
        spec_is_prefix(a, b),
        spec_record_at(b, offset) is Some,
        offset + spec_record_at(b, offset).unwrap().1 <= a.len(),
    ensures
        spec_record_at(a, offset) == spec_record_at(b, offset),
{
    let ra = a.skip(offset as int);
    let rb = b.skip(offset as int);
    lemma_decode_len(rb);
    let n = spec_record_at(b, offset).unwrap().1 as int;
    assert(rb.subrange(0, n) =~= ra.subrange(0, n)) by {
        assert forall|i: int| 0 <= i < n implies rb.subrange(0, n)[i] == ra.subrange(0, n)[i] by {
            assert(b.subrange(0, a.len() as int)[offset + i] == a[offset + i]);
        }
    }
    lemma_decode_prefix(rb, ra);
}

/// The record that was appended to a segment is read back from where the
/// segment ended before.
pub proof fn lemma_record_at_appended(contents: Seq<u8>, record: LogRecordView)
    requires
        record.key.len() <= u64::MAX,
        record.value.len() <= u64::MAX,
    ensures
        spec_record_at(contents + spec_encode(record), contents.len()) == Some(
            (record, spec_encode(record).len()),
        ),
        spec_encode(record).len() > 0,
{
    let after = contents + spec_encode(record);
    lemma_decode_of_encode(record, Seq::empty());
    assert(after.skip(contents.len() as int) =~= spec_encode(record) + Seq::<u8>::empty());
    lemma_decode_len(after.skip(contents.len() as int));
}

/// An entry that is valid stays valid when segments are added and bytes are
/// appended.
pub proof fn lemma_entry_valid_extends(before: Files, after: Files, key: Seq<u8>, pos: LogRecordPos)
    requires
        spec_extends(before, after),
        spec_entry_valid(before, key, pos),
    ensures
        spec_entry_valid(after, key, pos),
{
    assert(before.contains_key(pos.file_id));
    lemma_record_at_prefix(before[pos.file_id], after[pos.file_id], pos.offset as nat);
}

/// An index that is valid stays valid when segments are added and bytes are
/// appended.
pub proof fn lemma_index_valid_extends(before: Files, after: Files, index: Entries)
    requires
        spec_extends(before, after),
        spec_index_valid(before, index),
    ensures
        spec_index_valid(after, index),
{
    assert forall|key: Seq<u8>| #[trigger] index.contains_key(key) implies spec_entry_valid(
        after,
        key,
        index[key],
    ) by {
        lemma_entry_valid_extends(before, after, key, index[key]);
    }
}

/// Replaying a record onto a valid index, at the place where the record
/// lies, gives a valid index.
pub proof fn lemma_index_valid_apply(files: Files, index: Entries, record: LogRecordView, pos: LogRecordPos)
    requires
        spec_index_valid(files, index),
        files.contains_key(pos.file_id),
        spec_record_at(files[pos.file_id], pos.offset as nat) matches Some(found) && found.0
            == record && found.1 <= usize::MAX,
    ensures
        spec_index_valid(files, spec_apply_record(index, record, pos)),
{
}

/// The valid end lies between the offset where the scan starts and the end
/// of the segment.
pub proof fn lemma_valid_end_bounds(contents: Seq<u8>, from: nat)
    requires
        from <= contents.len(),
    ensures
        from <= spec_valid_end(contents, from) <= contents.len(),
    decreases contents.len() - from,
{
    match spec_record_at(contents, from) {
        Some((record, n)) => {
            if spec_fits(contents, from, n) {
                lemma_valid_end_bounds(contents, from + n);
            }
        },
        None => {},
    }
}

/// Appending a record to a segment whose records run up to its end adds
/// that record to the replay, at the place where the segment ended, and the
/// records then run up to the new end.
pub proof fn lemma_replay_segment_appended(
    index: Entries,
    id: u32,
    contents: Seq<u8>,
    record: LogRecordView,
    from: nat,
)
    requires
        from <= contents.len(),
        spec_valid_end(contents, from) == contents.len(),
        record.key.len() <= u64::MAX,
        record.value.len() <= u64::MAX,
        spec_encode(record).len() <= usize::MAX,
    ensures
        spec_replay_segment(index, id, contents + spec_encode(record), from) == spec_apply_record(
            spec_replay_segment(index, id, contents, from),
            record,
            LogRecordPos { file_id: id, offset: contents.len() as u64 },
        ),
        spec_valid_end(contents + spec_encode(record), from) == (contents + spec_encode(
            record,
        )).len(),
    decreases contents.len() - from,
{
    let after = contents + spec_encode(record);
    assert(spec_is_prefix(contents, after)) by {
        assert(after.subrange(0, contents.len() as int) =~= contents);
    }
    if from == contents.len() {
        lemma_record_at_appended(contents, record);
        assert(spec_record_at(contents, from) is None) by {
            if spec_record_at(contents, from) is Some {
                lemma_decode_len(contents.skip(from as int));
            }
        }
        let end = after.len();
        assert(spec_record_at(after, end) is None) by {
            if spec_record_at(after, end) is Some {
                lemma_decode_len(after.skip(end as int));
            }
        }
        assert(spec_valid_end(after, end) == end);
        assert(spec_replay_segment(
            spec_apply_record(
                index,
                record,
                LogRecordPos { file_id: id, offset: from as u64 },
            ),
            id,
            after,
            end,
        ) == spec_apply_record(index, record, LogRecordPos { file_id: id, offset: from as u64 }));
    } else {
        match spec_record_at(contents, from) {
            Some((found, n)) => {
                lemma_record_at_prefix(contents, after, from);
                lemma_replay_segment_appended(
                    spec_apply_record(
                        index,
                        found,
                        LogRecordPos { file_id: id, offset: from as u64 },
                    ),
                    id,
                    contents,
                    record,
                    from + n,
                );
            },
            None => {},
        }
    }
}

/// Cutting a segment at its valid end changes nothing of its replay, and the
/// records of what is left run up to its end.
pub proof fn lemma_replay_segment_cut(index: Entries, id: u32, contents: Seq<u8>, from: nat, end: nat)
    requires
        from <= contents.len(),
        end == spec_valid_end(contents, from),
    ensures
        from <= end <= contents.len(),
        spec_replay_segment(index, id, contents.subrange(0, end as int), from)
            == spec_replay_segment(index, id, contents, from),
        spec_valid_end(contents.subrange(0, end as int), from) == end,
    decreases contents.len() - from,
{
    lemma_valid_end_bounds(contents, from);
    let front = contents.subrange(0, end as int);
    assert(spec_is_prefix(front, contents)) by {
        assert(contents.subrange(0, front.len() as int) =~= front);
    }
    match spec_record_at(contents, from) {
        Some((found, n)) => {
            if spec_fits(contents, from, n) {
                lemma_valid_end_bounds(contents, from + n);
                lemma_record_at_front(front, contents, from);
                lemma_replay_segment_cut(
                    spec_apply_record(
                        index,
                        found,
                        LogRecordPos { file_id: id, offset: from as u64 },
                    ),
                    id,
                    contents,
                    from + n,
                    end,
                );
            } else {
                if spec_record_at(front, from) is Some {
                    lemma_record_at_prefix(front, contents, from);
                }
            }
        },
        None => {
            if spec_record_at(front, from) is Some {
                lemma_record_at_prefix(front, contents, from);
            }
        },
    }
}

/// Appending a record to the segment with the highest id, whose records run
/// up to its end, adds that record to the replay.
pub proof fn lemma_replay_appended(files: Files, id: u32, record: LogRecordView)
    requires
        files.contains_key(id),
        spec_valid_end(files[id], 0) == files[id].len(),
        record.key.len() <= u64::MAX,
        record.value.len() <= u64::MAX,
        spec_encode(record).len() <= usize::MAX,
    ensures
        spec_replay(files.insert(id, files[id] + spec_encode(record)), id as nat + 1)
            == spec_apply_record(
            spec_replay(files, id as nat + 1),
            record,
            LogRecordPos { file_id: id, offset: files[id].len() as u64 },
        ),
        spec_valid_end(files[id] + spec_encode(record), 0) == (files[id] + spec_encode(
            record,
        )).len(),
        spec_extends(files, files.insert(id, files[id] + spec_encode(record))),
        spec_record_at(files[id] + spec_encode(record), files[id].len()) == Some(
            (record, spec_encode(record).len()),
        ),
{
    let after = files.insert(id, files[id] + spec_encode(record));
    lemma_replay_agrees(files, after, id as nat);
    lemma_replay_segment_appended(spec_replay(files, id as nat), id, files[id], record, 0);
    lemma_record_at_appended(files[id], record);
    assert(spec_extends(files, after)) by {
        assert forall|other: u32| #[trigger] files.contains_key(other) implies after.contains_key(
            other,
        ) && spec_is_prefix(files[other], after[other]) by {
            assert(after[other].subrange(0, files[other].len() as int) =~= files[other]);
        }
    }
}

/// Law: the front part of a record, short of the whole, behind a segment
/// whose records run up to its end changes nothing of the replay, and the
/// valid end stays where it was. What a write that failed on the way left in
/// a store is passed over when the segment is opened again.
pub proof fn lemma_replay_torn(files: Files, id: u32, record: LogRecordView, k: int)
    requires
        files.contains_key(id),
        spec_valid_end(files[id], 0) == files[id].len(),
        record.key.len() <= u64::MAX,
        record.value.len() <= u64::MAX,
        0 <= k < spec_encode(record).len(),
    ensures
        ({
            let torn = files[id] + spec_encode(record).subrange(0, k);
            &&& spec_replay(files.insert(id, torn), id as nat + 1) == spec_replay(
                files,
                id as nat + 1,
            )
            &&& spec_valid_end(torn, 0) == files[id].len()
        }),
{
    let part = spec_encode(record).subrange(0, k);
    let torn = files[id] + part;
    lemma_decode_torn(record, k);
    assert(torn.skip(files[id].len() as int) =~= part);
    lemma_replay_agrees(files, files.insert(id, torn), id as nat);
    lemma_replay_segment_damaged(spec_replay(files, id as nat), id, files[id], part, 0);
}

/// A new, empty segment with the next id changes nothing of the replay.
pub proof fn lemma_replay_rotated(files: Files, id: u32, bytes: Seq<u8>)
    requires
        id < u32::MAX,
        forall|other: u32| #[trigger] files.contains_key(other) ==> other <= id,
    ensures
        spec_replay(files.insert((id + 1) as u32, Seq::empty()), id as nat + 2) == spec_replay(
            files,
            id as nat + 1,
        ),
        spec_valid_end(Seq::<u8>::empty(), 0) == 0,
        spec_extends(files, files.insert((id + 1) as u32, bytes)),
{
    let next = (id + 1) as u32;
    let after = files.insert(next, Seq::empty());
    lemma_replay_agrees(files, after, id as nat + 1);
    assert(spec_record_at(Seq::<u8>::empty(), 0) is None) by {
        if spec_record_at(Seq::<u8>::empty(), 0) is Some {
            lemma_decode_len(Seq::<u8>::empty().skip(0));
        }
    }
    assert(spec_replay(after, id as nat + 2) == spec_replay_segment(
        spec_replay(after, id as nat + 1),
        next,
        after[next],
        0,
    ));
    let grown = files.insert(next, bytes);
    assert forall|other: u32| #[trigger] files.contains_key(other) implies grown.contains_key(
        other,
    ) && spec_is_prefix(files[other], grown[other]) by {
        assert(grown[other].subrange(0, files[other].len() as int) =~= files[other]);
    }
}

/// Law: after a key was given a value, a lookup of the key finds that value.
pub proof fn lemma_lookup_after_put(
    files: Files,
    index: Entries,
    active: u32,
    size: u64,
    key: Seq<u8>,
    value: Seq<u8>,
)
    requires
        key.len() > 0,
        key.len() <= u64::MAX,
        value.len() <= u64::MAX,
        files.contains_key(active),
        files[active].len() <= u64::MAX,
        active < u32::MAX || !spec_rotates(
            files,
            active,
            size,
            spec_encode(spec_normal_record(key, value)).len(),
        ),
    ensures
        ({
            let bytes = spec_encode(spec_normal_record(key, value));
            spec_lookup(
                spec_appended(files, active, size, bytes),
                index.insert(key, spec_append_pos(files, active, size, bytes.len())),
                key,
            ) == Ok::<Seq<u8>, Errors>(value)
        }),
{
    let record = spec_normal_record(key, value);
    let bytes = spec_encode(record);
    if spec_rotates(files, active, size, bytes.len()) {
        lemma_record_at_appended(Seq::empty(), record);
        assert(Seq::<u8>::empty() + bytes =~= bytes);
    } else {
        lemma_record_at_appended(files[active], record);
    }
}

/// Law: after a key was deleted, a lookup of the key finds nothing.
pub proof fn lemma_lookup_after_delete(files: Files, index: Entries, key: Seq<u8>)
    requires
        key.len() > 0,
    ensures
        spec_lookup(files, index.remove(key), key) == Err::<Seq<u8>, Errors>(
            Errors::KeyNotFound,
        ),
{
}

/// Replaying the next record of a segment onto a valid index gives a valid
/// index, once the segment is taken to reach behind that record.
pub proof fn lemma_index_valid_step(
    before: Files,
    index: Entries,
    id: u32,
    contents: Seq<u8>,
    from: nat,
)
    requires
        from <= contents.len(),
        from <= u64::MAX,
        spec_index_valid(before.insert(id, contents.subrange(0, from as int)), index),
        spec_record_at(contents, from) matches Some(found) && spec_fits(contents, from, found.1),
    ensures
        ({
            let (record, n) = spec_record_at(contents, from).unwrap();
            spec_index_valid(
                before.insert(id, contents.subrange(0, (from + n) as int)),
                spec_apply_record(index, record, LogRecordPos { file_id: id, offset: from as u64 }),
            )
        }),
{
    let (record, n) = spec_record_at(contents, from).unwrap();
    let short = contents.subrange(0, from as int);
    let long = contents.subrange(0, (from + n) as int);
    let a = before.insert(id, short);
    let b = before.insert(id, long);
    assert(spec_extends(a, b)) by {
        assert forall|other: u32| #[trigger] a.contains_key(other) implies b.contains_key(other)
            && spec_is_prefix(a[other], b[other]) by {
            assert(b[other].subrange(0, a[other].len() as int) =~= a[other]);
        }
    }
    lemma_index_valid_extends(a, b, index);
    assert(spec_is_prefix(long, contents)) by {
        assert(contents.subrange(0, long.len() as int) =~= long);
    }
    lemma_record_at_front(long, contents, from);
    lemma_index_valid_apply(b, index, record, LogRecordPos { file_id: id, offset: from as u64 });
}

/// A segment with an id above all others adds its own replay to the replay
/// of the others.
pub proof fn lemma_replay_next(files: Files, low: nat, next: u32, contents: Seq<u8>)
    requires
        low <= next,
        forall|id: u32| #[trigger] files.contains_key(id) ==> id < low,
    ensures
        spec_replay(files.insert(next, contents), next as nat + 1) == spec_replay_segment(
            spec_replay(files, low),
            next,
            contents,
            0,
        ),
{
    let after = files.insert(next, contents);
    lemma_replay_agrees(files, after, next as nat);
    lemma_replay_gap(files, low, next as nat);
}

/// Cutting the segment with the highest id at its valid end changes nothing
/// of the replay, and the records of what is left run up to its end.
pub proof fn lemma_replay_cut(files: Files, id: u32)
    requires
        files.contains_key(id),
    ensures
        ({
            let end = spec_valid_end(files[id], 0);
            let cut = files.insert(id, files[id].subrange(0, end as int));
            &&& end <= files[id].len()
            &&& spec_replay(cut, id as nat + 1) == spec_replay(files, id as nat + 1)
            &&& spec_valid_end(cut[id], 0) == cut[id].len()
        }),
{
    let end = spec_valid_end(files[id], 0);
    let cut = files.insert(id, files[id].subrange(0, end as int));
    lemma_replay_agrees(files, cut, id as nat);
    lemma_replay_segment_cut(spec_replay(files, id as nat), id, files[id], 0, end);
}

/// Law: bytes behind the last record of a segment, among which no whole
/// record starts where that record ends, are left out of the replay, and the
/// valid end is where they begin.
pub proof fn lemma_replay_segment_damaged(
    index: Entries,
    id: u32,
    good: Seq<u8>,
    tail: Seq<u8>,
    from: nat,
)
    requires
        from <= good.len(),
        spec_valid_end(good, from) == good.len(),
        spec_record_at(good + tail, good.len()) is None,
    ensures
        spec_replay_segment(index, id, good + tail, from) == spec_replay_segment(
            index,
            id,
            good,
            from,
        ),
        spec_valid_end(good + tail, from) == good.len(),
    decreases good.len() - from,
{
    let all = good + tail;
    assert(spec_is_prefix(good, all)) by {
        assert(all.subrange(0, good.len() as int) =~= good);
    }
    if from == good.len() {
        assert(spec_record_at(good, from) is None) by {
            if spec_record_at(good, from) is Some {
                lemma_decode_len(good.skip(from as int));
            }
        }
    } else {
        match spec_record_at(good, from) {
            Some((found, n)) => {
                lemma_record_at_prefix(good, all, from);
                lemma_replay_segment_damaged(
                    spec_apply_record(
                        index,
                        found,
                        LogRecordPos { file_id: id, offset: from as u64 },
                    ),
                    id,
                    good,
                    tail,
                    from + n,
                );
            },
            None => {},
        }
    }
}

/// A replay reads only the segments below its bound.
pub proof fn lemma_replay_agrees(a: Files, b: Files, upto: nat)
    requires
        forall|id: u32|
            id < upto ==> (#[trigger] a.contains_key(id) <==> b.contains_key(id)) && (
            a.contains_key(id) ==> a[id] == b[id]),
    ensures
        spec_replay(a, upto) == spec_replay(b, upto),
    decreases upto,
{
    if upto > 0 {
        lemma_replay_agrees(a, b, (upto - 1) as nat);
        if upto - 1 <= u32::MAX {
            let id = (upto - 1) as u32;
            assert(a.contains_key(id) <==> b.contains_key(id));
        }
    }
}

/// Ids that no segment has add nothing to a replay.
pub proof fn lemma_replay_gap(files: Files, low: nat, high: nat)
    requires
        low <= high,
        forall|id: u32| low <= id < high ==> !#[trigger] files.contains_key(id),
    ensures
        spec_replay(files, high) == spec_replay(files, low),
    decreases high - low,
{
    if low < high {
        lemma_replay_gap(files, low, (high - 1) as nat);
        if high - 1 <= u32::MAX {
            let id = (high - 1) as u32;
            assert(!files.contains_key(id));
        }
    }
}

} // verus!
