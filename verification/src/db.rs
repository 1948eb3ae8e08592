//! The engine: one active segment that takes the writes, the older segments
//! that are only read, and the index that says where the latest record of
//! each key lies.
//!
//! A write that fails on the way leaves no byte in its segment: what it left
//! in the store lies behind the cursor and is cut off before the next write.
//! So the index stays what replaying the segments gives, but where a call
//! failed with its record in the log: there the contract says so.

use crate::data::data_file::DataFile;
use crate::data::log_record::{
    lemma_decode_len, spec_encode, spec_record_at, LogRecord, LogRecordPos, LogRecordType,
    LogRecordView,
};
use crate::error::{Errors, Result};
use crate::fio::IOManager;
use crate::index::{Entries, Indexer};
use crate::options::Options;
use crate::recovery::{
    lemma_extends_grown, lemma_extends_reflexive, lemma_extends_transitive,
    lemma_index_valid_extends, lemma_index_valid_step, lemma_lookup_after_delete,
    lemma_record_at_appended, lemma_replay_appended, lemma_replay_cut, lemma_replay_next,
    lemma_replay_rotated, lemma_sealed_kept_chain, spec_append_pos, spec_appended,
    spec_apply_record, spec_entry_valid, spec_extends, spec_index_valid, spec_is_prefix,
    spec_lookup, spec_normal_record, spec_replay, spec_replay_segment, spec_rotates,
    spec_sealed, spec_sealed_kept, spec_tombstone, spec_valid_end, Files,
};
use crate::util::buffer::{bytes_from_vec, bytes_to_vec, spec_bytes};
use bytes::Bytes;
use vstd::prelude::*;
use vstd::slice::slice_to_vec;

verus! {

/// Whether segment `i` of `files` has the id `id`.
pub open spec fn spec_holds<IO: IOManager>(files: Seq<DataFile<IO>>, i: int, id: u32) -> bool {
    0 <= i < files.len() && files[i].spec_file_id() == id
}

/// Whether the ids of `files` are strictly ascending.
pub open spec fn spec_ascending<IO: IOManager>(files: Seq<DataFile<IO>>) -> bool {
    forall|i: int, j: int|
        0 <= i < j < files.len() ==> #[trigger] files[i].spec_file_id()
            < #[trigger] files[j].spec_file_id()
}

/// Whether every one of `files` has its cursor at its end.
pub open spec fn spec_all_wf<IO: IOManager>(files: Seq<DataFile<IO>>) -> bool {
    forall|i: int| 0 <= i < files.len() ==> (#[trigger] files[i]).wf()
}

/// The contents of `files`, by their ids.
pub open spec fn spec_files_of<IO: IOManager>(files: Seq<DataFile<IO>>) -> Files {
    Map::new(
        |id: u32| exists|i: int| spec_holds(files, i, id),
        |id: u32| files[choose|i: int| spec_holds(files, i, id)]@,
    )
}

/// Among segments with ascending ids, each is found under its id.
pub proof fn lemma_files_of_at<IO: IOManager>(files: Seq<DataFile<IO>>, i: int)
    requires
        spec_ascending(files),
        0 <= i < files.len(),
    ensures
        spec_files_of(files).contains_key(files[i].spec_file_id()),
        spec_files_of(files)[files[i].spec_file_id()] == files[i]@,
{
    let id = files[i].spec_file_id();
    assert(spec_holds(files, i, id));
    let j = choose|j: int| spec_holds(files, j, id);
    if j < i {
        assert(files[j].spec_file_id() < files[i].spec_file_id());
    } else if i < j {
        assert(files[i].spec_file_id() < files[j].spec_file_id());
    }
}

/// A segment with a higher id than all others adds its contents under its
/// id.
pub proof fn lemma_files_of_push<IO: IOManager>(files: Seq<DataFile<IO>>, last: DataFile<IO>)
    requires
        spec_ascending(files.push(last)),
    ensures
        spec_ascending(files),
        !spec_files_of(files).contains_key(last.spec_file_id()),
        spec_files_of(files.push(last)) == spec_files_of(files).insert(
            last.spec_file_id(),
            last@,
        ),
{
    let all = files.push(last);
    let n = files.len() as int;
    assert(spec_ascending(files)) by {
        assert forall|i: int, j: int| 0 <= i < j < files.len() implies #[trigger] files[i].spec_file_id()
            < #[trigger] files[j].spec_file_id() by {
            assert(all[i].spec_file_id() < all[j].spec_file_id());
        }
    }
    assert(!spec_files_of(files).contains_key(last.spec_file_id())) by {
        if spec_files_of(files).contains_key(last.spec_file_id()) {
            let i = choose|i: int| spec_holds(files, i, last.spec_file_id());
            assert(all[i].spec_file_id() < all[n].spec_file_id());
        }
    }
    let target = spec_files_of(files).insert(last.spec_file_id(), last@);
    assert forall|id: u32| #[trigger] spec_files_of(all).contains_key(id) <==> target.contains_key(
        id,
    ) by {
        if spec_files_of(all).contains_key(id) {
            let i = choose|i: int| spec_holds(all, i, id);
            if i < n {
                assert(spec_holds(files, i, id));
            }
        }
        if target.contains_key(id) {
            if id == last.spec_file_id() {
                assert(spec_holds(all, n, id));
            } else {
                let i = choose|i: int| spec_holds(files, i, id);
                assert(spec_holds(all, i, id));
            }
        }
    }
    assert forall|id: u32| #[trigger] spec_files_of(all).contains_key(id) implies spec_files_of(
        all,
    )[id] == target[id] by {
        let i = choose|i: int| spec_holds(all, i, id);
        lemma_files_of_at(all, i);
        if i < n {
            lemma_files_of_at(files, i);
        }
    }
    assert(spec_files_of(all) =~= target);
}

/// When the last of the segments grows, at its end, so do the contents of
/// the segments, and nothing else changes.
pub proof fn lemma_files_of_grown<IO: IOManager>(
    older: Seq<DataFile<IO>>,
    before: DataFile<IO>,
    after: DataFile<IO>,
)
    requires
        spec_ascending(older.push(before)),
        after.spec_file_id() == before.spec_file_id(),
    ensures
        spec_ascending(older.push(after)),
        spec_files_of(older.push(before)).contains_key(before.spec_file_id()),
        spec_files_of(older.push(before))[before.spec_file_id()] == before@,
        spec_files_of(older.push(after)) == spec_files_of(older.push(before)).insert(
            before.spec_file_id(),
            after@,
        ),
{
    let n = older.len() as int;
    assert(spec_ascending(older.push(after))) by {
        assert forall|i: int, j: int| 0 <= i < j < older.push(after).len() implies (
        #[trigger] older.push(after)[i]).spec_file_id() < (#[trigger] older.push(
            after,
        )[j]).spec_file_id() by {
            assert(older.push(before)[i].spec_file_id() < older.push(before)[j].spec_file_id());
        }
    }
    lemma_files_of_push(older, before);
    lemma_files_of_push(older, after);
    lemma_files_of_at(older.push(before), n);
    assert(spec_files_of(older.push(after)) =~= spec_files_of(older.push(before)).insert(
        before.spec_file_id(),
        after@,
    ));
}

/// The bytes of `files` that are known to have reached stable storage, by
/// their ids.
pub open spec fn spec_durable_of<IO: IOManager>(files: Seq<DataFile<IO>>) -> Files {
    Map::new(
        |id: u32| exists|i: int| spec_holds(files, i, id),
        |id: u32| files[choose|i: int| spec_holds(files, i, id)].durable(),
    )
}

/// Whether all of every one of `files` has reached stable storage.
pub open spec fn spec_all_flushed<IO: IOManager>(files: Seq<DataFile<IO>>) -> bool {
    forall|i: int| 0 <= i < files.len() ==> (#[trigger] files[i]).durable() == files[i]@
}

/// Whether the store of every one of `files` holds the segment and nothing
/// more: no write that failed has left bytes behind it.
pub open spec fn spec_all_whole<IO: IOManager>(files: Seq<DataFile<IO>>) -> bool {
    forall|i: int| 0 <= i < files.len() ==> (#[trigger] files[i]).stored() == files[i]@
}

/// Whether `b` holds the segments of `a`, one for one: each with the same
/// id and the same contents, and its cursor at the end if it was there.
pub open spec fn spec_same_segments<IO: IOManager>(
    a: Seq<DataFile<IO>>,
    b: Seq<DataFile<IO>>,
) -> bool {
    &&& a.len() == b.len()
    &&& forall|i: int|
        0 <= i < a.len() ==> (#[trigger] b[i]).spec_file_id() == a[i].spec_file_id() && b[i]@
            == a[i]@ && (a[i].wf() ==> b[i].wf())
}

/// Among segments with ascending ids, what has reached stable storage of
/// each is found under its id.
pub proof fn lemma_durable_of_at<IO: IOManager>(files: Seq<DataFile<IO>>, i: int)
    requires
        spec_ascending(files),
        0 <= i < files.len(),
    ensures
        spec_durable_of(files).contains_key(files[i].spec_file_id()),
        spec_durable_of(files)[files[i].spec_file_id()] == files[i].durable(),
{
    let id = files[i].spec_file_id();
    assert(spec_holds(files, i, id));
    let j = choose|j: int| spec_holds(files, j, id);
    if j < i {
        assert(files[j].spec_file_id() < files[i].spec_file_id());
    } else if i < j {
        assert(files[i].spec_file_id() < files[j].spec_file_id());
    }
}

/// Segments that are the same one for one are in the same order and hold
/// the same contents.
pub proof fn lemma_same_segments<IO: IOManager>(a: Seq<DataFile<IO>>, b: Seq<DataFile<IO>>)
    requires
        spec_same_segments(a, b),
        spec_ascending(a),
    ensures
        spec_ascending(b),
        spec_files_of(b) == spec_files_of(a),
        spec_all_wf(a) ==> spec_all_wf(b),
{
    assert forall|i: int, j: int| 0 <= i < j < b.len() implies #[trigger] b[i].spec_file_id()
        < #[trigger] b[j].spec_file_id() by {
        assert(a[i].spec_file_id() < a[j].spec_file_id());
    }
    assert forall|id: u32| #[trigger] spec_files_of(b).contains_key(id) <==> spec_files_of(
        a,
    ).contains_key(id) by {
        if spec_files_of(b).contains_key(id) {
            let i = choose|i: int| spec_holds(b, i, id);
            assert(spec_holds(a, i, id));
        }
        if spec_files_of(a).contains_key(id) {
            let i = choose|i: int| spec_holds(a, i, id);
            assert(b[i].spec_file_id() == a[i].spec_file_id());
            assert(spec_holds(b, i, id));
        }
    }
    assert forall|id: u32| #[trigger] spec_files_of(b).contains_key(id) implies spec_files_of(
        b,
    )[id] == spec_files_of(a)[id] by {
        let i = choose|i: int| spec_holds(b, i, id);
        lemma_files_of_at(b, i);
        lemma_files_of_at(a, i);
    }
    assert(spec_files_of(b) =~= spec_files_of(a));
    if spec_all_wf(a) {
        assert forall|i: int| 0 <= i < b.len() implies (#[trigger] b[i]).wf() by {
            assert(a[i].wf());
        }
    }
}

/// Where every segment of `a` but the active one stands in `b` at its place
/// with what had reached stable storage of it, `b` keeps what had reached
/// stable storage of the sealed segments.
pub proof fn lemma_durable_kept<IO: IOManager>(
    a: Seq<DataFile<IO>>,
    b: Seq<DataFile<IO>>,
    active: u32,
)
    requires
        spec_ascending(a),
        spec_ascending(b),
        forall|i: int|
            0 <= i < a.len() && (#[trigger] a[i]).spec_file_id() != active ==> i < b.len()
                && b[i].spec_file_id() == a[i].spec_file_id() && b[i].durable()
                == a[i].durable(),
    ensures
        spec_sealed_kept(spec_durable_of(a), active, spec_durable_of(b)),
{
    assert forall|id: u32| #[trigger]
        spec_durable_of(a).contains_key(id) && id != active implies spec_durable_of(
        b,
    ).contains_key(id) && spec_durable_of(b)[id] == spec_durable_of(a)[id] by {
        let i = choose|i: int| spec_holds(a, i, id);
        assert(a[i].spec_file_id() != active);
        lemma_durable_of_at(a, i);
        lemma_durable_of_at(b, i);
    }
}

/// Segments that are the same one for one, with the same bytes known to
/// have reached stable storage, hold the same under each id.
pub proof fn lemma_durable_same<IO: IOManager>(a: Seq<DataFile<IO>>, b: Seq<DataFile<IO>>)
    requires
        spec_ascending(a),
        a.len() == b.len(),
        forall|i: int|
            0 <= i < a.len() ==> (#[trigger] b[i]).spec_file_id() == a[i].spec_file_id()
                && b[i].durable() == a[i].durable(),
    ensures
        spec_durable_of(b) == spec_durable_of(a),
{
    assert forall|i: int, j: int| 0 <= i < j < b.len() implies #[trigger] b[i].spec_file_id()
        < #[trigger] b[j].spec_file_id() by {
        assert(a[i].spec_file_id() < a[j].spec_file_id());
    }
    assert forall|id: u32| #[trigger] spec_durable_of(b).contains_key(id) <==> spec_durable_of(
        a,
    ).contains_key(id) by {
        if spec_durable_of(b).contains_key(id) {
            let i = choose|i: int| spec_holds(b, i, id);
            assert(spec_holds(a, i, id));
        }
        if spec_durable_of(a).contains_key(id) {
            let i = choose|i: int| spec_holds(a, i, id);
            assert(b[i].spec_file_id() == a[i].spec_file_id());
            assert(spec_holds(b, i, id));
        }
    }
    assert forall|id: u32| #[trigger] spec_durable_of(b).contains_key(id) implies spec_durable_of(
        b,
    )[id] == spec_durable_of(a)[id] by {
        let i = choose|i: int| spec_holds(b, i, id);
        lemma_durable_of_at(b, i);
        lemma_durable_of_at(a, i);
    }
    assert(spec_durable_of(b) =~= spec_durable_of(a));
}

/// A copy of `bytes`.
fn copy_of(bytes: &Vec<u8>) -> (copy: Vec<u8>)
    ensures
        copy@ == bytes@,
{
    slice_to_vec(bytes.as_slice())
}

/// Whether every one of `files` holds nothing.
pub open spec fn spec_all_empty<IO: IOManager>(files: Seq<DataFile<IO>>) -> bool {
    forall|i: int| 0 <= i < files.len() ==> (#[trigger] files[i])@.len() == 0
}

/// Whether no two of `files` share an id.
pub open spec fn spec_distinct_ids<IO: IOManager>(files: Seq<DataFile<IO>>) -> bool {
    forall|i: int, j: int|
        0 <= i < j < files.len() ==> #[trigger] files[i].spec_file_id()
            != #[trigger] files[j].spec_file_id()
}

/// Among segments with ascending ids, the last has the highest.
pub proof fn lemma_files_of_max<IO: IOManager>(files: Seq<DataFile<IO>>)
    requires
        spec_ascending(files),
        files.len() > 0,
    ensures
        forall|id: u32| #[trigger]
            spec_files_of(files).contains_key(id) ==> id <= files.last().spec_file_id(),
{
    assert forall|id: u32| #[trigger] spec_files_of(files).contains_key(id) implies id
        <= files.last().spec_file_id() by {
        let i = choose|i: int| spec_holds(files, i, id);
        if i < files.len() - 1 {
            assert(files[i].spec_file_id() < files[files.len() - 1].spec_file_id());
        }
    }
}

/// Whether `i` is among `places`.
pub open spec fn spec_covers(places: Seq<int>, i: int) -> bool {
    exists|j: int| 0 <= j < places.len() && #[trigger] places[j] == i
}

/// Segments put in ascending order are the segments that were given: where
/// `origin` says for each of `sorted` which of `given` it is, and leaves
/// none of `given` out, the two hold the same contents under the same ids,
/// and no two of `given` share an id.
pub proof fn lemma_same_files<IO: IOManager>(
    given: Seq<DataFile<IO>>,
    sorted: Seq<DataFile<IO>>,
    origin: Seq<int>,
)
    requires
        spec_ascending(sorted),
        origin.len() == sorted.len(),
        forall|j: int|
            0 <= j < sorted.len() ==> 0 <= #[trigger] origin[j] < given.len() && sorted[j]
                == given[origin[j]],
        forall|i: int| 0 <= i < given.len() ==> #[trigger] spec_covers(origin, i),
    ensures
        spec_files_of(given) == spec_files_of(sorted),
        spec_distinct_ids(given),
{
    assert forall|i: int, k: int| 0 <= i < k < given.len() implies #[trigger] given[i].spec_file_id()
        != #[trigger] given[k].spec_file_id() by {
        assert(spec_covers(origin, i) && spec_covers(origin, k));
        let a = choose|j: int| 0 <= j < origin.len() && #[trigger] origin[j] == i;
        let b = choose|j: int| 0 <= j < origin.len() && #[trigger] origin[j] == k;
        if a < b {
            assert(sorted[a].spec_file_id() < sorted[b].spec_file_id());
        } else if b < a {
            assert(sorted[b].spec_file_id() < sorted[a].spec_file_id());
        }
    }
    assert forall|id: u32| #[trigger] spec_files_of(given).contains_key(id) <==> spec_files_of(
        sorted,
    ).contains_key(id) by {
        if spec_files_of(given).contains_key(id) {
            let i = choose|i: int| spec_holds(given, i, id);
            assert(spec_covers(origin, i));
            let j = choose|j: int| 0 <= j < origin.len() && #[trigger] origin[j] == i;
            assert(spec_holds(sorted, j, id));
        }
        if spec_files_of(sorted).contains_key(id) {
            let j = choose|j: int| spec_holds(sorted, j, id);
            assert(spec_holds(given, origin[j], id));
        }
    }
    assert forall|id: u32| #[trigger] spec_files_of(given).contains_key(id) implies spec_files_of(
        given,
    )[id] == spec_files_of(sorted)[id] by {
        let i = choose|i: int| spec_holds(given, i, id);
        assert(spec_covers(origin, i));
        let j = choose|j: int| 0 <= j < origin.len() && #[trigger] origin[j] == i;
        lemma_files_of_at(sorted, j);
    }
    assert(spec_files_of(given) =~= spec_files_of(sorted));
}

/// Takes the segment with the lowest id out of `pending`, and says where it
/// stood.
fn take_lowest<IO: IOManager>(pending: &mut Vec<DataFile<IO>>) -> (res: (DataFile<IO>, usize))
    requires
        old(pending)@.len() > 0,
    ensures
        res.1 < old(pending)@.len(),
        res.0 == old(pending)@[res.1 as int],
        final(pending)@ == old(pending)@.remove(res.1 as int),
        forall|i: int|
            0 <= i < old(pending)@.len() ==> res.0.spec_file_id() <= (#[trigger] old(
                pending,
            )@[i]).spec_file_id(),
{
    let mut at: usize = 0;
    let mut lowest: u32 = pending[0].get_file_id();
    let mut i: usize = 1;
    while i < pending.len()
        invariant
            1 <= i <= pending@.len(),
            at < i,
            lowest == pending@[at as int].spec_file_id(),
            forall|k: int| 0 <= k < i ==> lowest <= (#[trigger] pending@[k]).spec_file_id(),
        decreases pending@.len() - i,
    {
        let id: u32 = pending[i].get_file_id();
        if id < lowest {
            lowest = id;
            at = i;
        }
        i = i + 1;
    }
    let file = pending.remove(at);
    (file, at)
}

/// The engine.
pub struct Engine<IO: IOManager, I: Indexer> {
    options: Options,
    active_file: DataFile<IO>,
    older_files: Vec<DataFile<IO>>,
    index: I,
}

impl<IO: IOManager, I: Indexer> Engine<IO, I> {
    /// The contents of all segments, by their ids.
    pub closed spec fn files(&self) -> Files {
        spec_files_of(self.older_files@.push(self.active_file))
    }

    /// The entries of the index.
    pub closed spec fn index(&self) -> Entries {
        self.index@
    }

    /// The id of the active segment.
    pub closed spec fn active_id(&self) -> u32 {
        self.active_file.spec_file_id()
    }

    /// The size beyond which no segment grows.
    pub closed spec fn data_file_size(&self) -> u64 {
        self.options.data_file_size
    }

    /// Whether every write is flushed before it returns.
    pub closed spec fn sync_write(&self) -> bool {
        self.options.sync_write
    }

    /// What is known to have reached stable storage of each segment, by
    /// their ids.
    pub closed spec fn durable(&self) -> Files {
        spec_durable_of(self.older_files@.push(self.active_file))
    }

    /// Whether all of segment `id` has reached stable storage.
    pub open spec fn flushed(&self, id: u32) -> bool {
        &&& self.files().contains_key(id)
        &&& self.durable().contains_key(id)
        &&& self.durable()[id] == self.files()[id]
    }

    /// The directory in which the engine opens its segments.
    pub closed spec fn dir_path(&self) -> std::path::PathBuf {
        self.options.dir_path
    }

    /// The directory in which the active segment was opened.
    pub closed spec fn active_dir(&self) -> std::path::PathBuf {
        self.active_file.spec_dir_path()
    }

    /// The directory and the segment id that the store of the active segment
    /// was opened for.
    pub closed spec fn active_home(&self) -> (std::path::PathBuf, u32) {
        self.active_file.home()
    }

    /// The segments are in order, each with its cursor in place, the active
    /// one last; the records of the active segment run up to its end; and
    /// every entry of the index is the place of a normal record of its key.
    pub closed spec fn wf(&self) -> bool {
        &&& spec_all_wf(self.older_files@.push(self.active_file))
        &&& spec_ascending(self.older_files@.push(self.active_file))
        &&& spec_index_valid(self.files(), self.index@)
        &&& self.clean()
    }

    /// The index is what replaying the segments gives: opening an engine
    /// over the segments as they are gives this index again.
    pub closed spec fn recoverable(&self) -> bool {
        self.index@ == self.replayed()
    }

    /// The index that replaying the segments gives: what an engine that is
    /// opened over them will hold.
    pub closed spec fn replayed(&self) -> Entries {
        spec_replay(self.files(), self.active_id() as nat + 1)
    }

    /// What reopening will give after `record` was to be appended: where it
    /// is in the log in full, whether the call failed or not, the replay has
    /// the record at its place behind all others; where it is not, the
    /// replay is as it was.
    pub open spec fn replay_follows(before: Self, after: Self, record: LogRecordView) -> bool {
        let bytes = spec_encode(record);
        if Self::appended(before, after, bytes) {
            after.replayed() == spec_apply_record(
                before.replayed(),
                record,
                before.append_pos(bytes.len()),
            )
        } else {
            after.replayed() == before.replayed()
        }
    }

    /// The records of the active segment run up to its end.
    spec fn clean(&self) -> bool {
        spec_valid_end(self.active_file@, 0) == self.active_file@.len()
    }

    /// Whether appending `len` bytes starts a new segment: whether the active
    /// segment would grow beyond its size.
    pub open spec fn rotates(&self, len: nat) -> bool {
        spec_rotates(self.files(), self.active_id(), self.data_file_size(), len)
    }

    /// Where `len` bytes that are appended come to lie.
    pub open spec fn append_pos(&self, len: nat) -> LogRecordPos {
        spec_append_pos(self.files(), self.active_id(), self.data_file_size(), len)
    }

    /// Whether `after` has the segments, the index and the active segment of
    /// `before`.
    pub open spec fn same_log(before: Self, after: Self) -> bool {
        &&& after.files() == before.files()
        &&& after.index() == before.index()
        &&& after.active_id() == before.active_id()
    }

    /// Whether `after` is `before` in all that contracts speak of.
    pub open spec fn unchanged(before: Self, after: Self) -> bool {
        &&& Self::same_log(before, after)
        &&& after.durable() == before.durable()
    }

    /// What holds of an engine after any write, whether it failed or not, of
    /// the engine before: the settings stay; every segment is still there,
    /// with all that it held; the sealed segments are as they were, and what
    /// had reached stable storage of them too; and the active segment is the
    /// same, with no segment added, or a new one with the next id, the only
    /// one added, opened in the engine's directory.
    pub open spec fn followed_by(before: Self, after: Self) -> bool {
        &&& after.dir_path() == before.dir_path()
        &&& after.data_file_size() == before.data_file_size()
        &&& after.sync_write() == before.sync_write()
        &&& spec_extends(before.files(), after.files())
        &&& spec_sealed_kept(before.files(), before.active_id(), after.files())
        &&& spec_sealed_kept(before.durable(), before.active_id(), after.durable())
        &&& if after.active_id() == before.active_id() {
            &&& after.files().dom() == before.files().dom()
            &&& after.active_dir() == before.active_dir()
        } else {
            &&& before.active_id() < u32::MAX
            &&& after.active_id() == before.active_id() + 1
            &&& after.files().dom() == before.files().dom().insert(after.active_id())
            &&& after.active_dir() == before.dir_path()
        }
    }

    /// Whether `after` holds the segments of `before` as they are once the
    /// active one was sealed for `len` bytes to come, if it had to be: it was
    /// flushed, and a new, empty segment is the active one.
    pub open spec fn sealed(before: Self, after: Self, len: nat) -> bool {
        &&& after.files() == spec_sealed(
            before.files(),
            before.active_id(),
            before.data_file_size(),
            len,
        )
        &&& after.active_id() == before.append_pos(len).file_id
        &&& before.rotates(len) ==> before.active_id() < u32::MAX && after.flushed(
            before.active_id(),
        )
    }

    /// Whether `after` holds the log of `before` with `bytes` appended in
    /// full: at the end of the active segment, or in a new segment, before
    /// which the old one was flushed.
    pub open spec fn appended(before: Self, after: Self, bytes: Seq<u8>) -> bool {
        &&& after.files() == spec_appended(
            before.files(),
            before.active_id(),
            before.data_file_size(),
            bytes,
        )
        &&& after.active_id() == before.append_pos(bytes.len()).file_id
        &&& before.rotates(bytes.len()) ==> before.active_id() < u32::MAX && after.flushed(
            before.active_id(),
        )
    }

    /// What appending `bytes` leaves where it fails, for each failure: the
    /// index is as it was in any case.
    pub open spec fn append_failed(before: Self, after: Self, bytes: Seq<u8>, e: Errors) -> bool {
        &&& after.index() == before.index()
        &&& match e {
            // The next segment could not be opened: nothing has changed.
            Errors::FailedToOpenDataFile => before.rotates(bytes.len()) && Self::same_log(
                before,
                after,
            ),
            // The record was not written: no byte of it is in the segment.
            Errors::FailedToWriteToDataFile => Self::sealed(before, after, bytes.len()),
            // The segment to be sealed could not be flushed, and nothing has
            // changed; or the record is in the log, and the flush behind it
            // failed.
            Errors::FailedToSyncDataFile => {
                ||| before.rotates(bytes.len()) && Self::same_log(before, after)
                ||| before.sync_write() && Self::appended(before, after, bytes)
                    && !after.flushed(after.active_id())
            },
            _ => false,
        }
    }

    /// What a put of `value` under `key` leaves, for each way it can end.
    pub open spec fn put_outcome(
        before: Self,
        after: Self,
        key: Seq<u8>,
        value: Seq<u8>,
        res: core::result::Result<(), Errors>,
    ) -> bool {
        let bytes = spec_encode(spec_normal_record(key, value));
        &&& Self::followed_by(before, after)
        &&& key.len() == 0 <==> res == Err::<(), Errors>(Errors::KeyIsEmpty)
        &&& key.len() > 0 ==> Self::replay_follows(
            before,
            after,
            spec_normal_record(key, value),
        )
        // Reopening gives the index again, but where the call failed with
        // the record in the log.
        &&& before.recoverable() && !(res is Err && Self::appended(before, after, bytes))
            ==> after.recoverable()
        // Nothing is flushed that need not be.
        &&& !before.rotates(bytes.len()) && !before.sync_write() ==> after.durable()
            == before.durable()
        &&& match res {
            Ok(_) => {
                &&& Self::appended(before, after, bytes)
                &&& after.index() == before.index().insert(key, before.append_pos(bytes.len()))
                &&& after.spec_get(key) == Ok::<Seq<u8>, Errors>(value)
                &&& before.sync_write() ==> after.flushed(after.active_id())
            },
            Err(Errors::KeyIsEmpty) => Self::unchanged(before, after),
            // The record is in the log, flushed where every write is, and
            // the index does not point at it.
            Err(Errors::FailedToUpdataMemIndex) => {
                &&& Self::appended(before, after, bytes)
                &&& after.index() == before.index()
                &&& before.sync_write() ==> after.flushed(after.active_id())
            },
            Err(e) => Self::append_failed(before, after, bytes, e),
        }
    }

    /// What a delete of `key` leaves, for each way it can end.
    pub open spec fn delete_outcome(
        before: Self,
        after: Self,
        key: Seq<u8>,
        res: core::result::Result<(), Errors>,
    ) -> bool {
        let bytes = spec_encode(spec_tombstone(key));
        &&& Self::followed_by(before, after)
        &&& before.index().contains_key(key) ==> Self::replay_follows(
            before,
            after,
            spec_tombstone(key),
        )
        &&& before.recoverable() && !(res is Err && Self::appended(before, after, bytes))
            ==> after.recoverable()
        &&& res is Ok ==> after.index() == before.index().remove(key)
        &&& res is Ok && key.len() > 0 ==> after.spec_get(key) == Err::<Seq<u8>, Errors>(
            Errors::KeyNotFound,
        )
        &&& if !before.index().contains_key(key) {
            // A key that is not there: nothing to do.
            res is Ok && Self::unchanged(before, after)
        } else {
            &&& !before.rotates(bytes.len()) && !before.sync_write() ==> after.durable()
                == before.durable()
            &&& match res {
                Ok(_) => Self::appended(before, after, bytes) && (before.sync_write()
                    ==> after.flushed(after.active_id())),
                Err(e) => Self::append_failed(before, after, bytes, e),
            }
        }
    }

    /// What `get` finds for `key`.
    pub open spec fn spec_get(&self, key: Seq<u8>) -> core::result::Result<Seq<u8>, Errors> {
        spec_lookup(self.files(), self.index(), key)
    }

    /// In a well-formed engine the active segment is among the segments, its
    /// store was opened for it in its directory, no segment has a higher id,
    /// and a lookup finds the value of each key of the index.
    pub proof fn lemma_wf(&self)
        requires
            self.wf(),
        ensures
            self.files().contains_key(self.active_id()),
            self.active_home() == (self.active_dir(), self.active_id()),
            forall|id: u32| #[trigger] self.files().contains_key(id) ==> id <= self.active_id(),
            spec_index_valid(self.files(), self.index()),
            forall|key: Seq<u8>|
                key.len() > 0 && #[trigger] self.index().contains_key(key) ==> self.spec_get(
                    key,
                ) is Ok,
    {
        let all = self.older_files@.push(self.active_file);
        let n = self.older_files@.len() as int;
        lemma_files_of_at(all, n);
        assert(all[n].wf());
        self.active_file.lemma_cursor_at_end();
        assert forall|id: u32| #[trigger] self.files().contains_key(id) implies id
            <= self.active_id() by {
            let i = choose|i: int| spec_holds(all, i, id);
            if i < n {
                assert(all[i].spec_file_id() < all[n].spec_file_id());
            }
        }
        assert forall|key: Seq<u8>|
            key.len() > 0 && #[trigger] self.index().contains_key(key) implies self.spec_get(
            key,
        ) is Ok by {
            assert(spec_entry_valid(self.files(), key, self.index()[key]));
        }
    }

    /// What well-formedness says of the parts.
    proof fn lemma_parts(&self)
        requires
            self.wf(),
        ensures
            self.active_file.wf(),
            self.active_file.spec_write_offset() == self.active_file@.len(),
            spec_all_wf(self.older_files@),
            spec_ascending(self.older_files@),
            self.files().contains_key(self.active_id()),
            self.files()[self.active_id()] == self.active_file@,
    {
        let all = self.older_files@.push(self.active_file);
        let n = self.older_files@.len() as int;
        assert(all[n].wf());
        self.active_file.lemma_cursor_at_end();
        assert forall|i: int| 0 <= i < n implies (#[trigger] self.older_files@[i]).wf() by {
            assert(all[i].wf());
        }
        lemma_files_of_push(self.older_files@, self.active_file);
        lemma_files_of_at(all, n);
    }

    /// A flush of the active segment leaves the engine as it is, but for
    /// what has reached stable storage of that segment.
    proof fn lemma_active_flush(&self, after: &Self)
        requires
            self.wf(),
            after.older_files == self.older_files,
            after.index == self.index,
            after.options == self.options,
            after.active_file@ == self.active_file@,
            after.active_file.spec_file_id() == self.active_file.spec_file_id(),
            after.active_file.wf(),
        ensures
            after.wf(),
            after.files().dom() == self.files().dom(),
            after.active_file.durable() == self.active_file.durable() ==> after.durable()
                == self.durable(),
            after.files() == self.files(),
            after.active_id() == self.active_id(),
            after.replayed() == self.replayed(),
            after.clean() == self.clean(),
            spec_sealed_kept(self.durable(), self.active_id(), after.durable()),
            after.files().contains_key(after.active_id()),
            after.files()[after.active_id()] == after.active_file@,
            after.durable().contains_key(after.active_id()),
            after.durable()[after.active_id()] == after.active_file.durable(),
    {
        let a = self.older_files@.push(self.active_file);
        let b = after.older_files@.push(after.active_file);
        let n = self.older_files@.len() as int;
        assert(spec_same_segments(a, b)) by {
            assert(a[n].wf());
            assert forall|i: int| 0 <= i < a.len() implies (#[trigger] b[i]).spec_file_id()
                == a[i].spec_file_id() && b[i]@ == a[i]@ && (a[i].wf() ==> b[i].wf()) by {
                if i < n {
                    assert(b[i] == a[i]);
                }
            }
        }
        lemma_same_segments(a, b);
        lemma_files_of_at(b, n);
        lemma_durable_of_at(b, n);
        assert forall|i: int|
            0 <= i < a.len() && (#[trigger] a[i]).spec_file_id() != self.active_id() implies i
            < b.len() && b[i].spec_file_id() == a[i].spec_file_id() && b[i].durable()
            == a[i].durable() by {
            assert(b[i] == a[i]);
        }
        lemma_durable_kept(a, b, self.active_id());
        if after.active_file.durable() == self.active_file.durable() {
            assert forall|i: int| 0 <= i < a.len() implies (#[trigger] b[i]).spec_file_id()
                == a[i].spec_file_id() && b[i].durable() == a[i].durable() by {
                if i < n {
                    assert(b[i] == a[i]);
                }
            }
            lemma_durable_same(a, b);
        }
    }

    /// No segment has an id above the active one's, and what is known of
    /// stable storage is known of the segments that there are.
    proof fn lemma_no_next(&self)
        requires
            self.wf(),
        ensures
            forall|id: u32| #[trigger] self.durable().contains_key(id) ==> id <= self.active_id(),
            forall|id: u32| #[trigger] self.files().contains_key(id) ==> id <= self.active_id(),
            self.durable().dom() == self.files().dom(),
    {
        self.lemma_wf();
        assert(self.durable().dom() =~= self.files().dom());
        assert forall|id: u32| #[trigger] self.durable().contains_key(id) implies id
            <= self.active_id() by {
            assert(self.files().contains_key(id));
        }
    }

    /// Finds the older segment with the id `id`.
    fn find_older(&self, id: u32) -> (found: Option<usize>)
        requires
            spec_ascending(self.older_files@),
        ensures
            match found {
                Some(i) => spec_holds(self.older_files@, i as int, id),
                None => forall|i: int| !spec_holds(self.older_files@, i, id),
            },
    {
        let mut low: usize = 0;
        let mut high: usize = self.older_files.len();
        while low < high
            invariant
                low <= high <= self.older_files@.len(),
                spec_ascending(self.older_files@),
                forall|i: int| 0 <= i < low ==> (#[trigger] self.older_files@[i]).spec_file_id() < id,
                forall|i: int|
                    high <= i < self.older_files@.len() ==> (
                    #[trigger] self.older_files@[i]).spec_file_id() > id,
            decreases high - low,
        {
            let mid: usize = low + (high - low) / 2;
            let here: u32 = self.older_files[mid].get_file_id();
            if here == id {
                return Some(mid);
            } else if here < id {
                assert forall|i: int| 0 <= i < mid + 1 implies (
                #[trigger] self.older_files@[i]).spec_file_id() < id by {
                    if i < mid {
                        assert(self.older_files@[i].spec_file_id()
                            < self.older_files@[mid as int].spec_file_id());
                    }
                }
                low = mid + 1;
            } else {
                assert forall|i: int| mid <= i < self.older_files@.len() implies (
                #[trigger] self.older_files@[i]).spec_file_id() > id by {
                    if mid < i {
                        assert(self.older_files@[mid as int].spec_file_id()
                            < self.older_files@[i].spec_file_id());
                    }
                }
                high = mid;
            }
        }
        None
    }

    /// Reads the record at `pos`.
    fn read_at(&self, pos: LogRecordPos) -> (res: Result<LogRecord>)
        requires
            self.wf(),
        ensures
            match res {
                Ok(record) => {
                    &&& self.files().contains_key(pos.file_id)
                    &&& spec_record_at(self.files()[pos.file_id], pos.offset as nat) matches Some(
                        found,
                    )
                    &&& found.0 == record@
                },
                Err(e) => {
                    ||| e == Errors::FailedToReadFromDataFile
                    ||| e == Errors::DataFileNotFound && !self.files().contains_key(pos.file_id)
                    ||| e == Errors::CorruptRecord && self.files().contains_key(pos.file_id) && (
                    spec_record_at(self.files()[pos.file_id], pos.offset as nat) matches Some(
                        found,
                    ) ==> found.1 > usize::MAX)
                },
            },
    {
        let ghost all = self.older_files@.push(self.active_file);
        let ghost n = self.older_files@.len() as int;
        proof {
            lemma_files_of_push(self.older_files@, self.active_file);
        }
        if self.active_file.get_file_id() == pos.file_id {
            proof {
                lemma_files_of_at(all, n);
            }
            self.active_file.read_log_record(pos.offset)
        } else {
            match self.find_older(pos.file_id) {
                Some(i) => {
                    proof {
                        assert(all[i as int] == self.older_files@[i as int]);
                        lemma_files_of_at(all, i as int);
                    }
                    self.older_files[i].read_log_record(pos.offset)
                },
                None => {
                    proof {
                        if self.files().contains_key(pos.file_id) {
                            let i = choose|i: int| spec_holds(all, i, pos.file_id);
                            assert(spec_holds(self.older_files@, i, pos.file_id));
                        }
                    }
                    Err(Errors::DataFileNotFound)
                },
            }
        }
    }

    /// Looks `key` up: finds its latest record through the index and hands
    /// out the value. Fails with `KeyIsEmpty` for the empty key, with
    /// `KeyNotFound` for a key that has no value, and with
    /// `FailedToReadFromDataFile` where the store fails.
    pub fn lookup(&self, key: Vec<u8>) -> (res: Result<Vec<u8>>)
        requires
            self.wf(),
        ensures
            match res {
                Ok(value) => self.spec_get(key@) == Ok::<Seq<u8>, Errors>(value@),
                Err(e) => e == Errors::FailedToReadFromDataFile || self.spec_get(key@) == Err::<
                    Seq<u8>,
                    Errors,
                >(e),
            },
            key@.len() == 0 ==> res == Err::<Vec<u8>, Errors>(Errors::KeyIsEmpty),
            key@.len() > 0 && !self.index().contains_key(key@) ==> res == Err::<Vec<u8>, Errors>(
                Errors::KeyNotFound,
            ),
    {
        if key.len() == 0 {
            return Err(Errors::KeyIsEmpty);
        }
        let ghost k = key@;
        let pos = match self.index.get(key) {
            Some(pos) => pos,
            None => {
                return Err(Errors::KeyNotFound);
            },
        };
        proof {
            assert(spec_entry_valid(self.files(), k, pos));
        }
        let record = self.read_at(pos)?;
        match record.record_type {
            LogRecordType::DELETED => Err(Errors::KeyNotFound),
            LogRecordType::NORMAL => Ok(record.value),
        }
    }

    /// Looks `key` up, as `lookup` does, on buffers.
    pub fn get(&self, key: Bytes) -> (res: Result<Bytes>)
        requires
            self.wf(),
        ensures
            match res {
                Ok(value) => self.spec_get(spec_bytes(key)) == Ok::<Seq<u8>, Errors>(
                    spec_bytes(value),
                ),
                Err(e) => e == Errors::FailedToReadFromDataFile || self.spec_get(spec_bytes(key))
                    == Err::<Seq<u8>, Errors>(e),
            },
            spec_bytes(key).len() == 0 ==> res matches Err(Errors::KeyIsEmpty),
            spec_bytes(key).len() > 0 && !self.index().contains_key(spec_bytes(key))
                ==> res matches Err(Errors::KeyNotFound),
    {
        if key.is_empty() {
            return Err(Errors::KeyIsEmpty);
        }
        match self.lookup(bytes_to_vec(&key)) {
            Ok(value) => Ok(bytes_from_vec(value)),
            Err(e) => Err(e),
        }
    }

    /// Seals the active segment and starts a new, empty one with the next
    /// id: flushes the active segment, opens the next in the engine's
    /// directory, and puts the one with the older. Fails, and leaves the
    /// segments as they are, where the active segment cannot be flushed,
    /// where there is no next id, or where the new segment cannot be opened
    /// or is not empty.
    fn rotate(&mut self) -> (res: Result<()>)
        requires
            old(self).wf(),
        ensures
            final(self).wf(),
            final(self).index == old(self).index,
            final(self).options == old(self).options,
            final(self).replayed() == old(self).replayed(),
            spec_sealed_kept(old(self).durable(), old(self).active_id(), final(self).durable()),
            match res {
                Ok(_) => {
                    &&& old(self).active_id() < u32::MAX
                    &&& final(self).active_id() == old(self).active_id() + 1
                    &&& final(self).active_file@ == Seq::<u8>::empty()
                    &&& final(self).active_dir() == old(self).dir_path()
                    &&& final(self).files() == old(self).files().insert(
                        final(self).active_id(),
                        Seq::empty(),
                    )
                    &&& final(self).flushed(old(self).active_id())
                },
                Err(e) => {
                    &&& e == Errors::FailedToSyncDataFile || e == Errors::FailedToOpenDataFile
                    &&& final(self).files() == old(self).files()
                    &&& final(self).active_id() == old(self).active_id()
                    &&& final(self).active_dir() == old(self).active_dir()
                },
            },
    {
        proof {
            old(self).lemma_parts();
        }
        let flushed = self.active_file.sync();
        let ghost sealed = *self;
        proof {
            old(self).lemma_active_flush(&sealed);
        }
        flushed?;
        let current_fid: u32 = self.active_file.get_file_id();
        if current_fid == u32::MAX {
            return Err(Errors::FailedToOpenDataFile);
        }
        let mut new_file: DataFile<IO> = DataFile::new(
            self.options.dir_path.clone(),
            current_fid + 1,
        )?;
        if new_file.get_write_offset() != 0 {
            return Err(Errors::FailedToOpenDataFile);
        }
        proof {
            new_file.lemma_cursor_at_end();
            assert(new_file@ =~= Seq::<u8>::empty());
            sealed.lemma_wf();
            let before = sealed.older_files@.push(sealed.active_file);
            let all = before.push(new_file);
            let n = sealed.older_files@.len() as int;
            assert(spec_ascending(all)) by {
                assert forall|i: int, j: int| 0 <= i < j < all.len() implies (
                #[trigger] all[i]).spec_file_id() < (#[trigger] all[j]).spec_file_id() by {
                    if j < all.len() - 1 {
                        assert(before[i].spec_file_id() < before[j].spec_file_id());
                    } else if i < all.len() - 2 {
                        assert(before[i].spec_file_id() < before[all.len() - 2].spec_file_id());
                    }
                }
            }
            lemma_files_of_push(before, new_file);
            lemma_replay_rotated(sealed.files(), current_fid, Seq::empty());
            lemma_index_valid_extends(
                sealed.files(),
                sealed.files().insert((current_fid + 1) as u32, Seq::empty()),
                sealed.index@,
            );
            // The sealed segment is flushed, and the others are as they were.
            assert forall|i: int|
                0 <= i < before.len() && (#[trigger] before[i]).spec_file_id() != current_fid implies i
                < all.len() && all[i].spec_file_id() == before[i].spec_file_id()
                && all[i].durable() == before[i].durable() by {
                assert(all[i] == before[i]);
            }
            lemma_durable_kept(before, all, current_fid);
            lemma_sealed_kept_chain(
                old(self).durable(),
                current_fid,
                sealed.durable(),
                current_fid,
                spec_durable_of(all),
            );
            assert(all[n] == sealed.active_file);
            lemma_files_of_at(all, n);
            lemma_durable_of_at(all, n);
        }
        core::mem::swap(&mut self.active_file, &mut new_file);
        self.older_files.push(new_file);
        Ok(())
    }

    /// Writes `log_record` at the end of the log, and says where the record
    /// lies: in a new segment where the active one would grow beyond its
    /// size. A write that fails leaves no byte of the record in the segment.
    fn write_record(&mut self, log_record: &mut LogRecord) -> (res: Result<LogRecordPos>)
        requires
            old(self).wf(),
        ensures
            final(self).wf(),
            final(self).index == old(self).index,
            final(self).options == old(self).options,
            *final(log_record) == *old(log_record),
            Self::followed_by(*old(self), *final(self)),
            !old(self).rotates(spec_encode(old(log_record)@).len()) ==> final(self).durable()
                == old(self).durable(),
            match res {
                Ok(pos) => {
                    let bytes = spec_encode(old(log_record)@);
                    &&& Self::appended(*old(self), *final(self), bytes)
                    &&& pos == old(self).append_pos(bytes.len())
                    &&& pos.file_id == final(self).active_id()
                    &&& final(self).files().contains_key(pos.file_id)
                    &&& spec_record_at(final(self).files()[pos.file_id], pos.offset as nat)
                        == Some((old(log_record)@, bytes.len()))
                    &&& bytes.len() <= usize::MAX
                    &&& final(self).replayed() == spec_apply_record(
                        old(self).replayed(),
                        old(log_record)@,
                        pos,
                    )
                    &&& final(self).active_file.durable().len() < final(self).active_file@.len()
                },
                Err(e) => {
                    let bytes = spec_encode(old(log_record)@);
                    &&& final(self).replayed() == old(self).replayed()
                    &&& !Self::appended(*old(self), *final(self), bytes)
                    &&& e != Errors::FailedToSyncDataFile || old(self).rotates(bytes.len())
                        && Self::same_log(*old(self), *final(self))
                    &&& Self::append_failed(*old(self), *final(self), bytes, e)
                },
            },
    {
        let enc_record: Vec<u8> = log_record.encode();
        let record_len: u64 = enc_record.len() as u64;
        let size: u64 = self.options.data_file_size;
        let ghost bytes = spec_encode(old(log_record)@);
        proof {
            self.lemma_wf();
            self.lemma_parts();
            self.lemma_no_next();
            lemma_extends_reflexive(self.files());
            old(self).lemma_active_flush(&*old(self));
            lemma_record_at_appended(Seq::empty(), old(log_record)@);
        }
        // The active segment would grow beyond its size: start a new one.
        if record_len > size || self.active_file.get_write_offset() > size - record_len {
            match self.rotate() {
                Ok(_) => {},
                Err(e) => {
                    return Err(e);
                },
            }
            proof {
                lemma_replay_rotated(old(self).files(), old(self).active_id(), Seq::empty());
                assert(self.files().dom() =~= old(self).files().dom().insert(self.active_id()));
            }
        }
        let ghost before = *self;
        proof {
            before.lemma_parts();
            before.lemma_wf();
            before.active_file.lemma_cursor_at_end();
        }
        let write_offset: u64 = self.active_file.get_write_offset();
        let written = self.active_file.write(enc_record.as_slice());
        proof {
            let id = before.active_id();
            let a = before.older_files@.push(before.active_file);
            let b = self.older_files@.push(self.active_file);
            lemma_files_of_grown(before.older_files@, before.active_file, self.active_file);
            assert(spec_is_prefix(before.active_file@, self.active_file@)) by {
                assert(self.active_file@.subrange(0, before.active_file@.len() as int)
                    =~= before.active_file@);
            }
            lemma_extends_grown(before.files(), id, self.active_file@);
            lemma_index_valid_extends(before.files(), self.files(), self.index@);
            assert(spec_all_wf(b)) by {
                assert forall|i: int| 0 <= i < b.len() implies (#[trigger] b[i]).wf() by {
                    if i < self.older_files@.len() {
                        assert(a[i].wf());
                    }
                }
            }
            lemma_extends_transitive(old(self).files(), before.files(), self.files());
            assert(self.files().dom() =~= before.files().dom());
            // Writing leaves what had reached stable storage as it was.
            assert forall|i: int| 0 <= i < a.len() implies (#[trigger] b[i]).spec_file_id()
                == a[i].spec_file_id() && b[i].durable() == a[i].durable() by {
                if i < self.older_files@.len() {
                    assert(b[i] == a[i]);
                }
            }
            lemma_durable_same(a, b);
            lemma_files_of_at(b, self.older_files@.len() as int);
            lemma_durable_of_at(b, self.older_files@.len() as int);
            match written {
                Ok(_) => {
                    lemma_replay_appended(before.files(), id, old(log_record)@);
                    assert(Seq::<u8>::empty() + bytes =~= bytes);
                    assert(self.files() =~= spec_appended(
                        old(self).files(),
                        old(self).active_id(),
                        old(self).data_file_size(),
                        bytes,
                    ));
                },
                Err(_) => {
                    assert(self.files() =~= before.files());
                },
            }
        }
        match written {
            Ok(_) => Ok(
                LogRecordPos { file_id: self.active_file.get_file_id(), offset: write_offset },
            ),
            Err(e) => Err(e),
        }
    }

    /// Appends `log_record` to the log, and says where the record lies: in
    /// a new segment where the active one would grow beyond its size. The
    /// record is flushed before the call returns where every write is to be
    /// flushed. A write that fails leaves no byte of the record in the
    /// segment.
    fn append_log_record(&mut self, log_record: &mut LogRecord) -> (res: Result<LogRecordPos>)
        requires
            old(self).wf(),
        ensures
            final(self).wf(),
            final(self).index == old(self).index,
            final(self).options == old(self).options,
            *final(log_record) == *old(log_record),
            Self::followed_by(*old(self), *final(self)),
            !old(self).rotates(spec_encode(old(log_record)@).len()) && !old(self).sync_write()
                ==> final(self).durable() == old(self).durable(),
            Self::replay_follows(*old(self), *final(self), old(log_record)@),
            match res {
                Ok(pos) => {
                    let bytes = spec_encode(old(log_record)@);
                    &&& Self::appended(*old(self), *final(self), bytes)
                    &&& old(self).sync_write() ==> final(self).flushed(final(self).active_id())
                    &&& pos == old(self).append_pos(bytes.len())
                    &&& pos.file_id == final(self).active_id()
                    &&& final(self).files().contains_key(pos.file_id)
                    &&& spec_record_at(final(self).files()[pos.file_id], pos.offset as nat)
                        == Some((old(log_record)@, bytes.len()))
                    &&& bytes.len() <= usize::MAX
                },
                Err(e) => Self::append_failed(
                    *old(self),
                    *final(self),
                    spec_encode(old(log_record)@),
                    e,
                ),
            },
    {
        proof {
            old(self).lemma_no_next();
        }
        let log_record_pos = self.write_record(log_record)?;
        // Flush at once where every write is to be flushed.
        if self.options.sync_write {
            let ghost written = *self;
            proof {
                written.lemma_parts();
            }
            let flushed = self.active_file.sync();
            proof {
                written.lemma_active_flush(&*self);
                written.lemma_no_next();
                lemma_sealed_kept_chain(
                    old(self).durable(),
                    old(self).active_id(),
                    written.durable(),
                    written.active_id(),
                    self.durable(),
                );
            }
            flushed?;
        }
        Ok(log_record_pos)
    }

    /// Gives `key` the value `value`: appends a record of the two to the
    /// log, flushes it where every write is to be flushed, and then points
    /// the index at it. A segment that is sealed on the way is flushed first.
    ///
    /// Fails with `KeyIsEmpty` for the empty key, and with the store's
    /// failure where the record cannot be appended or flushed; with
    /// `FailedToUpdataMemIndex` where the index refuses the entry. The index
    /// is as it was after any failure. Where the flush behind the write
    /// failed, or the index refused, the record is in the log all the same,
    /// and reopening will find it.
    pub fn insert(&mut self, key: Vec<u8>, value: Vec<u8>) -> (res: Result<()>)
        requires
            old(self).wf(),
        ensures
            final(self).wf(),
            Self::put_outcome(*old(self), *final(self), key@, value@, res),
    {
        proof {
            lemma_extends_reflexive(self.files());
            old(self).lemma_parts();
            old(self).lemma_no_next();
            old(self).lemma_active_flush(&*old(self));
        }
        if key.len() == 0 {
            return Err(Errors::KeyIsEmpty);
        }
        let mut record = LogRecord { key, value, record_type: LogRecordType::NORMAL };
        let log_record_pos = self.append_log_record(&mut record)?;
        let ghost appended = *self;
        let ok = self.index.put(record.key, log_record_pos);
        if !ok {
            return Err(Errors::FailedToUpdataMemIndex);
        }
        proof {
            assert(spec_index_valid(self.files(), self.index@)) by {
                assert forall|k: Seq<u8>| #[trigger] self.index@.contains_key(k) implies spec_entry_valid(
                    self.files(),
                    k,
                    self.index@[k],
                ) by {
                    if k != key@ {
                        assert(appended.index@.contains_key(k));
                    }
                }
            }
        }
        Ok(())
    }

    /// Gives `key` the value `value`, as `insert` does, on buffers.
    pub fn put(&mut self, key: Bytes, value: Bytes) -> (res: Result<()>)
        requires
            old(self).wf(),
        ensures
            final(self).wf(),
            Self::put_outcome(*old(self), *final(self), spec_bytes(key), spec_bytes(value), res),
    {
        self.insert(bytes_to_vec(&key), bytes_to_vec(&value))
    }

    /// Deletes `key`. A key that has no value is left alone, and nothing
    /// changes; for any other a tombstone is appended to the log, flushed
    /// where every write is to be flushed, and the key leaves the index.
    ///
    /// Fails with the store's failure where the tombstone cannot be appended
    /// or flushed: the index is then as it was. Where the flush behind the
    /// write failed, the tombstone is in the log all the same, and reopening
    /// will find the key deleted.
    pub fn remove(&mut self, key: Vec<u8>) -> (res: Result<()>)
        requires
            old(self).wf(),
        ensures
            final(self).wf(),
            Self::delete_outcome(*old(self), *final(self), key@, res),
    {
        proof {
            lemma_extends_reflexive(self.files());
            old(self).lemma_parts();
            old(self).lemma_no_next();
            old(self).lemma_active_flush(&*old(self));
        }
        // A key that is not there needs no tombstone.
        if self.index.get(copy_of(&key)).is_none() {
            proof {
                assert(self.index@.remove(key@) =~= self.index@);
                if key@.len() > 0 {
                    lemma_lookup_after_delete(self.files(), self.index@, key@);
                }
            }
            return Ok(());
        }
        let mut record = LogRecord {
            key,
            value: Vec::new(),
            record_type: LogRecordType::DELETED,
        };
        assert(record@ == spec_tombstone(key@)) by {
            assert(record@.value =~= Seq::<u8>::empty());
        }
        let _ = self.append_log_record(&mut record)?;
        let _ = self.index.delete(record.key);
        proof {
            if key@.len() > 0 {
                lemma_lookup_after_delete(self.files(), old(self).index@, key@);
            }
        }
        Ok(())
    }

    /// Deletes `key`, as `remove` does, on buffers.
    pub fn delete(&mut self, key: Bytes) -> (res: Result<()>)
        requires
            old(self).wf(),
        ensures
            final(self).wf(),
            Self::delete_outcome(*old(self), *final(self), spec_bytes(key), res),
    {
        self.remove(bytes_to_vec(&key))
    }

    /// Replays the records of `file` onto `index`, from the first on, up to
    /// the place where no whole record starts; says where that is.
    fn load_data_file(index: &mut I, file: &DataFile<IO>, Ghost(before): Ghost<Files>) -> (res:
        Result<u64>)
        requires
            file.wf(),
            spec_index_valid(
                before.insert(file.spec_file_id(), Seq::empty()),
                old(index)@,
            ),
        ensures
            match res {
                Ok(end) => {
                    &&& end == spec_valid_end(file@, 0)
                    &&& end <= file@.len()
                    &&& final(index)@ == spec_replay_segment(
                        old(index)@,
                        file.spec_file_id(),
                        file@,
                        0,
                    )
                    &&& spec_index_valid(
                        before.insert(file.spec_file_id(), file@.subrange(0, end as int)),
                        final(index)@,
                    )
                },
                Err(e) => e == Errors::FailedToReadFromDataFile || e
                    == Errors::FailedToUpdataMemIndex,
            },
            file@.len() == 0 ==> res is Ok,
    {
        let id: u32 = file.get_file_id();
        let mut offset: u64 = 0;
        proof {
            file.lemma_cursor_at_end();
            assert(file@.subrange(0, 0) =~= Seq::<u8>::empty());
        }
        loop
            invariant
                file.wf(),
                id == file.spec_file_id(),
                offset <= file@.len() <= u64::MAX,
                spec_replay_segment(old(index)@, id, file@, 0) == spec_replay_segment(
                    index@,
                    id,
                    file@,
                    offset as nat,
                ),
                spec_valid_end(file@, 0) == spec_valid_end(file@, offset as nat),
                spec_index_valid(before.insert(id, file@.subrange(0, offset as int)), index@),
            decreases file@.len() - offset,
        {
            match file.read_log_record_sized(offset) {
                Ok((record, size)) => {
                    proof {
                        lemma_decode_len(file@.skip(offset as int));
                        lemma_index_valid_step(before, index@, id, file@, offset as nat);
                    }
                    let pos = LogRecordPos { file_id: id, offset };
                    match record.record_type {
                        LogRecordType::NORMAL => {
                            if !index.put(record.key, pos) {
                                return Err(Errors::FailedToUpdataMemIndex);
                            }
                        },
                        LogRecordType::DELETED => {
                            let _ = index.delete(record.key);
                        },
                    }
                    offset = offset + size as u64;
                },
                Err(e) => {
                    match e {
                        Errors::CorruptRecord => {
                            return Ok(offset);
                        },
                        _ => {
                            return Err(e);
                        },
                    }
                },
            }
        }
    }

    /// Puts `data_files` in ascending order of their ids and replays them
    /// onto `index`, one after the other. Hands back the segments in that
    /// order, and the valid end of the last.
    fn load_data_files(index: &mut I, data_files: Vec<DataFile<IO>>) -> (res: Result<
        (Vec<DataFile<IO>>, u64),
    >)
        requires
            old(index)@ == Entries::empty(),
            spec_all_wf(data_files@),
            data_files@.len() > 0,
        ensures
            match res {
                Ok((sorted, end)) => {
                    let last = sorted@.last();
                    &&& sorted@.len() > 0
                    &&& spec_all_wf(sorted@)
                    &&& spec_ascending(sorted@)
                    &&& spec_distinct_ids(data_files@)
                    &&& spec_files_of(sorted@) == spec_files_of(data_files@)
                    &&& final(index)@ == spec_replay(
                        spec_files_of(sorted@),
                        last.spec_file_id() as nat + 1,
                    )
                    &&& end == spec_valid_end(last@, 0)
                    &&& end <= last@.len()
                    &&& spec_index_valid(
                        spec_files_of(sorted@.drop_last()).insert(
                            last.spec_file_id(),
                            last@.subrange(0, end as int),
                        ),
                        final(index)@,
                    )
                },
                Err(e) => {
                    ||| e == Errors::FailedToOpenDataFile && !spec_distinct_ids(data_files@)
                    ||| e == Errors::FailedToReadFromDataFile
                    ||| e == Errors::FailedToUpdataMemIndex
                },
            },
            spec_all_empty(data_files@) ==> match res {
                Ok((sorted, end)) => spec_all_empty(sorted@),
                Err(e) => e == Errors::FailedToOpenDataFile,
            },
    {
        let ghost given = data_files@;
        let mut pending: Vec<DataFile<IO>> = data_files;
        let mut older: Vec<DataFile<IO>> = Vec::new();
        let ghost mut waiting: Seq<int> = Seq::new(given.len(), |i: int| i);
        let (first, at) = take_lowest(&mut pending);
        let ghost mut origin: Seq<int> = seq![at as int];
        proof {
            assert forall|i: int| 0 <= i < given.len() implies #[trigger] spec_covers(
                origin,
                i,
            ) || spec_covers(waiting.remove(at as int), i) by {
                if i < at {
                    assert(waiting.remove(at as int)[i] == i);
                } else if i == at {
                    assert(origin[0] == i);
                } else {
                    assert(waiting.remove(at as int)[i - 1] == i);
                }
            }
            let ghost all_places = waiting;
            waiting = waiting.remove(at as int);
            assert forall|j: int, k: int| 0 <= j < k < waiting.len() implies #[trigger] waiting[j]
                < #[trigger] waiting[k] by {
                let jj = if j < at { j } else { j + 1 };
                let kk = if k < at { k } else { k + 1 };
                assert(all_places[jj] < all_places[kk]);
            }
            assert forall|j: int, k: int|
                0 <= j < origin.len() && 0 <= k < waiting.len() implies #[trigger] origin[j]
                != #[trigger] waiting[k] by {
                let kk = if k < at { k } else { k + 1 };
                assert(all_places[kk] == kk);
            }
            assert(spec_index_valid(
                Map::<u32, Seq<u8>>::empty().insert(first.spec_file_id(), Seq::empty()),
                index@,
            ));
            assert(spec_files_of(older@) =~= Map::<u32, Seq<u8>>::empty());
        }
        let mut current: DataFile<IO> = first;
        let mut end: u64 = Self::load_data_file(index, &current, Ghost(Map::empty()))?;
        proof {
            lemma_files_of_push(older@, current);
            lemma_replay_next(Map::empty(), 0, current.spec_file_id(), current@);
        }
        while pending.len() > 0
            invariant
                spec_all_wf(older@.push(current)),
                spec_all_wf(pending@),
                spec_ascending(older@.push(current)),
                forall|j: int|
                    0 <= j < pending@.len() ==> current.spec_file_id() <= (
                    #[trigger] pending@[j]).spec_file_id(),
                origin.len() == older@.len() + 1,
                waiting.len() == pending@.len(),
                given == data_files@,
                forall|j: int, k: int|
                    0 <= j < k < waiting.len() ==> #[trigger] waiting[j] < #[trigger] waiting[k],
                forall|j: int, k: int|
                    0 <= j < origin.len() && 0 <= k < waiting.len() ==> #[trigger] origin[j]
                        != #[trigger] waiting[k],
                forall|j: int|
                    0 <= j < origin.len() ==> 0 <= #[trigger] origin[j] < given.len()
                        && older@.push(current)[j] == given[origin[j]],
                forall|j: int|
                    0 <= j < waiting.len() ==> 0 <= #[trigger] waiting[j] < given.len()
                        && pending@[j] == given[waiting[j]],
                forall|i: int|
                    0 <= i < given.len() ==> #[trigger] spec_covers(origin, i) || spec_covers(
                        waiting,
                        i,
                    ),
                index@ == spec_replay(
                    spec_files_of(older@.push(current)),
                    current.spec_file_id() as nat + 1,
                ),
                end == spec_valid_end(current@, 0),
                end <= current@.len(),
                spec_index_valid(
                    spec_files_of(older@).insert(
                        current.spec_file_id(),
                        current@.subrange(0, end as int),
                    ),
                    index@,
                ),
            decreases pending@.len(),
        {
            let ghost before_pending = pending@;
            let ghost before_waiting = waiting;
            let ghost before_origin = origin;
            let ghost all = older@.push(current);
            let (next, at) = take_lowest(&mut pending);
            // Two segments with one id: the directory is not one of this engine.
            if next.get_file_id() <= current.get_file_id() {
                proof {
                    let o = origin[origin.len() - 1];
                    let w = waiting[at as int];
                    assert(all[all.len() - 1] == given[o]);
                    assert(before_pending[at as int] == given[w]);
                    assert(current.spec_file_id() <= before_pending[at as int].spec_file_id());
                    if o < w {
                        assert(given[o].spec_file_id() == given[w].spec_file_id());
                    } else {
                        assert(given[w].spec_file_id() == given[o].spec_file_id());
                    }
                }
                return Err(Errors::FailedToOpenDataFile);
            }
            proof {
                origin = origin.push(waiting[at as int]);
                waiting = waiting.remove(at as int);
                assert forall|j: int, k: int| 0 <= j < k < waiting.len() implies #[trigger] waiting[j]
                    < #[trigger] waiting[k] by {
                    let jj = if j < at { j } else { j + 1 };
                    let kk = if k < at { k } else { k + 1 };
                    assert(before_waiting[jj] < before_waiting[kk]);
                }
                assert forall|j: int, k: int|
                    0 <= j < origin.len() && 0 <= k < waiting.len() implies #[trigger] origin[j]
                    != #[trigger] waiting[k] by {
                    let kk = if k < at { k } else { k + 1 };
                    if j < before_origin.len() {
                        assert(before_origin[j] != before_waiting[kk]);
                    } else if kk < at {
                        assert(before_waiting[kk] < before_waiting[at as int]);
                    } else {
                        assert(before_waiting[at as int] < before_waiting[kk]);
                    }
                }
                if spec_all_empty(given) {
                    assert(before_pending[at as int] == given[before_waiting[at as int]]);
                }
                assert forall|i: int| 0 <= i < given.len() implies #[trigger] spec_covers(
                    origin,
                    i,
                ) || spec_covers(waiting, i) by {
                    assert(spec_covers(before_origin, i) || spec_covers(before_waiting, i));
                    if spec_covers(before_origin, i) {
                        let j = choose|j: int|
                            0 <= j < before_origin.len() && #[trigger] before_origin[j] == i;
                        assert(origin[j] == i);
                    } else {
                        let j = choose|j: int|
                            0 <= j < before_waiting.len() && #[trigger] before_waiting[j] == i;
                        if j < at {
                            assert(waiting[j] == i);
                        } else if j == at {
                            assert(origin[origin.len() - 1] == i);
                        } else {
                            assert(waiting[j - 1] == i);
                        }
                    }
                }
                assert forall|j: int| 0 <= j < pending@.len() implies next.spec_file_id() <= (
                #[trigger] pending@[j]).spec_file_id() by {
                    if j < at {
                        assert(pending@[j] == before_pending[j]);
                    } else {
                        assert(pending@[j] == before_pending[j + 1]);
                    }
                }
                assert(spec_all_wf(pending@)) by {
                    assert forall|j: int| 0 <= j < pending@.len() implies (
                    #[trigger] pending@[j]).wf() by {
                        if j < at {
                            assert(before_pending[j].wf());
                        } else {
                            assert(before_pending[j + 1].wf());
                        }
                    }
                }
                assert(next.wf()) by {
                    assert(before_pending[at as int].wf());
                }
                assert(spec_ascending(all.push(next))) by {
                    assert forall|i: int, j: int| 0 <= i < j < all.push(next).len() implies (
                    #[trigger] all.push(next)[i]).spec_file_id() < (#[trigger] all.push(
                        next,
                    )[j]).spec_file_id() by {
                        if j < all.len() {
                            assert(all[i].spec_file_id() < all[j].spec_file_id());
                        } else if i < all.len() - 1 {
                            assert(all[i].spec_file_id() < all[all.len() - 1].spec_file_id());
                        }
                    }
                }
                assert(spec_all_wf(all.push(next))) by {
                    assert forall|j: int| 0 <= j < all.push(next).len() implies (
                    #[trigger] all.push(next)[j]).wf() by {
                        if j < all.len() {
                            assert(all[j].wf());
                        }
                    }
                }
                // What was replayed so far is valid over the whole of the segments so far.
                lemma_files_of_push(older@, current);
                let cut = spec_files_of(older@).insert(
                    current.spec_file_id(),
                    current@.subrange(0, end as int),
                );
                let whole = spec_files_of(all);
                lemma_files_of_push(all, next);
                let opened = whole.insert(next.spec_file_id(), Seq::empty());
                assert(spec_extends(cut, opened)) by {
                    assert forall|id: u32| #[trigger] cut.contains_key(id) implies opened.contains_key(
                        id,
                    ) && spec_is_prefix(cut[id], opened[id]) by {
                        assert(opened[id].subrange(0, cut[id].len() as int) =~= cut[id]);
                    }
                }
                lemma_index_valid_extends(cut, opened, index@);
                lemma_files_of_max(all);
                lemma_replay_next(
                    whole,
                    current.spec_file_id() as nat + 1,
                    next.spec_file_id(),
                    next@,
                );
            }
            older.push(current);
            current = next;
            end = Self::load_data_file(index, &current, Ghost(spec_files_of(older@)))?;
        }
        proof {
            if spec_all_empty(given) {
                assert forall|j: int| 0 <= j < older@.push(current).len() implies (
                #[trigger] older@.push(current)[j])@.len() == 0 by {
                    assert(older@.push(current)[j] == given[origin[j]]);
                }
            }
            assert(waiting.len() == 0);
            assert forall|i: int| 0 <= i < given.len() implies #[trigger] spec_covers(
                origin,
                i,
            ) by {
                assert(spec_covers(origin, i) || spec_covers(waiting, i));
            }
            lemma_same_files(given, older@.push(current), origin);
            assert(older@.push(current).drop_last() =~= older@);
        }
        older.push(current);
        Ok((older, end))
    }

    /// Opens an engine over `data_files`, the segments that were found, each
    /// as `DataFile::new` opened it, in any order: replays them onto `index`
    /// in ascending order of their ids, and makes the one with the highest id
    /// the active segment, cut at the end of its last whole record. Where
    /// there is none, starts the log with an empty segment 0. Fails with
    /// `FailedToOpenDataFile` where two segments share an id or the first
    /// segment cannot be opened or is not empty, with the store's failure
    /// where a segment cannot be read or cut, and with
    /// `FailedToUpdataMemIndex` where the index refuses an entry. The size of
    /// a segment must be positive.
    pub fn open(options: Options, index: I, data_files: Vec<DataFile<IO>>) -> (res: Result<
        Engine<IO, I>,
    >)
        requires
            options.data_file_size > 0,
            index@ == Entries::empty(),
            spec_all_wf(data_files@),
        ensures
            // Over segments that hold nothing neither the store nor the index
            // is asked: the ids alone decide.
            data_files@.len() > 0 && spec_all_empty(data_files@) ==> (res is Ok
                <==> spec_distinct_ids(data_files@)),
            match res {
                Ok(engine) => {
                    let given = spec_files_of(data_files@);
                    let last = engine.active_id();
                    &&& engine.wf()
                    &&& engine.recoverable()
                    &&& engine.dir_path() == options.dir_path
                    &&& engine.data_file_size() == options.data_file_size
                    &&& engine.sync_write() == options.sync_write
                    &&& data_files@.len() == 0 ==> engine.active_dir() == options.dir_path
                    &&& spec_distinct_ids(data_files@)
                    &&& engine.index() == spec_replay(given, last as nat + 1)
                    &&& data_files@.len() == 0 ==> last == 0 && engine.files() == given.insert(
                        0,
                        Seq::empty(),
                    )
                    &&& data_files@.len() > 0 ==> {
                        &&& given.contains_key(last)
                        &&& forall|id: u32| #[trigger] given.contains_key(id) ==> id <= last
                        &&& engine.files() == given.insert(
                            last,
                            given[last].subrange(0, spec_valid_end(given[last], 0) as int),
                        )
                    }
                },
                Err(e) => {
                    ||| e == Errors::FailedToOpenDataFile && (data_files@.len() == 0
                        || !spec_distinct_ids(data_files@))
                    ||| e == Errors::FailedToReadFromDataFile && data_files@.len() > 0
                        && !spec_all_empty(data_files@)
                    ||| e == Errors::FailedToWriteToDataFile && data_files@.len() > 0
                        && !spec_all_empty(data_files@)
                    ||| e == Errors::FailedToUpdataMemIndex && data_files@.len() > 0
                        && !spec_all_empty(data_files@)
                },
            },
    {
        let mut index = index;
        if data_files.len() == 0 {
            let active_file: DataFile<IO> = DataFile::new(options.dir_path.clone(), 0)?;
            if active_file.get_write_offset() != 0 {
                return Err(Errors::FailedToOpenDataFile);
            }
            let older_files: Vec<DataFile<IO>> = Vec::new();
            proof {
                active_file.lemma_cursor_at_end();
                assert(active_file@ =~= Seq::<u8>::empty());
                let given = spec_files_of(data_files@);
                assert(given =~= Map::<u32, Seq<u8>>::empty());
                assert(spec_files_of(older_files@) =~= given);
                lemma_files_of_push(older_files@, active_file);
                lemma_replay_next(given, 0, 0, active_file@);
                lemma_replay_cut(given.insert(0, Seq::empty()), 0);
                assert(spec_replay(given, 1) =~= Entries::empty());
            }
            return Ok(Engine { options, active_file, older_files, index });
        }
        let (mut older_files, end) = Self::load_data_files(&mut index, data_files)?;
        let ghost sorted = older_files@;
        let mut active_file: DataFile<IO> = match older_files.pop() {
            Some(file) => file,
            None => {
                return Err(Errors::FailedToOpenDataFile);
            },
        };
        let ghost found = active_file;
        proof {
            assert(older_files@ =~= sorted.drop_last());
            assert(sorted =~= older_files@.push(found));
            assert(found.wf()) by {
                assert(sorted[sorted.len() - 1].wf());
            }
            found.lemma_cursor_at_end();
        }
        // What lies behind the last whole record was never written to the end.
        if end < active_file.get_write_offset() {
            active_file.truncate(end)?;
        }
        proof {
            assert(active_file@ =~= found@.subrange(0, end as int));
            lemma_files_of_grown(older_files@, found, active_file);
            lemma_files_of_push(older_files@, active_file);
            lemma_files_of_max(sorted);
            lemma_replay_cut(spec_files_of(sorted), found.spec_file_id());
            assert(spec_all_wf(older_files@.push(active_file))) by {
                assert forall|i: int| 0 <= i < older_files@.push(active_file).len() implies (
                #[trigger] older_files@.push(active_file)[i]).wf() by {
                    if i < older_files@.len() {
                        assert(sorted[i].wf());
                    }
                }
            }
        }
        Ok(Engine { options, active_file, older_files, index })
    }

    /// Closes the engine: flushes every segment and hands the segments back,
    /// in ascending order of their ids, the active one last. All of each has
    /// then reached stable storage, and no store holds bytes that a failed
    /// write left.
    pub fn close(self) -> (res: Result<Vec<DataFile<IO>>>)
        requires
            self.wf(),
        ensures
            match res {
                Ok(data_files) => {
                    &&& data_files@.len() > 0
                    &&& spec_all_wf(data_files@)
                    &&& spec_all_flushed(data_files@)
                    &&& spec_all_whole(data_files@)
                    &&& spec_ascending(data_files@)
                    &&& spec_distinct_ids(data_files@)
                    &&& spec_files_of(data_files@) == self.files()
                    &&& data_files@.last().spec_file_id() == self.active_id()
                },
                Err(e) => e == Errors::FailedToSyncDataFile,
            },
    {
        let ghost before = self;
        proof {
            before.lemma_parts();
        }
        let Engine { options: _, active_file, older_files, index: _ } = self;
        let mut active_file: DataFile<IO> = active_file;
        let mut data_files: Vec<DataFile<IO>> = older_files;
        let mut i: usize = 0;
        while i < data_files.len()
            invariant
                i <= data_files@.len(),
                active_file == before.active_file,
                active_file.wf(),
                spec_all_wf(before.older_files@),
                spec_all_wf(data_files@),
                spec_same_segments(before.older_files@, data_files@),
                forall|j: int|
                    0 <= j < i ==> (#[trigger] data_files@[j]).durable() == data_files@[j]@
                        && data_files@[j].stored() == data_files@[j]@,
            decreases data_files@.len() - i,
        {
            let ghost so_far = data_files@;
            data_files[i].sync()?;
            proof {
                assert forall|j: int| 0 <= j < so_far.len() implies (
                #[trigger] data_files@[j]).spec_file_id()
                    == before.older_files@[j].spec_file_id() && data_files@[j]@
                    == before.older_files@[j]@ && (before.older_files@[j].wf()
                    ==> data_files@[j].wf()) by {
                    assert(so_far[j].spec_file_id() == before.older_files@[j].spec_file_id());
                }
            }
            i = i + 1;
        }
        active_file.sync()?;
        let ghost flushed = data_files@;
        data_files.push(active_file);
        proof {
            let given = before.older_files@.push(before.active_file);
            assert(spec_same_segments(given, data_files@)) by {
                assert forall|j: int| 0 <= j < given.len() implies (
                #[trigger] data_files@[j]).spec_file_id() == given[j].spec_file_id()
                    && data_files@[j]@ == given[j]@ && (given[j].wf() ==> data_files@[j].wf()) by {
                    if j < given.len() - 1 {
                        assert(data_files@[j] == flushed[j]);
                        assert(flushed[j].spec_file_id() == before.older_files@[j].spec_file_id());
                    }
                }
            }
            lemma_same_segments(given, data_files@);
            assert(spec_all_flushed(data_files@)) by {
                assert forall|j: int| 0 <= j < data_files@.len() implies (
                #[trigger] data_files@[j]).durable() == data_files@[j]@ by {
                    if j < data_files@.len() - 1 {
                        assert(data_files@[j] == flushed[j]);
                    }
                }
            }
            assert(spec_all_whole(data_files@)) by {
                assert forall|j: int| 0 <= j < data_files@.len() implies (
                #[trigger] data_files@[j]).stored() == data_files@[j]@ by {
                    if j < data_files@.len() - 1 {
                        assert(data_files@[j] == flushed[j]);
                    }
                }
            }
        }
        Ok(data_files)
    }

    /// Law: an engine that is opened over the segments that another left
    /// behind holds the same segments, and as its index what replaying them
    /// gives. Where that is the index of the other, as it is from opening on
    /// and after every call but one that failed with its record in the log,
    /// it finds for every key what the other found.
    pub proof fn lemma_reopen(&self, reopened: &Engine<IO, I>)
        requires
            self.wf(),
            reopened.active_id() == self.active_id(),
            reopened.index() == spec_replay(self.files(), self.active_id() as nat + 1),
            self.files().contains_key(self.active_id()) ==> reopened.files()
                == self.files().insert(
                self.active_id(),
                self.files()[self.active_id()].subrange(
                    0,
                    spec_valid_end(self.files()[self.active_id()], 0) as int,
                ),
            ),
        ensures
            reopened.files() == self.files(),
            reopened.index() == self.replayed(),
            self.recoverable() ==> reopened.index() == self.index(),
            self.recoverable() ==> forall|key: Seq<u8>| reopened.spec_get(key) == self.spec_get(key),
    {
        self.lemma_parts();
        let contents = self.files()[self.active_id()];
        assert(contents.subrange(0, contents.len() as int) =~= contents);
        assert(reopened.files() =~= self.files());
    }

    /// Law: after a put that succeeded, reopening finds the value, whatever
    /// went before.
    pub proof fn lemma_put_found_again(before: Self, after: Self, key: Seq<u8>, value: Seq<u8>)
        requires
            before.wf(),
            Self::put_outcome(before, after, key, value, Ok(())),
        ensures
            spec_lookup(after.files(), after.replayed(), key) == Ok::<Seq<u8>, Errors>(value),
    {
    }

    /// Law: after a delete that succeeded, of a key that the index held or
    /// on an engine whose index is what a replay gives, reopening finds the
    /// key deleted.
    pub proof fn lemma_delete_gone_again(before: Self, after: Self, key: Seq<u8>)
        requires
            before.wf(),
            before.recoverable() || before.index().contains_key(key),
            key.len() > 0,
            Self::delete_outcome(before, after, key, Ok(())),
        ensures
            spec_lookup(after.files(), after.replayed(), key) == Err::<Seq<u8>, Errors>(
                Errors::KeyNotFound,
            ),
    {
        if before.index().contains_key(key) {
            lemma_lookup_after_delete(after.files(), before.replayed(), key);
        }
    }

    /// Law: a record that fits is appended where the active segment ends,
    /// and no segment is added; one that does not fit lies at the start of a
    /// new segment with the next id, and the old one is sealed: flushed, and
    /// as it was.
    pub proof fn lemma_put_place(before: Self, after: Self, key: Seq<u8>, value: Seq<u8>)
        requires
            before.wf(),
            Self::put_outcome(before, after, key, value, Ok(())),
        ensures
            ({
                let bytes = spec_encode(spec_normal_record(key, value));
                let old_id = before.active_id();
                let end = before.files()[old_id].len();
                &&& before.files().contains_key(old_id)
                &&& after.index()[key] == before.append_pos(bytes.len())
                &&& if end + bytes.len() <= before.data_file_size() {
                    &&& before.append_pos(bytes.len()) == (LogRecordPos {
                        file_id: old_id,
                        offset: end as u64,
                    })
                    &&& after.active_id() == old_id
                    &&& after.files() == before.files().insert(
                        old_id,
                        before.files()[old_id] + bytes,
                    )
                    &&& after.files().dom() == before.files().dom()
                } else {
                    &&& old_id < u32::MAX
                    &&& before.append_pos(bytes.len()) == (LogRecordPos {
                        file_id: (old_id + 1) as u32,
                        offset: 0,
                    })
                    &&& after.active_id() == old_id + 1
                    &&& after.files() == before.files().insert((old_id + 1) as u32, bytes)
                    &&& after.files()[old_id] == before.files()[old_id]
                    &&& after.flushed(old_id)
                }
            }),
    {
        before.lemma_wf();
    }
}

} // verus!
