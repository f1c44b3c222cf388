use vstd::prelude::*;
use crate::data::{parse_record, scan_segment, staged_one, Index, ParsedRecord, Record, RecordWriter, Staged, ALIGN};
use crate::errors::Error;
use crate::freelist::{freed, requested, Atag};
use crate::filepool::{FilePool, MAX_FILESIZE};
use crate::util::{lemma_roundup_bounds, roundup, spec_roundup, Timestamp};

verus! {

/// Where the current version of a key lives: its segment, its offset in the
/// segment file, and the timestamp it was written under.
#[derive(Clone, Copy, Debug, PartialEq, Eq, Structural)]
pub struct Slot {
    pub fileid: u64,
    pub offset: u32,
    pub time: Timestamp,
}

impl Slot {
    pub fn new(offset: u32, fileid: u64, time: Timestamp) -> (r: Slot)
        ensures
            r.offset == offset,
            r.fileid == fileid,
            r.time == time,
    {
        Slot { fileid, offset, time }
    }
}

/// The mapping a sequence of key entries spells: later entries win.
pub open spec fn assoc_map(s: Seq<(Vec<u8>, Slot, u32)>) -> Map<Seq<u8>, (Slot, u32)>
    decreases s.len(),
{
    if s.len() == 0 {
        Map::empty()
    } else {
        assoc_map(s.drop_last()).insert(s.last().0@, (s.last().1, s.last().2))
    }
}

/// A key is in the mapping exactly when some entry carries it.
pub proof fn lemma_assoc_contains(s: Seq<(Vec<u8>, Slot, u32)>, k: Seq<u8>)
    ensures
        assoc_map(s).contains_key(k) <==> exists|i: int|
            0 <= i < s.len() && (#[trigger] s[i]).0@ == k,
    decreases s.len(),
{
    if s.len() > 0 {
        lemma_assoc_contains(s.drop_last(), k);
        if s.last().0@ == k {
            assert(s[s.len() - 1].0@ == k);
        } else if assoc_map(s).contains_key(k) {
            let i = choose|i: int| 0 <= i < s.drop_last().len() && (#[trigger] s.drop_last()[i]).0@ == k;
            assert(s[i].0@ == k);
        } else if exists|i: int| 0 <= i < s.len() && (#[trigger] s[i]).0@ == k {
            let i = choose|i: int| 0 <= i < s.len() && (#[trigger] s[i]).0@ == k;
            assert(i < s.len() - 1);
            assert(s.drop_last()[i].0@ == k);
        }
    }
}

/// With keys unique, the mapping reads back the entry that carries the key.
pub proof fn lemma_assoc_lookup(s: Seq<(Vec<u8>, Slot, u32)>, i: int)
    requires
        0 <= i < s.len(),
        forall|a: int, b: int| 0 <= a < b < s.len() ==> (#[trigger] s[a]).0@ != (#[trigger] s[b]).0@,
    ensures
        assoc_map(s).contains_key(s[i].0@),
        assoc_map(s)[s[i].0@] == (s[i].1, s[i].2),
    decreases s.len(),
{
    if i == s.len() - 1 {
    } else {
        assert(forall|a: int, b: int|
            0 <= a < b < s.drop_last().len() ==> (#[trigger] s.drop_last()[a]).0@
                != (#[trigger] s.drop_last()[b]).0@);
        lemma_assoc_lookup(s.drop_last(), i);
        assert(s[i].0@ != s[s.len() - 1].0@);
    }
}

/// With keys unique, replacing the entry that carries a key updates exactly
/// that key in the mapping.
pub proof fn lemma_assoc_update(s: Seq<(Vec<u8>, Slot, u32)>, i: int, e: (Vec<u8>, Slot, u32))
    requires
        0 <= i < s.len(),
        e.0@ == s[i].0@,
        forall|a: int, b: int| 0 <= a < b < s.len() ==> (#[trigger] s[a]).0@ != (#[trigger] s[b]).0@,
    ensures
        assoc_map(s.update(i, e)) == assoc_map(s).insert(e.0@, (e.1, e.2)),
    decreases s.len(),
{
    if i == s.len() - 1 {
        assert(s.update(i, e).drop_last() =~= s.drop_last());
        assert(s.update(i, e).last() == e);
        assert(assoc_map(s.update(i, e)) =~= assoc_map(s).insert(e.0@, (e.1, e.2)));
    } else {
        assert(forall|a: int, b: int|
            0 <= a < b < s.drop_last().len() ==> (#[trigger] s.drop_last()[a]).0@
                != (#[trigger] s.drop_last()[b]).0@);
        lemma_assoc_update(s.drop_last(), i, e);
        assert(s.update(i, e).drop_last() =~= s.drop_last().update(i, e));
        assert(s.update(i, e).last() == s.last());
        assert(s[i].0@ != s[s.len() - 1].0@);
        assert(assoc_map(s.update(i, e)) =~= assoc_map(s).insert(e.0@, (e.1, e.2)));
    }
}

/// With keys unique, removing the entry that carries a key removes exactly
/// that key from the mapping.
pub proof fn lemma_assoc_remove(s: Seq<(Vec<u8>, Slot, u32)>, i: int)
    requires
        0 <= i < s.len(),
        forall|a: int, b: int| 0 <= a < b < s.len() ==> (#[trigger] s[a]).0@ != (#[trigger] s[b]).0@,
    ensures
        assoc_map(s.remove(i)) == assoc_map(s).remove(s[i].0@),
    decreases s.len(),
{
    if i == s.len() - 1 {
        assert(s.remove(i) =~= s.drop_last());
        lemma_assoc_contains(s.drop_last(), s[i].0@);
        assert(forall|a: int| 0 <= a < s.len() - 1 ==> (#[trigger] s[a]).0@ != s[s.len() - 1].0@);
        assert(forall|a: int|
            0 <= a < s.drop_last().len() ==> (#[trigger] s.drop_last()[a]).0@ == s[a].0@);
        assert(!assoc_map(s.drop_last()).contains_key(s[i].0@));
        assert(assoc_map(s.remove(i)) =~= assoc_map(s).remove(s[i].0@));
    } else {
        assert(forall|a: int, b: int|
            0 <= a < b < s.drop_last().len() ==> (#[trigger] s.drop_last()[a]).0@
                != (#[trigger] s.drop_last()[b]).0@);
        lemma_assoc_remove(s.drop_last(), i);
        assert(s.remove(i).drop_last() =~= s.drop_last().remove(i));
        assert(s.remove(i).last() == s.last());
        assert(s[i].0@ != s[s.len() - 1].0@);
        assert(assoc_map(s.remove(i)) =~= assoc_map(s).remove(s[i].0@));
    }
}

/// Pushing an element onto a sequence adds exactly it to the set of the
/// sequence's elements.
pub proof fn lemma_push_to_set(s: Seq<u64>, x: u64)
    ensures
        s.push(x).to_set() == s.to_set().insert(x),
{
    assert forall|y: u64| #[trigger] s.push(x).to_set().contains(y) implies s.to_set().insert(
        x,
    ).contains(y) by {
        let i = choose|i: int| 0 <= i < s.push(x).len() && s.push(x)[i] == y;
        if i < s.len() {
            assert(s[i] == y);
            assert(s.contains(y));
        }
    }
    assert forall|y: u64| s.to_set().insert(x).contains(y) implies #[trigger] s.push(
        x,
    ).to_set().contains(y) by {
        if y == x {
            assert(s.push(x)[s.len() as int] == y);
        } else {
            let i = choose|i: int| 0 <= i < s.len() && s[i] == y;
            assert(s.push(x)[i] == y);
        }
        assert(s.push(x).contains(y));
    }
    assert(s.push(x).to_set() =~= s.to_set().insert(x));
}

/// During compaction: key `k` still waits for relocation. Its mapping entry
/// is untouched and its record lies in the part of the scan not yet walked.
pub open spec fn pending_at(
    l: Log,
    oldm: Map<Seq<u8>, (Slot, u32)>,
    done: Seq<crate::data::SegRec>,
    t: int,
    k: Seq<u8>,
) -> bool {
    &&& l.key_map()[k] == oldm[k]
    &&& exists|i: int|
        t <= i < done.len() && (#[trigger] done[i]).key == k && done[i].off == oldm[k].0.offset
            && done[i].value.len() == oldm[k].1
}

/// During compaction: key `k` has been relocated. Its mapping entry points
/// out of the compacted segment, at a record with its scanned contents, and
/// that record's image — same key, same value bytes, same timestamp — is
/// staged in the write-behind buffer at the new location for the host to
/// write.
pub open spec fn relocated_at(
    l: Log,
    oldm: Map<Seq<u8>, (Slot, u32)>,
    done: Seq<crate::data::SegRec>,
    fileid: u64,
    k: Seq<u8>,
) -> bool {
    &&& l.key_map()[k].0.fileid != fileid
    &&& l.spec_pool().spec_has(l.key_map()[k].0.fileid)
    &&& exists|i: int|
        0 <= i < done.len() && (#[trigger] done[i]).key == k && done[i].off == oldm[k].0.offset
            && l.key_map()[k].1 == done[i].value.len() && l.key_map()[k].0.time == done[i].time
            && (exists|bi: int, pos: int|
            0 <= bi < l.spec_writer().batch_count() && l.spec_writer().fileid_at(bi)
                == l.key_map()[k].0.fileid && 0 <= pos < l.spec_writer().staged_at(bi).len()
                && #[trigger] l.spec_writer().staged_at(bi)[pos].0 == l.key_map()[k].0.offset && (
            l.spec_writer().staged_at(bi)[pos].1 matches Staged::Rec(rr) && rr.key@ == k
                && rr.value@ == done[i].value && rr.time == done[i].time))
}

/// A write staged in the buffer stays there, at its batch and position, as
/// later writes are staged.
proof fn lemma_staged_item_persists(
    pre: RecordWriter,
    post: RecordWriter,
    fileid: u64,
    offset: u32,
    st: Staged,
    bi: int,
    pos: int,
)
    requires
        staged_one(pre, post, fileid, offset, st),
        0 <= bi < pre.batch_count(),
        0 <= pos < pre.staged_at(bi).len(),
    ensures
        bi < post.batch_count(),
        post.fileid_at(bi) == pre.fileid_at(bi),
        pos < post.staged_at(bi).len(),
        post.staged_at(bi)[pos] == pre.staged_at(bi)[pos],
{
    let i = choose|i: int|
        0 <= i < post.batch_count() && #[trigger] post.fileid_at(i) == fileid && post.staged_at(i)
            == (if i < pre.batch_count() {
            pre.staged_at(i)
        } else {
            Seq::<(u32, Staged)>::empty()
        }).push((offset, st)) && post.batch_count() == (if i < pre.batch_count() {
            pre.batch_count()
        } else {
            pre.batch_count() + 1
        }) && (forall|j: int|
            0 <= j < pre.batch_count() && j != i ==> #[trigger] post.fileid_at(j) == pre.fileid_at(
                j,
            ) && post.staged_at(j) == pre.staged_at(j)) && (i < pre.batch_count()
            ==> pre.fileid_at(i) == fileid) && (i >= pre.batch_count() ==> (forall|j: int|
            0 <= j < pre.batch_count() ==> #[trigger] pre.fileid_at(j) != fileid));
    if bi == i {
        assert(post.staged_at(bi)[pos] == pre.staged_at(bi)[pos]);
    }
}

/// The bytes a record with this key length and value size occupies on disk.
pub open spec fn entry_alloc(keylen: int, valuesize: u32) -> int {
    spec_roundup(14 + keylen + valuesize, ALIGN as int)
}

/// How appending a record moved the registry: either the active segment
/// served the record's padded allocation by first fit, or — exactly when no
/// free extent of the active segment could hold it — a segment was born
/// under `max(now, active + 1)`, became active, and serves at offset zero.
pub open spec fn pool_appended(
    pre: FilePool,
    post: FilePool,
    alloc: u32,
    sl: Slot,
    now: u64,
) -> bool {
    &&& sl.fileid == post.spec_lastfileid()
    &&& (sl.fileid == pre.spec_lastfileid() || sl.fileid > pre.spec_lastfileid())
    &&& (sl.fileid == pre.spec_lastfileid() ==> {
        &&& post.seg_count() == pre.seg_count()
        &&& exists|i: int|
            0 <= i < pre.seg_count() && #[trigger] pre.fileid_at(i) == sl.fileid && requested(
                pre.freelist_at(i),
                post.freelist_at(i),
                alloc,
                sl.offset,
            ) && (forall|j: int|
                0 <= j < pre.seg_count() && j != i ==> #[trigger] post.freelist_at(j)
                    == pre.freelist_at(j))
    })
    &&& (sl.fileid > pre.spec_lastfileid() ==> {
        &&& sl.fileid == (if now > pre.spec_lastfileid() {
            now
        } else {
            (pre.spec_lastfileid() + 1) as u64
        })
        &&& sl.offset == 0
        &&& post.seg_count() == pre.seg_count() + 1
        &&& exists|i: int|
            0 <= i < pre.seg_count() && #[trigger] pre.fileid_at(i) == pre.spec_lastfileid() && (
            forall|k: int|
                0 <= k < pre.freelist_at(i)@.len() ==> (#[trigger] pre.freelist_at(i)@[k]).size
                    < alloc)
        &&& forall|j: int|
            0 <= j < pre.seg_count() ==> #[trigger] post.fileid_at(j) == pre.fileid_at(j)
                && post.freelist_at(j) == pre.freelist_at(j)
    })
}

/// Whether the write-behind buffer holds this exact write for `fileid`:
/// some batch of that segment stages it.
pub open spec fn staged_for(w: RecordWriter, fileid: u64, item: (u32, Staged)) -> bool {
    exists|bi: int, pos: int|
        0 <= bi < w.batch_count() && w.fileid_at(bi) == fileid && 0 <= pos < w.staged_at(bi).len()
            && #[trigger] w.staged_at(bi)[pos] == item
}

/// How deleting a record returned its extent to the registry: the range
/// `[sl.offset, sl.offset + alloc)` rejoined its segment's free extents, and
/// nothing else moved.
pub open spec fn pool_released(pre: FilePool, post: FilePool, alloc: u32, sl: Slot) -> bool {
    &&& post.spec_lastfileid() == pre.spec_lastfileid()
    &&& post.seg_count() == pre.seg_count()
    &&& forall|j: int|
        0 <= j < pre.seg_count() ==> #[trigger] post.fileid_at(j) == pre.fileid_at(j)
    &&& exists|i: int|
        0 <= i < pre.seg_count() && #[trigger] pre.fileid_at(i) == sl.fileid && freed(
            pre.freelist_at(i),
            post.freelist_at(i),
            sl.offset,
            alloc,
        ) && (forall|j: int|
            0 <= j < pre.seg_count() && j != i ==> #[trigger] post.freelist_at(j)
                == pre.freelist_at(j))
}

/// The top-level key-value engine: the segment registry with its allocators,
/// the in-memory mapping from key bytes to the current location of each key,
/// the set of segments awaiting a sync, and the write-behind buffer. All
/// file reads, writes, syncs and unlinks are the host's; every decision and
/// every byte image comes from here.
#[derive(Debug)]
pub struct Log {
    filepool: FilePool,
    syncpool: Vec<u64>,
    indexmap: Vec<(Vec<u8>, Slot, u32)>,
    writer: RecordWriter,
}

impl Log {
    /// The segment registry.
    pub closed spec fn spec_pool(&self) -> FilePool {
        self.filepool
    }

    /// The write-behind buffer.
    pub closed spec fn spec_writer(&self) -> RecordWriter {
        self.writer
    }

    /// The segments whose files await a sync.
    pub closed spec fn sync_set(&self) -> Set<u64> {
        self.syncpool@.to_set()
    }

    /// How many keys the in-memory mapping holds.
    pub closed spec fn ent_count(&self) -> int {
        self.indexmap@.len() as int
    }

    /// The key of the mapping entry at `i`.
    pub closed spec fn key_at(&self, i: int) -> Seq<u8> {
        self.indexmap@[i].0@
    }

    /// The location of the mapping entry at `i`.
    pub closed spec fn slot_at(&self, i: int) -> Slot {
        self.indexmap@[i].1
    }

    /// The value size of the mapping entry at `i`.
    pub closed spec fn vsize_at(&self, i: int) -> u32 {
        self.indexmap@[i].2
    }

    /// The bytes the record of the entry at `i` occupies on disk.
    pub open spec fn ent_alloc(&self, i: int) -> int {
        entry_alloc(self.key_at(i).len() as int, self.vsize_at(i))
    }

    /// The mapping from key bytes to location and value size: what `get`
    /// observes.
    pub closed spec fn key_map(&self) -> Map<Seq<u8>, (Slot, u32)> {
        assoc_map(self.indexmap@)
    }

    /// The entry at `i` is well formed: sizes in range, its record's range
    /// within capacity, its segment registered.
    pub open spec fn entry_ok(&self, i: int) -> bool {
        &&& 1 <= self.key_at(i).len() <= 0xffff
        &&& 1 <= self.vsize_at(i)
        &&& self.slot_at(i).offset + self.ent_alloc(i) <= MAX_FILESIZE
        &&& self.spec_pool().spec_has(self.slot_at(i).fileid)
    }

    /// The engine's invariant. Beyond the well-formedness of its parts: keys
    /// are unique; the on-disk range of every mapped record is disjoint from
    /// every free extent of its segment (so freeing it cannot double-free);
    /// and the ranges of any two mapped records in one segment are disjoint.
    pub open spec fn wf(&self) -> bool {
        &&& self.spec_pool().wf()
        &&& self.spec_writer().wf()
        &&& self.spec_writer().all_valid()
        &&& forall|i: int| 0 <= i < self.ent_count() ==> self.entry_ok(i)
        &&& forall|i: int, j: int|
            0 <= i < j < self.ent_count() ==> #[trigger] self.key_at(i) != #[trigger] self.key_at(
                j,
            )
        &&& forall|i: int, p: int, k: int|
            0 <= i < self.ent_count() && 0 <= p < self.spec_pool().seg_count()
                && self.spec_pool().fileid_at(p) == (#[trigger] self.slot_at(i)).fileid && 0 <= k
                < self.spec_pool().freelist_at(p)@.len() ==> ((#[trigger] self.spec_pool(
            ).freelist_at(p)@[k]).end() <= self.slot_at(i).offset || self.slot_at(i).offset
                + self.ent_alloc(i) <= self.spec_pool().freelist_at(p)@[k].off)
        &&& forall|i: int, j: int|
            0 <= i < self.ent_count() && 0 <= j < self.ent_count() && i != j && (
            #[trigger] self.slot_at(i)).fileid == (#[trigger] self.slot_at(j)).fileid ==> (
            self.slot_at(i).offset + self.ent_alloc(i) <= self.slot_at(j).offset || self.slot_at(
                j,
            ).offset + self.ent_alloc(j) <= self.slot_at(i).offset)
    }

    /// A fresh engine over a registry, with an empty mapping, nothing
    /// staged, and nothing awaiting sync.
    pub fn new(datafilepool: FilePool) -> (r: Log)
        requires
            datafilepool.wf(),
        ensures
            r.wf(),
            r.spec_pool() == datafilepool,
            r.key_map() == Map::<Seq<u8>, (Slot, u32)>::empty(),
            r.sync_set() == Set::<u64>::empty(),
            r.spec_writer().batch_count() == 0,
            r.ent_count() == 0,
    {
        let r = Log {
            filepool: datafilepool,
            syncpool: Vec::new(),
            indexmap: Vec::new(),
            writer: RecordWriter::new(),
        };
        proof {
            assert(r.syncpool@.to_set() =~= Set::<u64>::empty());
        }
        r
    }

    /// Whether two byte keys are equal.
    fn keys_equal(a: &Vec<u8>, b: &Vec<u8>) -> (r: bool)
        ensures
            r <==> a@ == b@,
    {
        if a.len() != b.len() {
            proof {
                assert(a@ != b@);
            }
            return false;
        }
        let n = a.len();
        let mut i: usize = 0;
        while i < n
            invariant
                n == a@.len() == b@.len(),
                0 <= i <= n,
                forall|j: int| 0 <= j < i ==> a@[j] == b@[j],
            decreases n - i,
        {
            if a[i] != b[i] {
                proof {
                    assert(a@[i as int] != b@[i as int]);
                }
                return false;
            }
            i = i + 1;
        }
        proof {
            assert(a@ =~= b@);
        }
        true
    }

    /// The position of the entry carrying `key`, if any.
    fn find_entry(&self, key: &Vec<u8>) -> (r: Option<usize>)
        ensures
            match r {
                Some(i) => i < self.ent_count() && self.key_at(i as int) == key@,
                None => forall|i: int| 0 <= i < self.ent_count() ==> self.key_at(i) != key@,
            },
    {
        let n = self.indexmap.len();
        let mut i: usize = 0;
        while i < n
            invariant
                n == self.ent_count(),
                0 <= i <= n,
                forall|j: int| 0 <= j < i ==> self.key_at(j) != key@,
            decreases n - i,
        {
            if Log::keys_equal(&self.indexmap[i].0, key) {
                return Some(i);
            }
            i = i + 1;
        }
        None
    }

    /// The uniqueness of keys, restated over the raw entries.
    proof fn lemma_keys_unique(&self)
        requires
            forall|i: int, j: int|
                0 <= i < j < self.ent_count() ==> #[trigger] self.key_at(i)
                    != #[trigger] self.key_at(j),
        ensures
            forall|a: int, b: int|
                0 <= a < b < self.indexmap@.len() ==> (#[trigger] self.indexmap@[a]).0@ != (
                #[trigger] self.indexmap@[b]).0@,
    {
        assert forall|a: int, b: int|
            0 <= a < b < self.indexmap@.len() implies (#[trigger] self.indexmap@[a]).0@ != (
        #[trigger] self.indexmap@[b]).0@ by {
            assert(self.key_at(a) != self.key_at(b));
        }
    }

    /// The current location of a key, or `None` when the key is absent.
    pub fn locate(&self, key: &Vec<u8>) -> (r: Option<Slot>)
        requires
            self.wf(),
        ensures
            match r {
                Some(sl) => self.key_map().contains_key(key@) && self.key_map()[key@].0 == sl,
                None => !self.key_map().contains_key(key@),
            },
    {
        proof {
            lemma_assoc_contains(self.indexmap@, key@);
        }
        match self.find_entry(key) {
            Some(i) => {
                proof {
                    self.lemma_keys_unique();
                    lemma_assoc_lookup(self.indexmap@, i as int);
                }
                Some(self.indexmap[i].1)
            },
            None => {
                proof {
                    if self.key_map().contains_key(key@) {
                        let w = choose|w: int|
                            0 <= w < self.indexmap@.len() && (#[trigger] self.indexmap@[w]).0@
                                == key@;
                        assert(self.key_at(w) == key@);
                        assert(false);
                    }
                }
                None
            },
        }
    }

    /// Read back the record of a key from the bytes the host fetched at the
    /// key's location: `filedata` is the segment's contents from the entry's
    /// offset on. Absent keys yield `None` without touching the bytes. Bytes
    /// that do not hold a whole record are refused as a short read; a gap or
    /// a record carrying a different key or value size means the mapping and
    /// the disk disagree, refused as an invalid key.
    pub fn get_record(&self, key: &Vec<u8>, filedata: &Vec<u8>) -> (r: Result<
        Option<Record>,
        Error,
    >)
        requires
            self.wf(),
        ensures
            !self.key_map().contains_key(key@) ==> r == Ok::<Option<Record>, Error>(None::<
                Record,
            >),
            self.key_map().contains_key(key@) ==> (match parse_record(filedata@) {
                ParsedRecord::TooShort => r == Err::<Option<Record>, Error>(Error::ShortRead),
                ParsedRecord::Gap => r == Err::<Option<Record>, Error>(Error::InvalidKey),
                ParsedRecord::Rec { key: dk, value: dv, time: dt } => {
                    if dk == key@ && dv.len() == self.key_map()[key@].1 {
                        r matches Ok(o) && o matches Some(rec) && rec.key@ == dk && rec.value@
                            == dv && rec.time == dt
                    } else {
                        r == Err::<Option<Record>, Error>(Error::InvalidKey)
                    }
                },
            }),
    {
        proof {
            lemma_assoc_contains(self.indexmap@, key@);
        }
        let vsize = match self.find_entry(key) {
            Some(i) => {
                proof {
                    self.lemma_keys_unique();
                    lemma_assoc_lookup(self.indexmap@, i as int);
                }
                self.indexmap[i].2
            },
            None => {
                proof {
                    if self.key_map().contains_key(key@) {
                        let w = choose|w: int|
                            0 <= w < self.indexmap@.len() && (#[trigger] self.indexmap@[w]).0@
                                == key@;
                        assert(self.key_at(w) == key@);
                        assert(false);
                    }
                }
                return Ok(None);
            },
        };
        proof {
            assert(filedata@.skip(0) =~= filedata@);
        }
        match Record::read_from(filedata, 0) {
            Err(e) => Err(e),
            Ok(None) => Err(Error::InvalidKey),
            Ok(Some(rec)) => {
                if Log::keys_equal(&rec.key, key) && rec.value.len() as u64 == vsize as u64 {
                    Ok(Some(rec))
                } else {
                    Err(Error::InvalidKey)
                }
            },
        }
    }

    /// Read back the value of a key, as `get_record` does.
    pub fn get_value(&self, key: &Vec<u8>, filedata: &Vec<u8>) -> (r: Result<Option<Vec<u8>>, Error>)
        requires
            self.wf(),
        ensures
            !self.key_map().contains_key(key@) ==> r == Ok::<Option<Vec<u8>>, Error>(None::<
                Vec<u8>,
            >),
            self.key_map().contains_key(key@) ==> (match parse_record(filedata@) {
                ParsedRecord::TooShort => r == Err::<Option<Vec<u8>>, Error>(Error::ShortRead),
                ParsedRecord::Gap => r == Err::<Option<Vec<u8>>, Error>(Error::InvalidKey),
                ParsedRecord::Rec { key: dk, value: dv, time: dt } => {
                    if dk == key@ && dv.len() == self.key_map()[key@].1 {
                        r matches Ok(o) && o matches Some(v) && v@ == dv
                    } else {
                        r == Err::<Option<Vec<u8>>, Error>(Error::InvalidKey)
                    }
                },
            }),
    {
        match self.get_record(key, filedata) {
            Err(e) => Err(e),
            Ok(None) => Ok(None),
            Ok(Some(record)) => Ok(Some(record.value)),
        }
    }


    /// Copy a byte key, so the record and the mapping each own one.
    fn clone_bytes(v: &Vec<u8>) -> (r: Vec<u8>)
        ensures
            r@ == v@,
    {
        let mut out: Vec<u8> = Vec::new();
        let n = v.len();
        let mut i: usize = 0;
        while i < n
            invariant
                n == v@.len(),
                0 <= i <= n,
                out@ =~= v@.subrange(0, i as int),
            decreases n - i,
        {
            out.push(v[i]);
            i = i + 1;
        }
        proof {
            assert(out@ =~= v@);
        }
        out
    }

    /// Put a segment into the set awaiting sync.
    fn mark_dirty(&mut self, fileid: u64)
        ensures
            final(self).sync_set() == old(self).sync_set().insert(fileid),
            final(self).spec_pool() == old(self).spec_pool(),
            final(self).spec_writer() == old(self).spec_writer(),
            final(self).indexmap == old(self).indexmap,
    {
        let n = self.syncpool.len();
        let mut i: usize = 0;
        while i < n
            invariant
                *self == *old(self),
                n == self.syncpool@.len(),
                0 <= i <= n,
            decreases n - i,
        {
            if self.syncpool[i] == fileid {
                proof {
                    assert(self.syncpool@.contains(fileid));
                    assert(self.sync_set().contains(fileid));
                    assert(self.sync_set() =~= self.sync_set().insert(fileid));
                }
                return ;
            }
            i = i + 1;
        }
        self.syncpool.push(fileid);
        proof {
            lemma_push_to_set(old(self).syncpool@, fileid);
        }
    }

    /// Append a fresh record for `key` carrying `value` under timestamp
    /// `time`: reserve room (a new segment is born, under the clock reading
    /// `now`, when the active one is full), stage the record's image for the
    /// host to write, point the mapping at the new location, and mark the
    /// segment dirty. Fails exactly when no segment, fresh or not, could
    /// ever hold the record.
    #[verifier::rlimit(40)]
    pub fn append(&mut self, key: Vec<u8>, value: Vec<u8>, time: u64, now: u64) -> (r: Result<
        (),
        Error,
    >)
        requires
            old(self).wf(),
            1 <= key@.len() <= 0xffff,
            1 <= value@.len() <= 0xffffffff,
            old(self).spec_pool().spec_lastfileid() < u64::MAX,
        ensures
            final(self).wf(),
            final(self).spec_pool().spec_lastfileid() >= old(self).spec_pool().spec_lastfileid(),
            r is Ok ==> final(self).spec_pool().spec_lastfileid() == old(
                self,
            ).spec_pool().spec_lastfileid() || final(self).spec_pool().spec_lastfileid() == (if now
                > old(self).spec_pool().spec_lastfileid() {
                now
            } else {
                (old(self).spec_pool().spec_lastfileid() + 1) as u64
            }),
            r is Ok <==> entry_alloc(key@.len() as int, value@.len() as u32) <= MAX_FILESIZE,
            match r {
                Ok(()) => exists|sl: Slot| {
                    &&& sl.time == time
                    &&& final(self).key_map() == #[trigger] old(self).key_map().insert(
                        key@,
                        (sl, value@.len() as u32),
                    )
                    &&& sl.offset + entry_alloc(key@.len() as int, value@.len() as u32)
                        <= MAX_FILESIZE
                    &&& final(self).spec_pool().spec_has(sl.fileid)
                    &&& sl.fileid == final(self).spec_pool().spec_lastfileid()
                    &&& forall|f: u64|
                        #[trigger] old(self).spec_pool().spec_has(f)
                            ==> final(self).spec_pool().spec_has(f)
                    &&& pool_appended(
                        old(self).spec_pool(),
                        final(self).spec_pool(),
                        (entry_alloc(key@.len() as int, value@.len() as u32)) as u32,
                        sl,
                        now,
                    )
                    &&& staged_one(
                        old(self).spec_writer(),
                        final(self).spec_writer(),
                        sl.fileid,
                        sl.offset,
                        Staged::Rec(Record { key: key, value: value, time: time }),
                    )
                    &&& final(self).sync_set() == old(self).sync_set().insert(sl.fileid)
                },
                Err(e) => e == Error::AllocateFail && *final(self) == *old(self),
            },
    {
        proof {
            self.lemma_keys_unique();
        }
        let size64: u64 = 14 + key.len() as u64 + value.len() as u64;
        let alloc64: u64 = ((size64 + 15) / 16) * 16;
        proof {
            lemma_roundup_bounds(size64 as int, ALIGN as int);
            assert(alloc64 == entry_alloc(key@.len() as int, value@.len() as u32));
        }
        if alloc64 > MAX_FILESIZE as u64 {
            return Err(Error::AllocateFail);
        }
        let alloc: u32 = alloc64 as u32;
        let vlen32: u32 = value.len() as u32;
        let keydup = Log::clone_bytes(&key);
        let found = self.find_entry(&key);
        let ghost p0 = self.filepool;
        let (fileid, offset) = match self.filepool.request_room_ornew(alloc, now) {
            Ok(p) => p,
            Err(_) => {
                proof {
                    assert(false);
                }
                (0u64, 0u32)
            },
        };
        let ghost p1 = self.filepool;
        let record = Record { key, value, time: time };
        let ghost w0 = self.writer;
        let stres = self.writer.insert_record(fileid, offset, record);
        let slot = Slot { fileid, offset, time: time };
        let ghost e0 = self.indexmap@;
        let ghost newix: int = match found {
            Some(k) => k as int,
            None => e0.len() as int,
        };
        match found {
            Some(k) => {
                self.indexmap[k] = (keydup, slot, vlen32);
                proof {
                    lemma_assoc_update(e0, k as int, (keydup, slot, vlen32));
                }
            },
            None => {
                self.indexmap.push((keydup, slot, vlen32));
                proof {
                    assert(self.indexmap@.drop_last() =~= e0);
                    assert(assoc_map(self.indexmap@) == assoc_map(e0).insert(
                        key@,
                        (slot, vlen32),
                    ));
                }
            },
        }
        self.mark_dirty(fileid);
        proof {
            let oldl = *old(self);
            let e1 = self.indexmap@;
            assert(self.spec_pool() == p1);
            assert(self.key_map() == oldl.key_map().insert(key@, (slot, vlen32)));
            let born = fileid > p0.spec_lastfileid();
            // every old entry keeps its identity in e1
            assert(forall|i: int|
                0 <= i < e0.len() && i != newix ==> e1[i] == e0[i] && #[trigger] self.key_at(i)
                    == oldl.key_at(i) && #[trigger] self.slot_at(i) == oldl.slot_at(i)
                    && self.vsize_at(i) == oldl.vsize_at(i));
            assert(self.slot_at(newix) == slot && self.key_at(newix) == key@ && self.vsize_at(
                newix,
            ) == vlen32);
            assert(self.ent_alloc(newix) == alloc);
            // keys stay unique
            assert forall|i: int, j: int| 0 <= i < j < self.ent_count() implies
                #[trigger] self.key_at(i) != #[trigger] self.key_at(j) by {
                if i != newix && j != newix {
                    assert(oldl.key_at(i) != oldl.key_at(j));
                } else if i == newix {
                    assert(j > newix);
                    assert(newix < e0.len());
                    assert(oldl.key_at(newix) == key@);
                    assert(oldl.key_at(newix) != oldl.key_at(j));
                    assert(self.key_at(j) == oldl.key_at(j));
                } else {
                    if newix < e0.len() {
                        assert(oldl.key_at(i) != oldl.key_at(newix));
                        assert(oldl.key_at(newix) == key@);
                    } else {
                        assert(oldl.key_at(i) != key@);
                    }
                }
            }
            // old entries' fileids stay registered, below the active id
            assert forall|i: int| 0 <= i < e0.len() && i != newix implies oldl.entry_ok(i)
                && #[trigger] self.slot_at(i) == oldl.slot_at(i) by {}
            // facts from the pool transition
            assert(p1.wf());
            assert(fileid == p1.spec_lastfileid());
            if !born {
                assert(fileid == p0.spec_lastfileid());
            }
            let pi = if born {
                p0.seg_count()
            } else {
                choose|pi: int|
                    0 <= pi < p0.seg_count() && #[trigger] p0.fileid_at(pi) == fileid && requested(
                        p0.freelist_at(pi),
                        p1.freelist_at(pi),
                        alloc,
                        offset,
                    ) && (forall|j: int|
                        0 <= j < p0.seg_count() && j != pi ==> #[trigger] p1.freelist_at(j)
                            == p0.freelist_at(j))
            };
            if born {
                assert(p1.seg_count() == p0.seg_count() + 1);
                assert(p1.fileid_at(pi) == fileid);
                assert(offset == 0);
                assert(forall|j: int|
                    0 <= j < p0.seg_count() ==> #[trigger] p1.fileid_at(j) == p0.fileid_at(j));
                assert forall|j: int| 0 <= j < p0.seg_count() implies #[trigger] p1.freelist_at(j)
                    == p0.freelist_at(j) by {
                    assert(p1.fileid_at(j) == p0.fileid_at(j));
                }
            } else {
                assert(0 <= pi < p0.seg_count() && p0.fileid_at(pi) == fileid && requested(
                    p0.freelist_at(pi),
                    p1.freelist_at(pi),
                    alloc,
                    offset,
                ));
                assert(p1.seg_count() == p0.seg_count());
                assert(forall|j: int|
                    0 <= j < p0.seg_count() ==> #[trigger] p1.fileid_at(j) == p0.fileid_at(j));
            }
            // entries are well formed
            assert forall|i: int| 0 <= i < self.ent_count() implies self.entry_ok(i) by {
                if i == newix {
                    assert(offset + alloc <= MAX_FILESIZE);
                    assert(p1.spec_has(fileid));
                } else {
                    assert(oldl.entry_ok(i));
                    let w = choose|w: int|
                        0 <= w < p0.seg_count() && #[trigger] p0.fileid_at(w) == oldl.slot_at(
                            i,
                        ).fileid;
                    assert(p1.fileid_at(w) == p0.fileid_at(w));
                    assert(p1.spec_has(self.slot_at(i).fileid));
                }
            }
            // old entries' fileids differ from a newborn segment's
            if born {
                assert forall|i: int| 0 <= i < e0.len() && i != newix implies (
                #[trigger] self.slot_at(i)).fileid != fileid by {
                    assert(oldl.entry_ok(i));
                    assert(p0.spec_has(oldl.slot_at(i).fileid));
                    let w = choose|w: int|
                        0 <= w < p0.seg_count() && #[trigger] p0.fileid_at(w) == oldl.slot_at(
                            i,
                        ).fileid;
                    assert(p0.fileid_at(w) <= p0.spec_lastfileid());
                }
            }
            // record ranges stay disjoint from every free extent
            assert forall|i: int, p: int, kk: int|
                0 <= i < self.ent_count() && 0 <= p < self.spec_pool().seg_count()
                    && self.spec_pool().fileid_at(p) == (#[trigger] self.slot_at(i)).fileid && 0
                    <= kk < self.spec_pool().freelist_at(p)@.len() implies ((
            #[trigger] self.spec_pool().freelist_at(p)@[kk]).end() <= self.slot_at(i).offset
                || self.slot_at(i).offset + self.ent_alloc(i) <= self.spec_pool().freelist_at(
                p,
            )@[kk].off) by {
                if i == newix {
                    if p == pi {
                        if born {
                            if alloc == MAX_FILESIZE {
                                assert(p1.freelist_at(pi)@.len() == 0);
                            } else {
                                assert(p1.freelist_at(pi)@[kk] == Atag {
                                    off: alloc,
                                    size: (MAX_FILESIZE - alloc) as u32,
                                });
                            }
                        } else {
                            assert(requested(
                                p0.freelist_at(pi),
                                p1.freelist_at(pi),
                                alloc,
                                offset,
                            ));
                        }
                    } else {
                        assert(p1.fileid_at(p) != p1.fileid_at(pi));
                        assert(false);
                    }
                } else {
                    assert(self.slot_at(i) == oldl.slot_at(i));
                    assert(self.ent_alloc(i) == oldl.ent_alloc(i));
                    if born {
                        assert(self.slot_at(i).fileid != fileid);
                        assert(p < p0.seg_count());
                        assert(p1.freelist_at(p) == p0.freelist_at(p));
                        assert(p0.fileid_at(p) == oldl.slot_at(i).fileid);
                        assert((p0.freelist_at(p)@[kk]).end() <= oldl.slot_at(i).offset
                            || oldl.slot_at(i).offset + oldl.ent_alloc(i) <= p0.freelist_at(
                            p,
                        )@[kk].off);
                    } else {
                        if p == pi {
                            crate::freelist::lemma_requested_preserves_disjoint(
                                p0.freelist_at(pi),
                                p1.freelist_at(pi),
                                alloc,
                                offset,
                                oldl.slot_at(i).offset,
                                oldl.ent_alloc(i),
                            );
                        } else {
                            assert(p1.freelist_at(p) == p0.freelist_at(p));
                            assert(p0.fileid_at(p) == oldl.slot_at(i).fileid);
                            assert((p0.freelist_at(p)@[kk]).end() <= oldl.slot_at(i).offset
                                || oldl.slot_at(i).offset + oldl.ent_alloc(i) <= p0.freelist_at(
                                p,
                            )@[kk].off);
                        }
                    }
                }
            }
            // record ranges of one segment stay pairwise disjoint
            assert forall|i: int, j: int|
                0 <= i < self.ent_count() && 0 <= j < self.ent_count() && i != j && (
            #[trigger] self.slot_at(i)).fileid == (#[trigger] self.slot_at(j)).fileid implies (
            self.slot_at(i).offset + self.ent_alloc(i) <= self.slot_at(j).offset || self.slot_at(
                j,
            ).offset + self.ent_alloc(j) <= self.slot_at(i).offset) by {
                if i != newix && j != newix {
                    assert(oldl.slot_at(i) == self.slot_at(i) && oldl.slot_at(j) == self.slot_at(
                        j,
                    ));
                } else {
                    let o = if i == newix {
                        j
                    } else {
                        i
                    };
                    assert(o != newix && self.slot_at(o) == oldl.slot_at(o) && self.ent_alloc(o)
                        == oldl.ent_alloc(o));
                    if born {
                        assert(self.slot_at(o).fileid != fileid);
                        assert(false);
                    } else {
                        crate::freelist::lemma_requested_within_free(
                            p0.freelist_at(pi),
                            p1.freelist_at(pi),
                            alloc,
                            offset,
                        );
                        let w = choose|w: int|
                            0 <= w < p0.freelist_at(pi)@.len() && (#[trigger] p0.freelist_at(
                                pi,
                            )@[w]).off <= offset && offset + alloc <= p0.freelist_at(pi)@[w].end();
                        assert((p0.freelist_at(pi)@[w]).end() <= oldl.slot_at(o).offset
                            || oldl.slot_at(o).offset + oldl.ent_alloc(o) <= p0.freelist_at(
                            pi,
                        )@[w].off);
                    }
                }
            }
            assert(self.wf());
            assert forall|f: u64| p0.spec_has(f) implies #[trigger] self.spec_pool().spec_has(
                f,
            ) by {
                let w = choose|w: int|
                    0 <= w < p0.seg_count() && #[trigger] p0.fileid_at(w) == f;
                assert(p1.fileid_at(w) == p0.fileid_at(w));
            }
            assert(pool_appended(p0, p1, alloc, slot, now)) by {
                if born {
                    assert(slot.fileid == p1.spec_lastfileid());
                } else {
                    assert(0 <= pi < p0.seg_count() && p0.fileid_at(pi) == slot.fileid
                        && requested(p0.freelist_at(pi), p1.freelist_at(pi), alloc, slot.offset));
                }
            }
            assert(self.key_map() == oldl.key_map().insert(key@, (slot, value@.len() as u32)));
            assert(self.sync_set() == oldl.sync_set().insert(slot.fileid));
            assert(staged_one(
                oldl.spec_writer(),
                self.spec_writer(),
                slot.fileid,
                slot.offset,
                Staged::Rec(Record { key: key, value: value, time: time }),
            ));
        }
        Ok(())
    }


    /// Tear a key out of the engine: return its record's extent to the
    /// segment's allocator, stage a gap image of the same allocation for the
    /// host to overwrite the record with, drop the mapping entry, and mark
    /// the segment dirty. `None` when the key is absent, and then nothing
    /// changes.
    fn unlink_key(&mut self, key: &Vec<u8>) -> (r: Option<Slot>)
        requires
            old(self).wf(),
        ensures
            final(self).wf(),
            final(self).spec_pool().spec_lastfileid() == old(self).spec_pool().spec_lastfileid(),
            match r {
                None => !old(self).key_map().contains_key(key@) && *final(self) == *old(self),
                Some(sl) => {
                    &&& old(self).key_map().contains_key(key@)
                    &&& sl == old(self).key_map()[key@].0
                    &&& final(self).key_map() == old(self).key_map().remove(key@)
                    &&& pool_released(
                        old(self).spec_pool(),
                        final(self).spec_pool(),
                        (entry_alloc(key@.len() as int, old(self).key_map()[key@].1)) as u32,
                        sl,
                    )
                    &&& staged_one(
                        old(self).spec_writer(),
                        final(self).spec_writer(),
                        sl.fileid,
                        sl.offset,
                        Staged::Gap(
                            entry_alloc(key@.len() as int, old(self).key_map()[key@].1) as usize,
                        ),
                    )
                    &&& final(self).sync_set() == old(self).sync_set().insert(sl.fileid)
                },
            },
    {
        proof {
            self.lemma_keys_unique();
            lemma_assoc_contains(self.indexmap@, key@);
        }
        let found = self.find_entry(key);
        let k = match found {
            None => {
                proof {
                    if self.key_map().contains_key(key@) {
                        let w = choose|w: int|
                            0 <= w < self.indexmap@.len() && (#[trigger] self.indexmap@[w]).0@
                                == key@;
                        assert(self.key_at(w) == key@);
                        assert(false);
                    }
                }
                return None;
            },
            Some(k) => k,
        };
        proof {
            lemma_assoc_lookup(self.indexmap@, k as int);
        }
        proof {
            assert(self.entry_ok(k as int));
            assert(self.key_at(k as int) == key@);
            assert(key@.len() <= 0xffff);
        }
        let slot = self.indexmap[k].1;
        let vsize = self.indexmap[k].2;
        let size64: u64 = 14 + key.len() as u64 + vsize as u64;
        let alloc64: u64 = ((size64 + 15) / 16) * 16;
        proof {
            lemma_roundup_bounds(size64 as int, ALIGN as int);
            assert(self.entry_ok(k as int));
            assert(alloc64 == self.ent_alloc(k as int));
            assert(alloc64 <= MAX_FILESIZE);
        }
        let alloc: u32 = alloc64 as u32;
        let ghost p0 = self.filepool;
        let ghost oldl = *old(self);
        proof {
            // the entry's range never overlaps the free extents of its segment
            assert forall|i: int, kk: int|
                0 <= i < p0.seg_count() && #[trigger] p0.fileid_at(i) == slot.fileid && 0 <= kk
                    < p0.freelist_at(i)@.len() implies ((#[trigger] p0.freelist_at(i)@[kk]).off
                == slot.offset || p0.freelist_at(i)@[kk].end() <= slot.offset || slot.offset
                + alloc <= p0.freelist_at(i)@[kk].off) by {
                assert((oldl.spec_pool().freelist_at(i)@[kk]).end() <= oldl.slot_at(
                    k as int,
                ).offset || oldl.slot_at(k as int).offset + oldl.ent_alloc(k as int)
                    <= oldl.spec_pool().freelist_at(i)@[kk].off);
            }
        }
        let fres = self.filepool.free_room(alloc, slot.offset, slot.fileid);
        proof {
            assert(p0.spec_has(slot.fileid));
            if fres is Err {
                let e = fres->Err_0;
                assert(e == Error::DoubleFree);
                let w = choose|w: int|
                    0 <= w < p0.seg_count() && #[trigger] p0.fileid_at(w) == slot.fileid && (exists|
                        kk: int,
                    |
                        0 <= kk < p0.freelist_at(w)@.len() && (#[trigger] p0.freelist_at(
                            w,
                        )@[kk]).off == slot.offset);
                let kk = choose|kk: int|
                    0 <= kk < p0.freelist_at(w)@.len() && (#[trigger] p0.freelist_at(w)@[kk]).off
                        == slot.offset;
                assert((oldl.spec_pool().freelist_at(w)@[kk]).end() <= oldl.slot_at(
                    k as int,
                ).offset || oldl.slot_at(k as int).offset + oldl.ent_alloc(k as int)
                    <= oldl.spec_pool().freelist_at(w)@[kk].off);
                assert(p0.freelist_at(w).wf());
                assert(p0.freelist_at(w)@[kk].size >= 1);
                assert(false);
            }
        }
        let ghost p1 = self.filepool;
        proof {
            assert(Staged::Gap(alloc as usize).valid());
        }
        let _ = self.writer.stage(slot.fileid, slot.offset, Staged::Gap(alloc as usize));
        let ghost e0 = self.indexmap@;
        self.indexmap.remove(k);
        self.mark_dirty(slot.fileid);
        proof {
            let e1 = self.indexmap@;
            assert(e1 =~= e0.remove(k as int));
            lemma_assoc_remove(e0, k as int);
            assert(self.key_map() == oldl.key_map().remove(key@));
            let pi = choose|pi: int|
                0 <= pi < p0.seg_count() && #[trigger] p0.fileid_at(pi) == slot.fileid && freed(
                    p0.freelist_at(pi),
                    p1.freelist_at(pi),
                    slot.offset,
                    alloc,
                ) && (forall|j: int|
                    0 <= j < p0.seg_count() && j != pi ==> #[trigger] p1.freelist_at(j)
                        == p0.freelist_at(j));
            assert(p1.wf());
            assert(self.spec_pool() == p1);
            assert(forall|j: int|
                0 <= j < p0.seg_count() ==> #[trigger] p1.fileid_at(j) == p0.fileid_at(j));
            // remaining entries keep their identity
            assert(forall|i: int|
                0 <= i < e1.len() ==> e1[i] == (if i < k as int {
                    e0[i]
                } else {
                    e0[i + 1]
                }));
            assert forall|i: int| 0 <= i < self.ent_count() implies self.entry_ok(i) && (
            #[trigger] self.slot_at(i)) == oldl.slot_at(
                if i < k as int {
                    i
                } else {
                    i + 1
                },
            ) && self.ent_alloc(i) == oldl.ent_alloc(
                if i < k as int {
                    i
                } else {
                    i + 1
                },
            ) && self.key_at(i) == oldl.key_at(
                if i < k as int {
                    i
                } else {
                    i + 1
                },
            ) by {
                let i0 = if i < k as int {
                    i
                } else {
                    i + 1
                };
                assert(e1[i] == e0[i0]);
                assert(oldl.entry_ok(i0));
                let w = choose|w: int|
                    0 <= w < p0.seg_count() && #[trigger] p0.fileid_at(w) == oldl.slot_at(
                        i0,
                    ).fileid;
                assert(p1.fileid_at(w) == p0.fileid_at(w));
                assert(p1.spec_has(self.slot_at(i).fileid));
            }
            // keys stay unique
            assert forall|i: int, j: int| 0 <= i < j < self.ent_count() implies
                #[trigger] self.key_at(i) != #[trigger] self.key_at(j) by {
                let i0 = if i < k as int {
                    i
                } else {
                    i + 1
                };
                let j0 = if j < k as int {
                    j
                } else {
                    j + 1
                };
                assert(oldl.key_at(i0) != oldl.key_at(j0));
            }
            // record ranges stay disjoint from every free extent
            assert forall|i: int, p: int, kk: int|
                0 <= i < self.ent_count() && 0 <= p < self.spec_pool().seg_count()
                    && self.spec_pool().fileid_at(p) == (#[trigger] self.slot_at(i)).fileid && 0
                    <= kk < self.spec_pool().freelist_at(p)@.len() implies ((
            #[trigger] self.spec_pool().freelist_at(p)@[kk]).end() <= self.slot_at(i).offset
                || self.slot_at(i).offset + self.ent_alloc(i) <= self.spec_pool().freelist_at(
                p,
            )@[kk].off) by {
                let i0 = if i < k as int {
                    i
                } else {
                    i + 1
                };
                assert(self.slot_at(i) == oldl.slot_at(i0) && self.ent_alloc(i) == oldl.ent_alloc(
                    i0,
                ));
                if p == pi {
                    assert(oldl.slot_at(i0).fileid == slot.fileid);
                    // the freed range is the removed entry's own range, disjoint
                    // from every other entry of the segment
                    assert(oldl.slot_at(k as int).offset + oldl.ent_alloc(k as int) <= oldl.slot_at(
                        i0,
                    ).offset || oldl.slot_at(i0).offset + oldl.ent_alloc(i0) <= oldl.slot_at(
                        k as int,
                    ).offset);
                    assert(forall|jj: int|
                        0 <= jj < p0.freelist_at(pi)@.len() ==> ((#[trigger] p0.freelist_at(
                            pi,
                        )@[jj]).end() <= oldl.slot_at(i0).offset || oldl.slot_at(i0).offset
                            + oldl.ent_alloc(i0) <= p0.freelist_at(pi)@[jj].off));
                    crate::freelist::lemma_freed_preserves_disjoint(
                        p0.freelist_at(pi),
                        p1.freelist_at(pi),
                        slot.offset,
                        alloc,
                        oldl.slot_at(i0).offset,
                        oldl.ent_alloc(i0),
                    );
                } else {
                    assert(p1.freelist_at(p) == p0.freelist_at(p));
                    assert(p0.fileid_at(p) == oldl.slot_at(i0).fileid);
                    assert((p0.freelist_at(p)@[kk]).end() <= oldl.slot_at(i0).offset
                        || oldl.slot_at(i0).offset + oldl.ent_alloc(i0) <= p0.freelist_at(
                        p,
                    )@[kk].off);
                }
            }
            // record ranges of one segment stay pairwise disjoint
            assert forall|i: int, j: int|
                0 <= i < self.ent_count() && 0 <= j < self.ent_count() && i != j && (
            #[trigger] self.slot_at(i)).fileid == (#[trigger] self.slot_at(j)).fileid implies (
            self.slot_at(i).offset + self.ent_alloc(i) <= self.slot_at(j).offset || self.slot_at(
                j,
            ).offset + self.ent_alloc(j) <= self.slot_at(i).offset) by {
                let i0 = if i < k as int {
                    i
                } else {
                    i + 1
                };
                let j0 = if j < k as int {
                    j
                } else {
                    j + 1
                };
                assert(self.slot_at(i) == oldl.slot_at(i0) && self.slot_at(j) == oldl.slot_at(j0));
            }
            assert(self.spec_pool() == p1);
            assert(pool_released(p0, p1, alloc, slot)) by {
                assert(0 <= pi < p0.seg_count() && p0.fileid_at(pi) == slot.fileid && freed(
                    p0.freelist_at(pi),
                    p1.freelist_at(pi),
                    slot.offset,
                    alloc,
                ));
            }
            assert(self.spec_writer().wf());
            assert(self.spec_writer().all_valid());
            assert(self.spec_pool().wf());
            assert forall|i: int| 0 <= i < self.ent_count() implies self.entry_ok(i) by {
                let i0 = if i < k as int {
                    i
                } else {
                    i + 1
                };
                assert(self.indexmap@[i] == e0[i0]);
                assert(oldl.entry_ok(i0));
                let w = choose|w: int|
                    0 <= w < p0.seg_count() && #[trigger] p0.fileid_at(w) == oldl.slot_at(
                        i0,
                    ).fileid;
                assert(p1.fileid_at(w) == p0.fileid_at(w));
                assert(self.spec_pool().spec_has(self.slot_at(i).fileid));
            }
            assert(forall|i: int, j: int|
                0 <= i < j < self.ent_count() ==> #[trigger] self.key_at(i)
                    != #[trigger] self.key_at(j));
            assert(self.wf());
            assert(slot == oldl.key_map()[key@].0);
            assert(alloc64 == entry_alloc(key@.len() as int, oldl.key_map()[key@].1));
        }
        Some(slot)
    }

    /// Bind `key` to `value` under timestamp `now`. A key already bound is
    /// first deleted in place: its record is overwritten with a gap and its
    /// extent returns to the allocator. The fresh record is then appended.
    /// Fails exactly when no segment, fresh or not, could ever hold the new
    /// record, and then nothing changes.
    pub fn set(&mut self, key: Vec<u8>, value: Vec<u8>, now: u64) -> (r: Result<(), Error>)
        requires
            old(self).wf(),
            1 <= key@.len() <= 0xffff,
            1 <= value@.len() <= 0xffffffff,
            old(self).spec_pool().spec_lastfileid() < u64::MAX,
        ensures
            final(self).wf(),
            r is Ok ==> final(self).spec_pool().spec_lastfileid() == old(
                self,
            ).spec_pool().spec_lastfileid() || final(self).spec_pool().spec_lastfileid() == (if now
                > old(self).spec_pool().spec_lastfileid() {
                now
            } else {
                (old(self).spec_pool().spec_lastfileid() + 1) as u64
            }),
            r is Ok <==> entry_alloc(key@.len() as int, value@.len() as u32) <= MAX_FILESIZE,
            match r {
                Ok(()) => exists|sl: Slot| {
                    &&& sl.time == now
                    &&& final(self).key_map() == #[trigger] old(self).key_map().insert(
                        key@,
                        (sl, value@.len() as u32),
                    )
                    &&& sl.offset + entry_alloc(key@.len() as int, value@.len() as u32)
                        <= MAX_FILESIZE
                    &&& final(self).spec_pool().spec_has(sl.fileid)
                    &&& (!old(self).key_map().contains_key(key@) ==> staged_one(
                        old(self).spec_writer(),
                        final(self).spec_writer(),
                        sl.fileid,
                        sl.offset,
                        Staged::Rec(Record { key: key, value: value, time: now }),
                    ) && final(self).sync_set() == old(self).sync_set().insert(sl.fileid)
                        && pool_appended(
                        old(self).spec_pool(),
                        final(self).spec_pool(),
                        (entry_alloc(key@.len() as int, value@.len() as u32)) as u32,
                        sl,
                        now,
                    ))
                    &&& (old(self).key_map().contains_key(key@) ==> exists|pmid: FilePool|
                        #[trigger] pool_released(
                            old(self).spec_pool(),
                            pmid,
                            (entry_alloc(
                                key@.len() as int,
                                old(self).key_map()[key@].1,
                            )) as u32,
                            old(self).key_map()[key@].0,
                        ) && pool_appended(
                            pmid,
                            final(self).spec_pool(),
                            (entry_alloc(key@.len() as int, value@.len() as u32)) as u32,
                            sl,
                            now,
                        ))
                    &&& (old(self).key_map().contains_key(key@) ==> exists|wmid: RecordWriter|
                        #[trigger] staged_one(
                            old(self).spec_writer(),
                            wmid,
                            old(self).key_map()[key@].0.fileid,
                            old(self).key_map()[key@].0.offset,
                            Staged::Gap(
                                entry_alloc(
                                    key@.len() as int,
                                    old(self).key_map()[key@].1,
                                ) as usize,
                            ),
                        ) && staged_one(
                            wmid,
                            final(self).spec_writer(),
                            sl.fileid,
                            sl.offset,
                            Staged::Rec(Record { key: key, value: value, time: now }),
                        ) && final(self).sync_set() == old(self).sync_set().insert(
                            old(self).key_map()[key@].0.fileid,
                        ).insert(sl.fileid))
                },
                Err(e) => e == Error::AllocateFail && *final(self) == *old(self),
            },
    {
        let size64: u64 = 14 + key.len() as u64 + value.len() as u64;
        let alloc64: u64 = ((size64 + 15) / 16) * 16;
        proof {
            lemma_roundup_bounds(size64 as int, ALIGN as int);
            assert(alloc64 == entry_alloc(key@.len() as int, value@.len() as u32));
        }
        if alloc64 > MAX_FILESIZE as u64 {
            return Err(Error::AllocateFail);
        }
        let unlinked = self.unlink_key(&key);
        let ghost mid = *self;
        let ghost wmid = self.writer;
        let ares = self.append(key, value, now, now);
        proof {
            assert(ares is Ok);
            let vlen = value@.len() as u32;
            let sl = choose|sl: Slot|
                sl.time == now && self.key_map() == #[trigger] mid.key_map().insert(
                    key@,
                    (sl, vlen),
                ) && sl.offset + entry_alloc(key@.len() as int, vlen) <= MAX_FILESIZE
                    && self.spec_pool().spec_has(sl.fileid) && pool_appended(
                    mid.spec_pool(),
                    self.spec_pool(),
                    (entry_alloc(key@.len() as int, vlen)) as u32,
                    sl,
                    now,
                ) && staged_one(
                    mid.spec_writer(),
                    self.spec_writer(),
                    sl.fileid,
                    sl.offset,
                    Staged::Rec(Record { key: key, value: value, time: now }),
                ) && self.sync_set() == mid.sync_set().insert(sl.fileid);
            if old(self).key_map().contains_key(key@) {
                let oldsl = old(self).key_map()[key@].0;
                let oldalloc = entry_alloc(key@.len() as int, old(self).key_map()[key@].1);
                assert(unlinked is Some);
                assert(mid.key_map() == old(self).key_map().remove(key@));
                assert(mid.key_map().insert(key@, (sl, vlen)) =~= old(self).key_map().insert(
                    key@,
                    (sl, vlen),
                ));
                assert(self.key_map() == old(self).key_map().insert(key@, (sl, vlen)));
                assert(staged_one(
                    old(self).spec_writer(),
                    wmid,
                    oldsl.fileid,
                    oldsl.offset,
                    Staged::Gap(oldalloc as usize),
                ));
                assert(staged_one(
                    wmid,
                    self.spec_writer(),
                    sl.fileid,
                    sl.offset,
                    Staged::Rec(Record { key: key, value: value, time: now }),
                ));
                assert(self.sync_set() == old(self).sync_set().insert(oldsl.fileid).insert(
                    sl.fileid,
                ));
                assert(pool_released(old(self).spec_pool(), mid.spec_pool(), oldalloc as u32, oldsl)
                    && pool_appended(
                    mid.spec_pool(),
                    self.spec_pool(),
                    (entry_alloc(key@.len() as int, vlen)) as u32,
                    sl,
                    now,
                ));
            } else {
                assert(unlinked is None);
                assert(mid.key_map() == old(self).key_map());
                assert(mid.sync_set() == old(self).sync_set());
                assert(mid.spec_writer() == old(self).spec_writer());
            }
        }
        Ok(())
    }

    /// Delete `key`. The host hands in the segment's bytes from the key's
    /// location on; the record there is read back and returned, overwritten
    /// on disk with a gap image staged for the host, its extent returned to
    /// the allocator, its mapping entry dropped, its segment marked dirty.
    /// `Ok(None)` when the key is absent; bytes that do not hold the key's
    /// record leave everything unchanged and are refused.
    pub fn remove(&mut self, key: &Vec<u8>, filedata: &Vec<u8>) -> (r: Result<
        Option<Record>,
        Error,
    >)
        requires
            old(self).wf(),
        ensures
            final(self).wf(),
            !old(self).key_map().contains_key(key@) ==> r == Ok::<Option<Record>, Error>(None::<
                Record,
            >) && *final(self) == *old(self),
            old(self).key_map().contains_key(key@) ==> (match parse_record(filedata@) {
                ParsedRecord::TooShort => r == Err::<Option<Record>, Error>(Error::ShortRead)
                    && *final(self) == *old(self),
                ParsedRecord::Gap => r == Err::<Option<Record>, Error>(Error::InvalidKey)
                    && *final(self) == *old(self),
                ParsedRecord::Rec { key: dk, value: dv, time: dt } => {
                    if dk == key@ && dv.len() == old(self).key_map()[key@].1 {
                        &&& (r matches Ok(o) && o matches Some(rec) && rec.key@ == dk && rec.value@
                            == dv && rec.time == dt)
                        &&& final(self).key_map() == old(self).key_map().remove(key@)
                        &&& pool_released(
                            old(self).spec_pool(),
                            final(self).spec_pool(),
                            (entry_alloc(
                                key@.len() as int,
                                old(self).key_map()[key@].1,
                            )) as u32,
                            old(self).key_map()[key@].0,
                        )
                        &&& staged_one(
                            old(self).spec_writer(),
                            final(self).spec_writer(),
                            old(self).key_map()[key@].0.fileid,
                            old(self).key_map()[key@].0.offset,
                            Staged::Gap(
                                entry_alloc(
                                    key@.len() as int,
                                    old(self).key_map()[key@].1,
                                ) as usize,
                            ),
                        )
                        &&& final(self).sync_set() == old(self).sync_set().insert(
                            old(self).key_map()[key@].0.fileid,
                        )
                    } else {
                        r == Err::<Option<Record>, Error>(Error::InvalidKey) && *final(self)
                            == *old(self)
                    }
                },
            }),
    {
        let got = match self.get_record(key, filedata) {
            Err(e) => {
                return Err(e);
            },
            Ok(None) => {
                return Ok(None);
            },
            Ok(Some(rec)) => rec,
        };
        match self.unlink_key(key) {
            Some(_) => Ok(Some(got)),
            None => {
                proof {
                    assert(false);
                }
                Err(Error::InvalidKey)
            },
        }
    }

    /// The engine's invariant does not depend on the sync set, and depends
    /// on the write-behind buffer only through its own well-formedness.
    proof fn lemma_wf_frame(a: Log, b: Log)
        requires
            a.wf(),
            b.indexmap == a.indexmap,
            b.filepool == a.filepool,
            b.spec_writer().wf(),
            b.spec_writer().all_valid(),
        ensures
            b.wf(),
    {
        assert(b.spec_pool() == a.spec_pool());
        assert(b.ent_count() == a.ent_count());
        assert(forall|i: int|
            0 <= i < a.ent_count() ==> #[trigger] b.key_at(i) == a.key_at(i) && #[trigger] b.slot_at(
                i,
            ) == a.slot_at(i) && b.vsize_at(i) == a.vsize_at(i));
        assert forall|i: int| 0 <= i < b.ent_count() implies b.entry_ok(i) by {
            assert(a.entry_ok(i));
        }
        assert forall|i: int, j: int| 0 <= i < j < b.ent_count() implies #[trigger] b.key_at(i)
            != #[trigger] b.key_at(j) by {
            assert(a.key_at(i) != a.key_at(j));
        }
        assert forall|i: int, p: int, kk: int|
            0 <= i < b.ent_count() && 0 <= p < b.spec_pool().seg_count() && b.spec_pool().fileid_at(
                p,
            ) == (#[trigger] b.slot_at(i)).fileid && 0 <= kk < b.spec_pool().freelist_at(
                p,
            )@.len() implies ((#[trigger] b.spec_pool().freelist_at(p)@[kk]).end() <= b.slot_at(
            i,
        ).offset || b.slot_at(i).offset + b.ent_alloc(i) <= b.spec_pool().freelist_at(
            p,
        )@[kk].off) by {
            assert(a.slot_at(i) == b.slot_at(i));
            assert((a.spec_pool().freelist_at(p)@[kk]).end() <= a.slot_at(i).offset || a.slot_at(
                i,
            ).offset + a.ent_alloc(i) <= a.spec_pool().freelist_at(p)@[kk].off);
        }
        assert forall|i: int, j: int|
            0 <= i < b.ent_count() && 0 <= j < b.ent_count() && i != j && (#[trigger] b.slot_at(
                i,
            )).fileid == (#[trigger] b.slot_at(j)).fileid implies (b.slot_at(i).offset
            + b.ent_alloc(i) <= b.slot_at(j).offset || b.slot_at(j).offset + b.ent_alloc(j)
            <= b.slot_at(i).offset) by {
            assert(a.slot_at(i) == b.slot_at(i) && a.slot_at(j) == b.slot_at(j));
        }
    }

    /// A key set and then read back observes the value that was set: when
    /// the bytes the host fetched at the key's location start with the disk
    /// image of the record last set under the key (as the write-behind
    /// buffer staged it), they parse to exactly that record, so `get_record`
    /// and `get_value` return its value and no other.
    pub proof fn lemma_get_observes_latest(l: Log, key: Vec<u8>, rec: Record, filedata: Vec<u8>)
        requires
            l.key_map().contains_key(key@),
            l.key_map()[key@].1 == rec.value@.len(),
            rec.key@ == key@,
            rec.valid(),
            filedata@.len() >= rec.encoding().len(),
            filedata@.subrange(0, rec.encoding().len() as int) == rec.encoding(),
        ensures
            parse_record(filedata@) == (ParsedRecord::Rec {
                key: key@,
                value: rec.value@,
                time: rec.time,
            }),
    {
        crate::data::lemma_record_round_trip(rec);
        crate::data::lemma_parse_record_prefix(rec.encoding(), filedata@);
    }

    /// Hand the host the segments awaiting a sync and clear the set; the
    /// host forces each named file to disk. A sync that returns makes every
    /// record whose write completed before it durable.
    pub fn sync_all(&mut self) -> (r: Vec<u64>)
        requires
            old(self).wf(),
        ensures
            final(self).wf(),
            r@.to_set() == old(self).sync_set(),
            final(self).sync_set() == Set::<u64>::empty(),
            final(self).key_map() == old(self).key_map(),
            final(self).spec_pool() == old(self).spec_pool(),
            final(self).spec_writer() == old(self).spec_writer(),
    {
        let mut out: Vec<u64> = Vec::new();
        core::mem::swap(&mut out, &mut self.syncpool);
        proof {
            assert(self.syncpool@.to_set() =~= Set::<u64>::empty());
            Log::lemma_wf_frame(*old(self), *self);
        }
        out
    }

    /// Put a segment back into the set awaiting sync: the host calls this
    /// for every identifier whose fsync failed, so that nothing drops out of
    /// the durability protocol and the next sync retries it.
    pub fn mark_unsynced(&mut self, fileid: u64)
        requires
            old(self).wf(),
        ensures
            final(self).wf(),
            final(self).sync_set() == old(self).sync_set().insert(fileid),
            final(self).key_map() == old(self).key_map(),
            final(self).spec_pool() == old(self).spec_pool(),
            final(self).spec_writer() == old(self).spec_writer(),
    {
        self.mark_dirty(fileid);
        proof {
            Log::lemma_wf_frame(*old(self), *self);
        }
    }

    /// Hand every staged batch to the host for writing and leave the buffer
    /// empty: for each batch the host writes each image at its offset in
    /// that segment's file, in batch order, forcing the file afterwards when
    /// the caller asked for a sync.
    pub fn take_batches(&mut self) -> (r: Vec<(u64, Vec<(u32, Staged)>)>)
        requires
            old(self).wf(),
        ensures
            final(self).wf(),
            r == old(self).spec_writer().view_batches(),
            final(self).spec_writer().batch_count() == 0,
            final(self).key_map() == old(self).key_map(),
            final(self).spec_pool() == old(self).spec_pool(),
            final(self).sync_set() == old(self).sync_set(),
    {
        let r = self.writer.take_batches();
        proof {
            Log::lemma_wf_frame(*old(self), *self);
        }
        r
    }

    /// Hand a batch back to the write-behind buffer: the host calls this
    /// with every batch (or remainder of one) that an I/O error kept it from
    /// writing, so the writes stay staged and a later flush retries them.
    /// Every handed-back write is staged again for its segment.
    pub fn restage(&mut self, fileid: u64, batch: Vec<(u32, Staged)>) -> (r: Result<(), Error>)
        requires
            old(self).wf(),
            forall|i: int| 0 <= i < batch@.len() ==> (#[trigger] batch@[i]).1.valid(),
        ensures
            r is Ok,
            final(self).wf(),
            final(self).key_map() == old(self).key_map(),
            final(self).spec_pool() == old(self).spec_pool(),
            final(self).sync_set() == old(self).sync_set(),
            forall|i: int|
                0 <= i < batch@.len() ==> #[trigger] staged_for(
                    final(self).spec_writer(),
                    fileid,
                    batch@[i],
                ),
    {
        let mut rest = batch;
        let ghost orig = rest@;
        let ghost mut i: int = 0;
        while rest.len() > 0
            invariant
                self.wf(),
                self.key_map() == old(self).key_map(),
                self.spec_pool() == old(self).spec_pool(),
                self.sync_set() == old(self).sync_set(),
                self.indexmap == old(self).indexmap,
                self.filepool == old(self).filepool,
                orig == batch@,
                0 <= i,
                orig.len() == rest@.len() + i,
                forall|j: int| 0 <= j < rest@.len() ==> #[trigger] rest@[j] == orig[i + j],
                forall|j: int| 0 <= j < orig.len() ==> (#[trigger] orig[j]).1.valid(),
                forall|j: int|
                    0 <= j < i ==> #[trigger] staged_for(self.spec_writer(), fileid, batch@[j]),
            decreases rest@.len(),
        {
            let item = rest.remove(0);
            proof {
                assert(item == orig[i]);
                assert(item.1.valid());
            }
            let ghost pre = *self;
            let _ = self.writer.stage(fileid, item.0, item.1);
            proof {
                let w = self.spec_writer();
                let bi = choose|bi: int|
                    0 <= bi < w.batch_count() && #[trigger] w.fileid_at(bi) == fileid
                        && w.staged_at(bi) == (if bi < pre.spec_writer().batch_count() {
                        pre.spec_writer().staged_at(bi)
                    } else {
                        Seq::<(u32, Staged)>::empty()
                    }).push((item.0, item.1));
                assert(w.staged_at(bi).last() == (item.0, item.1));
                assert(w.staged_at(bi)[w.staged_at(bi).len() - 1] == orig[i]);
                assert(batch@[i] == orig[i]);
                assert forall|j: int| 0 <= j < i + 1 implies #[trigger] staged_for(
                    w,
                    fileid,
                    batch@[j],
                ) by {
                    if j < i {
                        assert(staged_for(pre.spec_writer(), fileid, batch@[j]));
                        let (b2, pos) = choose|b2: int, pos: int|
                            0 <= b2 < pre.spec_writer().batch_count() && pre.spec_writer().fileid_at(
                                b2,
                            ) == fileid && 0 <= pos < pre.spec_writer().staged_at(b2).len()
                                && #[trigger] pre.spec_writer().staged_at(b2)[pos] == batch@[j];
                        lemma_staged_item_persists(
                            pre.spec_writer(),
                            w,
                            fileid,
                            item.0,
                            item.1,
                            b2,
                            pos,
                        );
                        assert(w.staged_at(b2)[pos] == batch@[j]);
                    } else {
                        assert(w.staged_at(bi)[w.staged_at(bi).len() - 1] == batch@[j]);
                    }
                }
                i = i + 1;
                Log::lemma_wf_frame(pre, *self);
            }
        }
        proof {
            assert(i == batch@.len());
        }
        Ok(())
    }

    /// The index rows describing the staged record writes, one image per
    /// staged segment: what the host appends to each segment's sidecar index
    /// file, flushed and forced before the data writes.
    pub fn index_images(&self) -> (r: Vec<(u64, Vec<u8>)>)
        requires
            self.wf(),
        ensures
            r@.len() == self.spec_writer().batch_count(),
            forall|i: int|
                0 <= i < r@.len() ==> (#[trigger] r@[i]).0 == self.spec_writer().fileid_at(i)
                    && r@[i].1@ == crate::data::index_rows(self.spec_writer().staged_at(i)),
    {
        self.writer.index_images()
    }


    /// The identifier of the active segment: the one receiving appends, and
    /// the greatest ever minted.
    pub fn active_fileid(&self) -> (r: u64)
        ensures
            r == self.spec_pool().spec_lastfileid(),
    {
        self.filepool.get_lastfileid()
    }

    /// The high-water mark of a segment: how many of its bytes the host
    /// must read back to see every record, live or dead.
    pub fn used_size_of(&self, fileid: u64) -> (r: Result<u32, Error>)
        requires
            self.wf(),
        ensures
            match r {
                Ok(u) => exists|i: int|
                    0 <= i < self.spec_pool().seg_count() && #[trigger] self.spec_pool().fileid_at(
                        i,
                    ) == fileid && u == self.spec_pool().freelist_at(i).spec_used_size(),
                Err(e) => e == Error::InvalidFileId && !self.spec_pool().spec_has(fileid),
            },
    {
        self.filepool.used_size_of(fileid)
    }

    /// The segments worth compacting under the threshold `num / den`, as the
    /// registry sees them.
    pub fn compress_candidates(&self, num: u32, den: u32) -> (r: Vec<u64>)
        requires
            self.wf(),
            den >= 1,
        ensures
            r@ == crate::filepool::spec_candidates(
                self.spec_pool().entries_view(),
                self.spec_pool().spec_lastfileid(),
                num,
                den,
            ),
    {
        self.filepool.compress_filelist(num, den)
    }

    /// Whether a scanned record is the live record of the mapping entry at
    /// `e`: same key, same offset, same value size.
    pub open spec fn matches_entry(&self, e: int, off: u32, rec: Record) -> bool {
        &&& rec.key@ == self.key_at(e)
        &&& off == self.slot_at(e).offset
        &&& rec.value@.len() == self.vsize_at(e)
    }

    /// The same, over a record of the scan model.
    pub open spec fn entry_matches_scan(&self, e: int, sr: crate::data::SegRec) -> bool {
        &&& sr.key == self.key_at(e)
        &&& sr.off == self.slot_at(e).offset as int
        &&& sr.value.len() == self.vsize_at(e)
    }

    /// Compact one retired segment. The host has unlinked the segment's
    /// sidecar index file and read its bytes up to `endoff` (the high-water
    /// mark); the live records the mapping still points at are relocated
    /// into the active segment (or a newborn one) through the write-behind
    /// buffer, the mapping follows them, and the segment leaves the
    /// registry. The host then flushes the staged writes, index rows first,
    /// and unlinks the data file. Every key observes the same record
    /// afterwards: relocation changes only where records live.
    #[verifier::rlimit(80)]
    pub fn compress_segment(
        &mut self,
        fileid: u64,
        filedata: &Vec<u8>,
        endoff: u32,
        now: u64,
    ) -> (r: Result<usize, Error>)
        requires
            old(self).wf(),
            endoff <= filedata@.len(),
            filedata@.len() + ALIGN <= usize::MAX,
        ensures
            final(self).wf(),
            match r {
                Ok(cnt) => {
                    &&& fileid != old(self).spec_pool().spec_lastfileid()
                    &&& !final(self).spec_pool().spec_has(fileid)
                    &&& final(self).key_map().dom() == old(self).key_map().dom()
                    &&& forall|k: Seq<u8>|
                        old(self).key_map().contains_key(k) && (#[trigger] old(self).key_map()[k]).0.fileid
                            != fileid ==> final(self).key_map()[k] == old(self).key_map()[k]
                    &&& match scan_segment(filedata@, 0, endoff as int) {
                        Some(srecs) => forall|k: Seq<u8>|
                            old(self).key_map().contains_key(k) && (#[trigger] old(
                                self,
                            ).key_map()[k]).0.fileid == fileid ==> relocated_at(
                                *final(self),
                                old(self).key_map(),
                                srecs,
                                fileid,
                                k,
                            ),
                        None => false,
                    }
                },
                Err(e) => {
                    &&& (e == Error::ShortRead ==> scan_segment(filedata@, 0, endoff as int)
                        is None && *final(self) == *old(self))
                    &&& (e == Error::InvalidFileId ==> *final(self) == *old(self) && (fileid
                        == old(self).spec_pool().spec_lastfileid() || !old(
                        self,
                    ).spec_pool().spec_has(fileid)))
                    &&& (e == Error::InvalidKey ==> *final(self) == *old(self) && (match
                        scan_segment(filedata@, 0, endoff as int) {
                        Some(srecs) => exists|ee: int|
                            0 <= ee < old(self).ent_count() && (#[trigger] old(self).slot_at(
                                ee,
                            )).fileid == fileid && (forall|tt: int|
                                0 <= tt < srecs.len() ==> !old(self).entry_matches_scan(
                                    ee,
                                    #[trigger] srecs[tt],
                                )),
                        None => false,
                    }))
                    &&& (e == Error::AllocateFail ==> final(self).key_map().dom() == old(
                        self,
                    ).key_map().dom())
                    &&& (e == Error::ShortRead || e == Error::InvalidFileId || e
                        == Error::InvalidKey || e == Error::AllocateFail)
                },
            },
            ({
                &&& old(self).spec_pool().spec_has(fileid)
                &&& fileid != old(self).spec_pool().spec_lastfileid()
                &&& match scan_segment(filedata@, 0, endoff as int) {
                    Some(srecs) => {
                        &&& (forall|ee: int|
                            0 <= ee < old(self).ent_count() && (#[trigger] old(self).slot_at(
                                ee,
                            )).fileid == fileid ==> (exists|tt: int|
                                0 <= tt < srecs.len() && old(self).entry_matches_scan(
                                    ee,
                                    #[trigger] srecs[tt],
                                )))
                        &&& now < u64::MAX - srecs.len()
                        &&& old(self).spec_pool().spec_lastfileid() < u64::MAX - srecs.len()
                    },
                    None => false,
                }
            }) ==> r is Ok,
    {
        if fileid == self.filepool.get_lastfileid() {
            return Err(Error::InvalidFileId);
        }
        if let Err(_) = self.filepool.used_size_of(fileid) {
            return Err(Error::InvalidFileId);
        }
        // scan the segment's bytes, keeping each live record with its offset
        let end = endoff as usize;
        let mut recs: Vec<(u32, Record)> = Vec::new();
        let mut off: usize = 0;
        let ghost mut goff: int = 0;
        let ghost mut done: Seq<crate::data::SegRec> = Seq::empty();
        while off < end
            invariant
                *self == *old(self),
                end == endoff,
                end <= filedata@.len(),
                filedata@.len() + ALIGN <= usize::MAX,
                old(self).wf(),
                0 <= goff <= filedata@.len() + ALIGN,
                off == (if goff >= end {
                    end as int
                } else {
                    goff
                }),
                scan_segment(filedata@, 0, end as int) == crate::data::scan_with_prefix(
                    done,
                    scan_segment(filedata@, goff, end as int),
                ),
                recs@.len() == done.len(),
                forall|i: int|
                    0 <= i < done.len() ==> ((#[trigger] recs@[i]).1.key@ == done[i].key
                        && recs@[i].1.value@ == done[i].value && recs@[i].1.time == done[i].time
                        && recs@[i].0 == done[i].off && 0 <= done[i].off <= u32::MAX),
            decreases end - off,
        {
            proof {
                assert(goff == off);
                assert(goff < end <= u32::MAX);
            }
            let parsed = match Record::read_from(filedata, off) {
                Ok(p) => p,
                Err(_) => {
                    proof {
                        assert(parse_record(filedata@.skip(goff)) is TooShort);
                        assert(scan_segment(filedata@, goff, end as int) is None);
                    }
                    return Err(Error::ShortRead);
                },
            };
            match parsed {
                None => {
                    proof {
                        goff = goff + ALIGN as int;
                    }
                    off = off + ALIGN;
                    if off > end {
                        off = end;
                    }
                },
                Some(rec) => {
                    let ghost prev_off = goff;
                    let ghost x = crate::data::SegRec {
                        key: rec.key@,
                        value: rec.value@,
                        time: rec.time,
                        off: prev_off,
                    };
                    proof {
                        assert(rec.spec_size() <= 14 + filedata@.len());
                    }
                    let alloc = roundup(rec.size(), ALIGN);
                    proof {
                        lemma_roundup_bounds(rec.spec_size(), ALIGN as int);
                        assert(parse_record(filedata@.skip(goff)) == (ParsedRecord::Rec {
                            key: rec.key@,
                            value: rec.value@,
                            time: rec.time,
                        }));
                        assert(filedata@.skip(goff).len() >= 14 + rec.key@.len()
                            + rec.value@.len());
                        let rest = scan_segment(filedata@, prev_off + alloc, end as int);
                        match rest {
                            None => {},
                            Some(rs) => {
                                assert((done + (seq![x] + rs)) =~= (done.push(x) + rs));
                            },
                        }
                        done = done.push(x);
                        goff = goff + alloc as int;
                    }
                    recs.push((off as u32, rec));
                    proof {
                        assert(recs@.len() == done.len());
                        assert(recs@[done.len() - 1].0 == prev_off as u32);
                        assert(recs@[done.len() - 1].1.key@ == x.key);
                        assert(recs@[done.len() - 1].1.value@ == x.value);
                        assert(recs@[done.len() - 1].1.time == x.time);
                        assert(done[done.len() - 1] == x);
                        assert(0 <= x.off <= u32::MAX);
                        assert forall|i: int|
                            0 <= i < done.len() implies ((#[trigger] recs@[i]).1.key@
                            == done[i].key && recs@[i].1.value@ == done[i].value && recs@[i].1.time
                            == done[i].time && recs@[i].0 == done[i].off && 0 <= done[i].off
                            <= u32::MAX) by {
                            if i < done.len() - 1 {
                            }
                        }
                    }
                    if off + alloc > end {
                        off = end;
                    } else {
                        off = off + alloc;
                    }
                },
            }
        }
        proof {
            assert(goff >= end);
            assert(scan_segment(filedata@, goff, end as int) == Some(Seq::<
                crate::data::SegRec,
            >::empty()));
            assert(done + Seq::<crate::data::SegRec>::empty() =~= done);
            assert(scan_segment(filedata@, 0, end as int) == Some(done));
        }
        // every entry that points into the segment must have its record in
        // the scan; otherwise the mapping and the disk disagree
        let m = recs.len();
        let n = self.indexmap.len();
        let mut e: usize = 0;
        while e < n
            invariant
                *self == *old(self),
                old(self).wf(),
                end == endoff,
                scan_segment(filedata@, 0, end as int) == Some(done),
                n == self.ent_count(),
                m == recs@.len(),
                0 <= e <= n,
                forall|i: int|
                    0 <= i < done.len() ==> ((#[trigger] recs@[i]).1.key@ == done[i].key
                        && recs@[i].1.value@ == done[i].value && recs@[i].1.time == done[i].time
                        && recs@[i].0 == done[i].off),
                recs@.len() == done.len(),
                forall|ee: int|
                    0 <= ee < e && (#[trigger] self.slot_at(ee)).fileid == fileid ==> exists|t: int|
                        0 <= t < recs@.len() && self.matches_entry(ee, (#[trigger] recs@[t]).0, recs@[t].1),
            decreases n - e,
        {
            if self.indexmap[e].1.fileid == fileid {
                let mut t: usize = 0;
                let mut foundit = false;
                while t < m && !foundit
                    invariant
                        *self == *old(self),
                        old(self).wf(),
                        end == endoff,
                        scan_segment(filedata@, 0, end as int) == Some(done),
                        recs@.len() == done.len(),
                        forall|i: int|
                            0 <= i < done.len() ==> ((#[trigger] recs@[i]).1.key@ == done[i].key
                                && recs@[i].1.value@ == done[i].value && recs@[i].1.time
                                == done[i].time && recs@[i].0 == done[i].off),
                        e < n == self.ent_count(),
                        m == recs@.len(),
                        0 <= t <= m,
                        foundit ==> exists|tt: int|
                            0 <= tt < recs@.len() && self.matches_entry(
                                e as int,
                                (#[trigger] recs@[tt]).0,
                                recs@[tt].1,
                            ),
                        !foundit ==> forall|tt: int|
                            0 <= tt < t ==> !self.matches_entry(
                                e as int,
                                (#[trigger] recs@[tt]).0,
                                recs@[tt].1,
                            ),
                    decreases m - t + (if foundit {
                        0int
                    } else {
                        1int
                    }),
                {
                    if recs[t].0 == self.indexmap[e].1.offset && recs[t].1.value.len() as u64
                        == self.indexmap[e].2 as u64 && Log::keys_equal(
                        &recs[t].1.key,
                        &self.indexmap[e].0,
                    ) {
                        foundit = true;
                        proof {
                            assert(self.matches_entry(e as int, recs@[t as int].0, recs@[t as int].1));
                        }
                    } else {
                        t = t + 1;
                    }
                }
                if !foundit {
                    proof {
                        assert(scan_segment(filedata@, 0, end as int) == Some(done));
                        assert forall|tt: int|
                            0 <= tt < done.len() implies !self.entry_matches_scan(
                            e as int,
                            #[trigger] done[tt],
                        ) by {
                            assert(!self.matches_entry(e as int, recs@[tt].0, recs@[tt].1));
                            assert(recs@[tt].1.key@ == done[tt].key && recs@[tt].1.value@
                                == done[tt].value && recs@[tt].0 == done[tt].off);
                        }
                        assert(self.slot_at(e as int).fileid == fileid);
                    }
                    return Err(Error::InvalidKey);
                }
            }
            e = e + 1;
        }
        let ghost oldl = *old(self);
        let ghost oldm = oldl.key_map();
        proof {
            self.lemma_keys_unique();
            assert(fileid < self.spec_pool().spec_lastfileid()) by {
                let w = choose|w: int|
                    0 <= w < oldl.spec_pool().seg_count() && #[trigger] oldl.spec_pool().fileid_at(
                        w,
                    ) == fileid;
                assert(oldl.spec_pool().fileid_at(w) <= oldl.spec_pool().spec_lastfileid());
            }
            // the coverage of entries, restated over keys
            assert forall|k: Seq<u8>|
                oldm.contains_key(k) && (#[trigger] oldm[k]).0.fileid == fileid implies pending_at(
                *self,
                oldm,
                done,
                0,
                k,
            ) by {
                lemma_assoc_contains(oldl.indexmap@, k);
                let ee = choose|ee: int|
                    0 <= ee < oldl.indexmap@.len() && (#[trigger] oldl.indexmap@[ee]).0@ == k;
                lemma_assoc_lookup(oldl.indexmap@, ee);
                assert(self.slot_at(ee).fileid == fileid);
                let tt = choose|tt: int|
                    0 <= tt < recs@.len() && self.matches_entry(ee, (#[trigger] recs@[tt]).0, recs@[tt].1);
                assert(done[tt].key == k && done[tt].off == oldm[k].0.offset
                    && done[tt].value.len() == oldm[k].1);
            }
        }
        let ghost bnd: int = if now > oldl.spec_pool().spec_lastfileid() {
            now as int
        } else {
            oldl.spec_pool().spec_lastfileid() as int
        };
        let mut count: usize = 0;
        let mut t: usize = 0;
        while t < m
            invariant
                old(self).wf(),
                self.wf(),
                oldl == *old(self),
                oldm == oldl.key_map(),
                end == endoff,
                scan_segment(filedata@, 0, end as int) == Some(done),
                m == recs@.len(),
                recs@.len() == done.len(),
                0 <= t <= m,
                forall|i: int|
                    0 <= i < done.len() ==> ((#[trigger] recs@[i]).1.key@ == done[i].key
                        && recs@[i].1.value@ == done[i].value && recs@[i].1.time == done[i].time
                        && recs@[i].0 == done[i].off && 0 <= done[i].off <= u32::MAX),
                fileid < self.spec_pool().spec_lastfileid(),
                self.spec_pool().spec_has(fileid),
                self.spec_pool().spec_lastfileid() >= oldl.spec_pool().spec_lastfileid(),
                bnd == (if now > oldl.spec_pool().spec_lastfileid() {
                    now as int
                } else {
                    oldl.spec_pool().spec_lastfileid() as int
                }),
                self.spec_pool().spec_lastfileid() <= bnd + t,
                self.key_map().dom() == oldm.dom(),
                count <= t,
                forall|k: Seq<u8>|
                    oldm.contains_key(k) && (#[trigger] oldm[k]).0.fileid != fileid
                        ==> self.key_map()[k] == oldm[k],
                forall|k: Seq<u8>|
                    oldm.contains_key(k) && (#[trigger] oldm[k]).0.fileid == fileid ==> (pending_at(
                        *self,
                        oldm,
                        done,
                        t as int,
                        k,
                    ) || relocated_at(*self, oldm, done, fileid, k)),
            decreases m - t,
        {
            if self.filepool.get_lastfileid() == u64::MAX {
                proof {
                    assert(scan_segment(filedata@, 0, endoff as int) == Some(done));
                    assert(self.spec_pool().spec_lastfileid() <= bnd + m);
                }
                return Err(Error::AllocateFail);
            }
            proof {
                self.lemma_keys_unique();
                lemma_assoc_contains(self.indexmap@, recs@[t as int].1.key@);
            }
            let found = self.find_entry(&recs[t].1.key);
            let mut do_reloc = false;
            let mut kk: usize = 0;
            match found {
                Some(e2) => {
                    if self.indexmap[e2].1.fileid == fileid && self.indexmap[e2].1.offset
                        == recs[t].0 && (self.indexmap[e2].2 as u64) == (
                    recs[t].1.value.len() as u64) {
                        do_reloc = true;
                        kk = e2;
                    }
                },
                None => {},
            }
            let ghost k0 = recs@[t as int].1.key@;
            proof {
                // an entry still pointing into the segment can only be the
                // one this scanned record describes
                if !do_reloc {
                    assert forall|k: Seq<u8>|
                        oldm.contains_key(k) && (#[trigger] oldm[k]).0.fileid == fileid implies (
                    pending_at(*self, oldm, done, t as int + 1, k) || relocated_at(
                        *self,
                        oldm,
                        done,
                        fileid,
                        k,
                    )) by {
                        if pending_at(*self, oldm, done, t as int, k) && !relocated_at(
                            *self,
                            oldm,
                            done,
                            fileid,
                            k,
                        ) {
                            let i = choose|i: int|
                                t <= i < done.len() && (#[trigger] done[i]).key == k && done[i].off
                                    == oldm[k].0.offset && done[i].value.len() == oldm[k].1;
                            if i == t as int {
                                assert(k == k0);
                                lemma_assoc_contains(self.indexmap@, k);
                                assert(self.key_map().dom().contains(k));
                                let ee = choose|ee: int|
                                    0 <= ee < self.indexmap@.len() && (
                                    #[trigger] self.indexmap@[ee]).0@ == k;
                                assert(self.key_at(ee) == k);
                                assert(found is Some);
                                let e2 = found->Some_0 as int;
                                assert(self.key_at(e2) == k0);
                                if ee != e2 {
                                    assert(self.key_at(ee) != self.key_at(e2));
                                }
                                lemma_assoc_lookup(self.indexmap@, e2);
                                assert(self.key_map()[k] == oldm[k]);
                                assert(self.slot_at(e2) == oldm[k].0);
                                assert(self.vsize_at(e2) == oldm[k].1);
                                assert(false);
                            }
                        }
                    }
                }
            }
            if do_reloc {
                proof {
                    lemma_assoc_lookup(self.indexmap@, kk as int);
                    assert(self.entry_ok(kk as int));
                    assert(self.key_at(kk as int) == k0);
                    assert(self.key_map()[k0] == (self.slot_at(kk as int), self.vsize_at(
                        kk as int,
                    )));
                    assert(oldm.contains_key(k0)) by {
                        assert(self.key_map().dom().contains(k0));
                    }
                    assert(oldm[k0].0.fileid == fileid) by {
                        if oldm[k0].0.fileid != fileid {
                            assert(self.key_map()[k0] == oldm[k0]);
                        }
                    }
                    assert(self.key_map()[k0] == oldm[k0]) by {
                        assert(pending_at(*self, oldm, done, t as int, k0) || relocated_at(
                            *self,
                            oldm,
                            done,
                            fileid,
                            k0,
                        ));
                    }
                }
                let keyc = Log::clone_bytes(&recs[t].1.key);
                let valc = Log::clone_bytes(&recs[t].1.value);
                let tm = recs[t].1.time;
                let ghost pre = *self;
                let ares = self.append(keyc, valc, tm, now);
                proof {
                    assert(entry_alloc(k0.len() as int, recs@[t as int].1.value@.len() as u32)
                        <= MAX_FILESIZE) by {
                        assert(pre.slot_at(kk as int).offset + pre.ent_alloc(kk as int)
                            <= MAX_FILESIZE);
                    }
                    assert(ares is Ok);
                    let vlen = recs@[t as int].1.value@.len() as u32;
                    let sl = choose|sl: Slot|
                        sl.time == tm && self.key_map() == #[trigger] pre.key_map().insert(
                            k0,
                            (sl, vlen),
                        ) && sl.offset + entry_alloc(k0.len() as int, vlen) <= MAX_FILESIZE
                            && self.spec_pool().spec_has(sl.fileid) && sl.fileid
                            == self.spec_pool().spec_lastfileid() && staged_one(
                            pre.spec_writer(),
                            self.spec_writer(),
                            sl.fileid,
                            sl.offset,
                            Staged::Rec(Record { key: keyc, value: valc, time: tm }),
                        );
                    assert(self.key_map().dom() =~= oldm.dom());
                    assert(sl.fileid != fileid);
                    assert forall|k: Seq<u8>|
                        oldm.contains_key(k) && (#[trigger] oldm[k]).0.fileid != fileid implies
                        self.key_map()[k] == oldm[k] by {
                        assert(k != k0);
                        assert(self.key_map()[k] == pre.key_map()[k]);
                    }
                    assert(relocated_at(*self, oldm, done, fileid, k0)) by {
                        assert(done[t as int].key == k0 && done[t as int].off == oldm[k0].0.offset
                            && self.key_map()[k0].1 == done[t as int].value.len()
                            && self.key_map()[k0].0.time == done[t as int].time);
                        let w = self.spec_writer();
                        let st = Staged::Rec(Record { key: keyc, value: valc, time: tm });
                        let bi = choose|bi: int|
                            0 <= bi < w.batch_count() && #[trigger] w.fileid_at(bi) == sl.fileid
                                && w.staged_at(bi) == (if bi < pre.spec_writer().batch_count() {
                                pre.spec_writer().staged_at(bi)
                            } else {
                                Seq::<(u32, Staged)>::empty()
                            }).push((sl.offset, st));
                        let pos = w.staged_at(bi).len() - 1;
                        assert(w.staged_at(bi)[pos] == (sl.offset, st));
                        assert(keyc@ == k0 && valc@ == done[t as int].value && tm == done[
                            t as int
                        ].time);
                        assert(w.staged_at(bi)[pos].0 == self.key_map()[k0].0.offset);
                    }
                    assert forall|k: Seq<u8>|
                        oldm.contains_key(k) && (#[trigger] oldm[k]).0.fileid == fileid implies (
                    pending_at(*self, oldm, done, t as int + 1, k) || relocated_at(
                        *self,
                        oldm,
                        done,
                        fileid,
                        k,
                    )) by {
                        if k == k0 {
                        } else {
                            assert(self.key_map()[k] == pre.key_map()[k]);
                            assert(pending_at(pre, oldm, done, t as int, k) || relocated_at(
                                pre,
                                oldm,
                                done,
                                fileid,
                                k,
                            ));
                            if pending_at(pre, oldm, done, t as int, k) && !relocated_at(
                                pre,
                                oldm,
                                done,
                                fileid,
                                k,
                            ) {
                                let i = choose|i: int|
                                    t <= i < done.len() && (#[trigger] done[i]).key == k
                                        && done[i].off == oldm[k].0.offset && done[i].value.len()
                                        == oldm[k].1;
                                assert(i != t as int);
                                assert(pending_at(*self, oldm, done, t as int + 1, k));
                            } else {
                                assert(relocated_at(pre, oldm, done, fileid, k));
                                let i = choose|i: int|
                                    0 <= i < done.len() && (#[trigger] done[i]).key == k
                                        && done[i].off == oldm[k].0.offset
                                        && pre.key_map()[k].1 == done[i].value.len()
                                        && pre.key_map()[k].0.time == done[i].time && (exists|
                                        bi: int,
                                        pos: int,
                                    |
                                        0 <= bi < pre.spec_writer().batch_count()
                                            && pre.spec_writer().fileid_at(bi)
                                            == pre.key_map()[k].0.fileid && 0 <= pos
                                            < pre.spec_writer().staged_at(bi).len() && #[trigger] pre.spec_writer().staged_at(
                                            bi,
                                        )[pos].0 == pre.key_map()[k].0.offset && (
                                        pre.spec_writer().staged_at(bi)[pos].1 matches
                                            Staged::Rec(rr) && rr.key@ == k && rr.value@
                                            == done[i].value && rr.time == done[i].time));
                                let (bi, pos) = choose|bi: int, pos: int|
                                    0 <= bi < pre.spec_writer().batch_count()
                                        && pre.spec_writer().fileid_at(bi)
                                        == pre.key_map()[k].0.fileid && 0 <= pos
                                        < pre.spec_writer().staged_at(bi).len() && #[trigger] pre.spec_writer().staged_at(
                                        bi,
                                    )[pos].0 == pre.key_map()[k].0.offset && (
                                    pre.spec_writer().staged_at(bi)[pos].1 matches Staged::Rec(
                                        rr,
                                    ) && rr.key@ == k && rr.value@ == done[i].value && rr.time
                                        == done[i].time);
                                lemma_staged_item_persists(
                                    pre.spec_writer(),
                                    self.spec_writer(),
                                    sl.fileid,
                                    sl.offset,
                                    Staged::Rec(Record { key: keyc, value: valc, time: tm }),
                                    bi,
                                    pos,
                                );
                                assert(relocated_at(*self, oldm, done, fileid, k));
                            }
                        }
                    }
                }
                proof {
                    assert(pre.spec_pool().spec_lastfileid() <= bnd + t);
                    assert(self.spec_pool().spec_lastfileid() == pre.spec_pool().spec_lastfileid()
                        || self.spec_pool().spec_lastfileid() == (if now > pre.spec_pool().spec_lastfileid() {
                        now
                    } else {
                        (pre.spec_pool().spec_lastfileid() + 1) as u64
                    }));
                    assert(self.spec_pool().spec_lastfileid() <= bnd + t + 1);
                }
                count = count + 1;
            }
            t = t + 1;
        }
        // no mapping entry points into the segment any more
        proof {
            assert forall|i: int| 0 <= i < self.ent_count() implies (#[trigger] self.slot_at(
                i,
            )).fileid != fileid by {
                self.lemma_keys_unique();
                lemma_assoc_lookup(self.indexmap@, i);
                let k = self.key_at(i);
                assert(self.key_map().dom().contains(k));
                assert(oldm.contains_key(k));
                if oldm[k].0.fileid != fileid {
                    assert(self.key_map()[k] == oldm[k]);
                } else {
                    assert(pending_at(*self, oldm, done, m as int, k) || relocated_at(
                        *self,
                        oldm,
                        done,
                        fileid,
                        k,
                    ));
                    if pending_at(*self, oldm, done, m as int, k) {
                        let ii = choose|ii: int|
                            m <= ii < done.len() && (#[trigger] done[ii]).key == k && done[ii].off
                                == oldm[k].0.offset && done[ii].value.len() == oldm[k].1;
                        assert(false);
                    }
                }
                assert(self.key_map()[k].0 == self.slot_at(i));
            }
        }
        let ghost p2 = self.filepool;
        let ghost predrop = *self;
        let dres = self.filepool.drop_segment(fileid);
        proof {
            if dres is Err {
                assert(p2.spec_has(fileid));
                assert(fileid != p2.spec_lastfileid());
                assert(false);
            }
            let p3 = self.filepool;
            let di = choose|di: int|
                0 <= di < p2.seg_count() && #[trigger] p2.fileid_at(di) == fileid && (forall|
                    p: int,
                |
                    0 <= p < p3.seg_count() ==> #[trigger] p3.fileid_at(p) == p2.fileid_at(
                        if p < di {
                            p
                        } else {
                            p + 1
                        },
                    ) && p3.freelist_at(p) == p2.freelist_at(
                        if p < di {
                            p
                        } else {
                            p + 1
                        },
                    ));
            assert(forall|i: int|
                0 <= i < predrop.ent_count() ==> #[trigger] self.key_at(i) == predrop.key_at(i)
                    && #[trigger] self.slot_at(i) == predrop.slot_at(i) && self.vsize_at(i)
                    == predrop.vsize_at(i));
            assert(0 <= di < p2.seg_count() && p2.fileid_at(di) == fileid);
            assert(p3.seg_count() == p2.seg_count() - 1);
            assert(forall|p: int|
                0 <= p < p3.seg_count() ==> #[trigger] p3.fileid_at(p) == p2.fileid_at(
                    if p < di {
                        p
                    } else {
                        p + 1
                    },
                ));
            assert forall|i: int| 0 <= i < self.ent_count() implies self.entry_ok(i) by {
                assert(predrop.slot_at(i).fileid != fileid);
                assert(self.slot_at(i).fileid != fileid);
                assert(predrop.entry_ok(i));
                assert(p2.spec_has(predrop.slot_at(i).fileid));
                let w = choose|w: int|
                    0 <= w < p2.seg_count() && #[trigger] p2.fileid_at(w) == self.slot_at(i).fileid;
                assert(p2.fileid_at(w) == self.slot_at(i).fileid);
                assert(p2.fileid_at(di) == fileid);
                assert(w != di);
                let w2 = if w < di {
                    w
                } else {
                    w - 1
                };
                assert(0 <= w2 < p3.seg_count());
                assert(p3.fileid_at(w2) == p2.fileid_at(
                    if w2 < di {
                        w2
                    } else {
                        w2 + 1
                    },
                ));
                assert(p3.fileid_at(w2) == p2.fileid_at(w));
                assert(p3.spec_has(self.slot_at(i).fileid));
            }
            assert forall|i: int, p: int, kk2: int|
                0 <= i < self.ent_count() && 0 <= p < self.spec_pool().seg_count()
                    && self.spec_pool().fileid_at(p) == (#[trigger] self.slot_at(i)).fileid && 0
                    <= kk2 < self.spec_pool().freelist_at(p)@.len() implies ((
            #[trigger] self.spec_pool().freelist_at(p)@[kk2]).end() <= self.slot_at(i).offset
                || self.slot_at(i).offset + self.ent_alloc(i) <= self.spec_pool().freelist_at(
                p,
            )@[kk2].off) by {
                let p0idx = if p < di {
                    p
                } else {
                    p + 1
                };
                assert(p3.fileid_at(p) == p2.fileid_at(p0idx) && p3.freelist_at(p)
                    == p2.freelist_at(p0idx));
                assert(self.slot_at(i) == predrop.slot_at(i));
                assert(self.ent_alloc(i) == predrop.ent_alloc(i));
                assert(p2.fileid_at(p0idx) == predrop.slot_at(i).fileid);
                assert((p2.freelist_at(p0idx)@[kk2]).end() <= predrop.slot_at(i).offset
                    || predrop.slot_at(i).offset + predrop.ent_alloc(i) <= p2.freelist_at(
                    p0idx,
                )@[kk2].off);
            }
            assert forall|i: int, j: int| 0 <= i < j < self.ent_count() implies
                #[trigger] self.key_at(i) != #[trigger] self.key_at(j) by {
                assert(predrop.key_at(i) != predrop.key_at(j));
            }
            assert forall|i: int, j: int|
                0 <= i < self.ent_count() && 0 <= j < self.ent_count() && i != j && (
            #[trigger] self.slot_at(i)).fileid == (#[trigger] self.slot_at(j)).fileid implies (
            self.slot_at(i).offset + self.ent_alloc(i) <= self.slot_at(j).offset || self.slot_at(
                j,
            ).offset + self.ent_alloc(j) <= self.slot_at(i).offset) by {
                assert(self.slot_at(i) == predrop.slot_at(i) && self.slot_at(j) == predrop.slot_at(
                    j,
                ));
            }
            assert(self.spec_writer() == predrop.spec_writer());
            assert(self.wf());
            assert(self.key_map() == predrop.key_map());
            assert(self.key_map().dom() == oldm.dom());
            assert forall|k: Seq<u8>|
                oldm.contains_key(k) && (#[trigger] oldm[k]).0.fileid != fileid implies
                self.key_map()[k] == oldm[k] by {
                assert(predrop.key_map()[k] == oldm[k]);
            }
            assert forall|k: Seq<u8>|
                oldm.contains_key(k) && (#[trigger] oldm[k]).0.fileid == fileid implies
                relocated_at(*self, oldm, done, fileid, k) by {
                assert(pending_at(predrop, oldm, done, m as int, k) || relocated_at(
                    predrop,
                    oldm,
                    done,
                    fileid,
                    k,
                ));
                if pending_at(predrop, oldm, done, m as int, k) {
                    let ii = choose|ii: int|
                        m <= ii < done.len() && (#[trigger] done[ii]).key == k && done[ii].off
                            == oldm[k].0.offset && done[ii].value.len() == oldm[k].1;
                    assert(false);
                }
                assert(relocated_at(predrop, oldm, done, fileid, k));
                let f = predrop.key_map()[k].0.fileid;
                assert(f != fileid);
                assert(p2.spec_has(f));
                let w = choose|w: int|
                    0 <= w < p2.seg_count() && #[trigger] p2.fileid_at(w) == f;
                assert(w != di);
                let w2 = if w < di {
                    w
                } else {
                    w - 1
                };
                assert(p3.fileid_at(w2) == p2.fileid_at(w));
                assert(self.spec_pool().spec_has(f));
                assert(self.key_map()[k] == predrop.key_map()[k]);
            }
            assert(!self.spec_pool().spec_has(fileid));
        }
        Ok(count)
    }


    /// Whether a rebuilt entry may join the mapping: its segment registered,
    /// its sizes in range, its record within capacity, its key fresh or
    /// replacing the same key, and its range disjoint from every other
    /// rebuilt record of its segment.
    pub open spec fn entry_fits(&self, key: Seq<u8>, slot: Slot, vsize: u32) -> bool {
        &&& 1 <= key.len() <= 0xffff
        &&& 1 <= vsize
        &&& slot.offset + entry_alloc(key.len() as int, vsize) <= MAX_FILESIZE
        &&& self.spec_pool().spec_has(slot.fileid)
        &&& forall|j: int|
            0 <= j < self.ent_count() && (#[trigger] self.slot_at(j)).fileid == slot.fileid
                && self.key_at(j) != key ==> (self.slot_at(j).offset + self.ent_alloc(j)
                <= slot.offset || slot.offset + entry_alloc(key.len() as int, vsize)
                <= self.slot_at(j).offset)
    }

    /// Load one rebuilt entry during recovery. The mapping takes it; the
    /// allocators are reconciled once every entry is in.
    fn load_entry(&mut self, key: Vec<u8>, slot: Slot, vsize: u32) -> (r: bool)
        requires
            old(self).recovering(),
        ensures
            final(self).recovering(),
            final(self).spec_pool() == old(self).spec_pool(),
            final(self).sync_set() == old(self).sync_set(),
            r == old(self).entry_fits(key@, slot, vsize),
            r ==> final(self).key_map() == old(self).key_map().insert(key@, (slot, vsize)),
            !r ==> *final(self) == *old(self),
    {
        proof {
            self.lemma_keys_unique();
        }
        if key.len() == 0 || key.len() > 0xffff || vsize == 0 {
            proof {
                assert(!self.entry_fits(key@, slot, vsize));
            }
            return false;
        }
        let size64: u64 = 14 + key.len() as u64 + vsize as u64;
        let alloc64: u64 = ((size64 + 15) / 16) * 16;
        proof {
            lemma_roundup_bounds(size64 as int, ALIGN as int);
            assert(alloc64 == entry_alloc(key@.len() as int, vsize));
        }
        if slot.offset as u64 + alloc64 > MAX_FILESIZE as u64 {
            proof {
                assert(!self.entry_fits(key@, slot, vsize));
            }
            return false;
        }
        // the segment must be registered
        let mut found_seg = false;
        let segs = self.filepool.segment_count();
        let mut si: usize = 0;
        while si < segs
            invariant
                *self == *old(self),
                segs == self.spec_pool().seg_count(),
                0 <= si <= segs,
                found_seg ==> self.spec_pool().spec_has(slot.fileid),
                !found_seg ==> forall|j: int|
                    0 <= j < si ==> #[trigger] self.spec_pool().fileid_at(j) != slot.fileid,
            decreases segs - si + (if found_seg {
                0int
            } else {
                1int
            }),
        {
            if !found_seg && self.filepool.fileid_of(si) == slot.fileid {
                found_seg = true;
            }
            si = si + 1;
        }
        if !found_seg {
            proof {
                assert(!self.spec_pool().spec_has(slot.fileid));
                assert(!self.entry_fits(key@, slot, vsize));
            }
            return false;
        }
        // the record's range must be disjoint from every other record of
        // the segment
        let n = self.indexmap.len();
        let mut e: usize = 0;
        while e < n
            invariant
                *self == *old(self),
                old(self).recovering(),
                n == self.ent_count(),
                0 <= e <= n,
                slot.offset + alloc64 <= MAX_FILESIZE,
                alloc64 == entry_alloc(key@.len() as int, vsize),
                forall|j: int|
                    0 <= j < e && (#[trigger] self.slot_at(j)).fileid == slot.fileid
                        && self.key_at(j) != key@ ==> (self.slot_at(j).offset + self.ent_alloc(j)
                        <= slot.offset || slot.offset + entry_alloc(key@.len() as int, vsize)
                        <= self.slot_at(j).offset),
            decreases n - e,
        {
            if self.indexmap[e].1.fileid == slot.fileid && !Log::keys_equal(
                &self.indexmap[e].0,
                &key,
            ) {
                proof {
                    assert(self.entry_ok_core(e as int));
                }
                let esize64: u64 = 14 + self.indexmap[e].0.len() as u64 + self.indexmap[e].2 as u64;
                let ealloc64: u64 = ((esize64 + 15) / 16) * 16;
                proof {
                    lemma_roundup_bounds(esize64 as int, ALIGN as int);
                    assert(ealloc64 == self.ent_alloc(e as int));
                }
                let eoff = self.indexmap[e].1.offset;
                if !(eoff as u64 + ealloc64 <= slot.offset as u64 || slot.offset as u64 + alloc64
                    <= eoff as u64) {
                    proof {
                        assert(self.slot_at(e as int).fileid == slot.fileid && self.key_at(e as int)
                            != key@);
                        assert(!(self.slot_at(e as int).offset + self.ent_alloc(e as int)
                            <= slot.offset || slot.offset + entry_alloc(key@.len() as int, vsize)
                            <= self.slot_at(e as int).offset));
                        assert(!self.entry_fits(key@, slot, vsize));
                    }
                    return false;
                }
            }
            e = e + 1;
        }
        proof {
            assert(self.entry_fits(key@, slot, vsize));
        }
        // take the entry, replacing the key's older row if one was loaded
        let ghost e0 = self.indexmap@;
        let found = self.find_entry(&key);
        match found {
            Some(k) => {
                self.indexmap[k] = (key, slot, vsize);
                proof {
                    lemma_assoc_update(e0, k as int, (key, slot, vsize));
                }
            },
            None => {
                self.indexmap.push((key, slot, vsize));
                proof {
                    assert(self.indexmap@.drop_last() =~= e0);
                }
            },
        }
        proof {
            let oldl = *old(self);
            let newix: int = match found {
                Some(k) => k as int,
                None => e0.len() as int,
            };
            assert(forall|i: int|
                0 <= i < e0.len() && i != newix ==> self.indexmap@[i] == e0[i]);
            assert forall|i: int, j: int| 0 <= i < j < self.ent_count() implies
                #[trigger] self.key_at(i) != #[trigger] self.key_at(j) by {
                if i != newix && j != newix {
                    assert(oldl.key_at(i) != oldl.key_at(j));
                } else if i == newix {
                    assert(j > newix && newix < e0.len());
                    assert(oldl.key_at(newix) != oldl.key_at(j));
                } else {
                    if newix < e0.len() {
                        assert(oldl.key_at(i) != oldl.key_at(newix));
                    } else {
                        assert(oldl.key_at(i) != key@);
                    }
                }
            }
            assert forall|i: int| 0 <= i < self.ent_count() implies self.entry_ok_core(i) by {
                if i != newix {
                    assert(oldl.entry_ok_core(i));
                }
            }
            assert forall|i: int, j: int|
                0 <= i < self.ent_count() && 0 <= j < self.ent_count() && i != j && (
            #[trigger] self.slot_at(i)).fileid == (#[trigger] self.slot_at(j)).fileid implies (
            self.slot_at(i).offset + self.ent_alloc(i) <= self.slot_at(j).offset || self.slot_at(
                j,
            ).offset + self.ent_alloc(j) <= self.slot_at(i).offset) by {
                if i != newix && j != newix {
                    assert(oldl.slot_at(i) == self.slot_at(i) && oldl.slot_at(j) == self.slot_at(
                        j,
                    ));
                } else {
                    let o = if i == newix {
                        j
                    } else {
                        i
                    };
                    assert(o != newix && self.slot_at(o) == oldl.slot_at(o) && self.ent_alloc(o)
                        == oldl.ent_alloc(o) && self.key_at(o) == oldl.key_at(o));
                    assert(oldl.key_at(o) != key@);
                    assert(oldl.slot_at(o).fileid == slot.fileid ==> (oldl.slot_at(o).offset
                        + oldl.ent_alloc(o) <= slot.offset || slot.offset + entry_alloc(
                        key@.len() as int,
                        vsize,
                    ) <= oldl.slot_at(o).offset));
                }
            }
        }
        true
    }

    /// The engine's state while recovery rebuilds the mapping: everything
    /// the invariant asks but the allocators, which still show every byte
    /// free until the mapping is complete and the high-water marks are
    /// reapplied.
    pub open spec fn recovering(&self) -> bool {
        &&& self.spec_pool().wf()
        &&& self.spec_writer().wf()
        &&& self.spec_writer().all_valid()
        &&& self.spec_writer().batch_count() == 0
        &&& forall|i: int| 0 <= i < self.ent_count() ==> self.entry_ok_core(i)
        &&& forall|i: int, j: int|
            0 <= i < j < self.ent_count() ==> #[trigger] self.key_at(i) != #[trigger] self.key_at(
                j,
            )
        &&& forall|i: int, j: int|
            0 <= i < self.ent_count() && 0 <= j < self.ent_count() && i != j && (
            #[trigger] self.slot_at(i)).fileid == (#[trigger] self.slot_at(j)).fileid ==> (
            self.slot_at(i).offset + self.ent_alloc(i) <= self.slot_at(j).offset || self.slot_at(
                j,
            ).offset + self.ent_alloc(j) <= self.slot_at(i).offset)
    }

    /// The well-formedness of one mapping entry, without the allocator
    /// disjointness that recovery establishes only at its end.
    pub open spec fn entry_ok_core(&self, i: int) -> bool {
        &&& 1 <= self.key_at(i).len() <= 0xffff
        &&& 1 <= self.vsize_at(i)
        &&& self.slot_at(i).offset + self.ent_alloc(i) <= MAX_FILESIZE
        &&& self.spec_pool().spec_has(self.slot_at(i).fileid)
    }


    /// Whether a rebuilt entry may join a rebuilt mapping: sizes in range,
    /// its record within capacity, and its range disjoint from every other
    /// record of its segment that the mapping already holds.
    pub open spec fn map_fits(
        m: Map<Seq<u8>, (Slot, u32)>,
        key: Seq<u8>,
        slot: Slot,
        vsize: u32,
    ) -> bool {
        &&& 1 <= key.len() <= 0xffff
        &&& 1 <= vsize
        &&& slot.offset + entry_alloc(key.len() as int, vsize) <= MAX_FILESIZE
        &&& forall|k2: Seq<u8>|
            #[trigger] m.contains_key(k2) && m[k2].0.fileid == slot.fileid && k2 != key ==> (
            m[k2].0.offset + entry_alloc(k2.len() as int, m[k2].1) <= slot.offset || slot.offset
                + entry_alloc(key.len() as int, vsize) <= m[k2].0.offset)
    }

    /// What one index row does to the mapping recovery has rebuilt so far:
    /// a row whose record at its offset parses back with matching key and
    /// value size, and fits, binds its key — a later row for the same key
    /// wins; every other row changes nothing.
    pub open spec fn replay_row(
        m: Map<Seq<u8>, (Slot, u32)>,
        fileid: u64,
        idx_bytes: Seq<u8>,
        data: Seq<u8>,
        row: int,
    ) -> Map<Seq<u8>, (Slot, u32)> {
        match crate::data::parse_index(idx_bytes.skip(row * 18)) {
            crate::data::ParsedIndex::Entry(idx) => {
                if idx.offset <= data.len() {
                    match parse_record(data.skip(idx.offset as int)) {
                        ParsedRecord::Rec { key, value, time } => {
                            if key.len() == idx.keysize && value.len() == idx.valuesize
                                && Log::map_fits(
                                m,
                                key,
                                Slot { fileid, offset: idx.offset, time: idx.time },
                                idx.valuesize,
                            ) {
                                m.insert(
                                    key,
                                    (
                                        Slot { fileid, offset: idx.offset, time: idx.time },
                                        idx.valuesize,
                                    ),
                                )
                            } else {
                                m
                            }
                        },
                        _ => m,
                    }
                } else {
                    m
                }
            },
            _ => m,
        }
    }

    /// The mapping after the first `nrows` index rows of one segment.
    pub open spec fn replay_rows(
        m: Map<Seq<u8>, (Slot, u32)>,
        fileid: u64,
        idx_bytes: Seq<u8>,
        data: Seq<u8>,
        nrows: int,
    ) -> Map<Seq<u8>, (Slot, u32)>
        decreases nrows,
    {
        if nrows <= 0 {
            m
        } else {
            Log::replay_row(
                Log::replay_rows(m, fileid, idx_bytes, data, nrows - 1),
                fileid,
                idx_bytes,
                data,
                nrows - 1,
            )
        }
    }

    /// The mapping after the first `n` segments' index files, each replayed
    /// in file order.
    pub open spec fn replay_segments(
        m: Map<Seq<u8>, (Slot, u32)>,
        segments: Seq<(u64, Vec<u8>, Vec<u8>)>,
        n: int,
    ) -> Map<Seq<u8>, (Slot, u32)>
        decreases n,
    {
        if n <= 0 {
            m
        } else {
            Log::replay_rows(
                Log::replay_segments(m, segments, n - 1),
                segments[n - 1].0,
                segments[n - 1].1@,
                segments[n - 1].2@,
                segments[n - 1].1@.len() as int / 18,
            )
        }
    }

    /// During recovery, an entry fits exactly when it fits the mapping alone
    /// and its segment is registered.
    proof fn lemma_fits_iff_map_fits(&self, key: Seq<u8>, slot: Slot, vsize: u32)
        requires
            self.recovering(),
        ensures
            self.entry_fits(key, slot, vsize) <==> (Log::map_fits(self.key_map(), key, slot, vsize)
                && self.spec_pool().spec_has(slot.fileid)),
    {
        self.lemma_keys_unique();
        if self.entry_fits(key, slot, vsize) {
            assert forall|k2: Seq<u8>|
                #[trigger] self.key_map().contains_key(k2) && self.key_map()[k2].0.fileid
                    == slot.fileid && k2 != key implies (self.key_map()[k2].0.offset + entry_alloc(
                k2.len() as int,
                self.key_map()[k2].1,
            ) <= slot.offset || slot.offset + entry_alloc(key.len() as int, vsize)
                <= self.key_map()[k2].0.offset) by {
                lemma_assoc_contains(self.indexmap@, k2);
                let j = choose|j: int|
                    0 <= j < self.indexmap@.len() && (#[trigger] self.indexmap@[j]).0@ == k2;
                lemma_assoc_lookup(self.indexmap@, j);
                assert(self.key_at(j) == k2 && self.slot_at(j) == self.key_map()[k2].0
                    && self.vsize_at(j) == self.key_map()[k2].1);
            }
        }
        if Log::map_fits(self.key_map(), key, slot, vsize) && self.spec_pool().spec_has(
            slot.fileid,
        ) {
            assert forall|j: int|
                0 <= j < self.ent_count() && (#[trigger] self.slot_at(j)).fileid == slot.fileid
                    && self.key_at(j) != key implies (self.slot_at(j).offset + self.ent_alloc(j)
                <= slot.offset || slot.offset + entry_alloc(key.len() as int, vsize)
                <= self.slot_at(j).offset) by {
                lemma_assoc_lookup(self.indexmap@, j);
                assert(self.key_map().contains_key(self.key_at(j)));
                assert(self.key_map()[self.key_at(j)] == (self.slot_at(j), self.vsize_at(j)));
            }
        }
    }

    /// Whether the mapping entry for key `k` is backed by the given disk
    /// contents: some segment carries its identifier, and the record at the
    /// entry's offset in that segment's bytes carries the key and the value
    /// size the entry promises.
    pub open spec fn backed_by(
        m: Map<Seq<u8>, (Slot, u32)>,
        segments: Seq<(u64, Vec<u8>, Vec<u8>)>,
        k: Seq<u8>,
    ) -> bool {
        exists|s: int|
            0 <= s < segments.len() && (#[trigger] segments[s]).0 == m[k].0.fileid && (
            match parse_record(segments[s].2@.skip(m[k].0.offset as int)) {
                ParsedRecord::Rec { key: dk, value: dv, time: dt } => dk == k && dv.len()
                    == m[k].1,
                _ => false,
            })
    }

    /// Rebuild the engine after a restart from what survived on disk: for
    /// each segment, in ascending identifier order, its identifier, its
    /// sidecar index file's bytes, and its data file's bytes. Index rows are
    /// replayed in file order and a later row for a key wins; a row is
    /// loaded only when the record at its offset carries a matching key and
    /// value size, so rows that a crash left pointing at short, gap-marked
    /// or foreign bytes are skipped. Every key the rebuilt mapping holds is
    /// backed by a record in the given bytes. The allocators then take each
    /// segment's high-water prefix as used; interior gaps are left to
    /// compaction to reclaim.
    pub fn recover(segments: &Vec<(u64, Vec<u8>, Vec<u8>)>, now: u64) -> (r: Log)
        requires
            forall|i: int, j: int|
                0 <= i < j < segments@.len() ==> (#[trigger] segments@[i]).0 < (
                #[trigger] segments@[j]).0,
        ensures
            r.wf(),
            r.spec_writer().batch_count() == 0,
            r.sync_set() == Set::<u64>::empty(),
            r.key_map() == Log::replay_segments(
                Map::<Seq<u8>, (Slot, u32)>::empty(),
                segments@,
                segments@.len() as int,
            ),
            forall|k: Seq<u8>|
                #[trigger] r.key_map().contains_key(k) ==> Log::backed_by(
                    r.key_map(),
                    segments@,
                    k,
                ),
    {
        let mut fileids: Vec<u64> = Vec::new();
        let nseg = segments.len();
        let mut si: usize = 0;
        while si < nseg
            invariant
                nseg == segments@.len(),
                forall|i: int, j: int|
                    0 <= i < j < segments@.len() ==> (#[trigger] segments@[i]).0 < (
                    #[trigger] segments@[j]).0,
                0 <= si <= nseg,
                fileids@.len() == si,
                forall|i: int| 0 <= i < si ==> #[trigger] fileids@[i] == segments@[i].0,
            decreases nseg - si,
        {
            fileids.push(segments[si].0);
            si = si + 1;
        }
        proof {
            assert(forall|i: int, j: int|
                0 <= i < j < fileids@.len() ==> fileids@[i] != fileids@[j]);
        }
        let pool = FilePool::new(&fileids, now);
        let mut log = Log::new(pool);
        proof {
            assert forall|i: int| 0 <= i < segments@.len() implies log.spec_pool().spec_has(
                (#[trigger] segments@[i]).0,
            ) by {
                assert(log.spec_pool().fileid_at(i) == fileids@[i]);
            }
        }
        let ghost segq = segments@;
        let mut si: usize = 0;
        while si < nseg
            invariant
                nseg == segments@.len(),
                segq == segments@,
                log.recovering(),
                log.spec_pool().wf(),
                log.sync_set() == Set::<u64>::empty(),
                forall|i: int|
                    0 <= i < segments@.len() ==> log.spec_pool().spec_has(
                        (#[trigger] segments@[i]).0,
                    ),
                forall|q: int|
                    0 <= q < log.spec_pool().seg_count() ==> (
                    #[trigger] log.spec_pool().freelist_at(q))@ =~= seq![
                        Atag { off: 0, size: MAX_FILESIZE },
                    ],
                0 <= si <= nseg,
                log.key_map() == Log::replay_segments(
                    Map::<Seq<u8>, (Slot, u32)>::empty(),
                    segments@,
                    si as int,
                ),
                forall|k: Seq<u8>|
                    #[trigger] log.key_map().contains_key(k) ==> Log::backed_by(
                        log.key_map(),
                        segments@,
                        k,
                    ),
            decreases nseg - si,
        {
            let fileid = segments[si].0;
            let idx_bytes = &segments[si].1;
            let data_bytes = &segments[si].2;
            let nrows = idx_bytes.len() / 18;
            let ghost mseg = log.key_map();
            let mut row: usize = 0;
            while row < nrows
                invariant
                    nseg == segments@.len(),
                    segq == segments@,
                    si < nseg,
                    fileid == segments@[si as int].0,
                    idx_bytes == &segments@[si as int].1,
                    data_bytes == &segments@[si as int].2,
                    nrows == idx_bytes@.len() as int / 18,
                    0 <= row <= nrows,
                    log.recovering(),
                    log.sync_set() == Set::<u64>::empty(),
                    forall|q: int|
                        0 <= q < log.spec_pool().seg_count() ==> (
                        #[trigger] log.spec_pool().freelist_at(q))@ =~= seq![
                            Atag { off: 0, size: MAX_FILESIZE },
                        ],
                    forall|i: int|
                        0 <= i < segments@.len() ==> log.spec_pool().spec_has(
                            (#[trigger] segments@[i]).0,
                        ),
                    mseg == Log::replay_segments(
                        Map::<Seq<u8>, (Slot, u32)>::empty(),
                        segments@,
                        si as int,
                    ),
                    log.key_map() == Log::replay_rows(
                        mseg,
                        fileid,
                        idx_bytes@,
                        data_bytes@,
                        row as int,
                    ),
                    forall|k: Seq<u8>|
                        #[trigger] log.key_map().contains_key(k) ==> Log::backed_by(
                            log.key_map(),
                            segments@,
                            k,
                        ),
                decreases nrows - row,
            {
                let bl_exec = idx_bytes.len();
                proof {
                    let ghost bl = idx_bytes@.len() as int;
                    assert(bl == bl_exec && bl <= usize::MAX);
                    assert(row * 18 + 18 <= bl) by (nonlinear_arith)
                        requires
                            0 <= row,
                            row < nrows,
                            nrows == bl / 18,
                            bl >= 0,
                    ;
                }
                let pos = row * 18;
                let ghost mrow = log.key_map();
                let idx = match Index::read_from(idx_bytes, pos) {
                    Ok(Some(idx)) => idx,
                    _ => {
                        proof {
                            assert(Log::replay_row(mrow, fileid, idx_bytes@, data_bytes@, row as int)
                                == mrow);
                        }
                        row = row + 1;
                        continue ;
                    },
                };
                if idx.offset as usize > data_bytes.len() {
                    proof {
                        assert(Log::replay_row(mrow, fileid, idx_bytes@, data_bytes@, row as int)
                            == mrow);
                    }
                    row = row + 1;
                    continue ;
                }
                let rec = match Record::read_from(data_bytes, idx.offset as usize) {
                    Ok(Some(rec)) => rec,
                    _ => {
                        proof {
                            assert(Log::replay_row(mrow, fileid, idx_bytes@, data_bytes@, row as int)
                                == mrow);
                        }
                        row = row + 1;
                        continue ;
                    },
                };
                if rec.key.len() != idx.keysize as usize || rec.value.len()
                    != idx.valuesize as usize {
                    proof {
                        assert(Log::replay_row(mrow, fileid, idx_bytes@, data_bytes@, row as int)
                            == mrow);
                    }
                    row = row + 1;
                    continue ;
                }
                let ghost prelog = log;
                let slot = Slot { fileid, offset: idx.offset, time: idx.time };
                let vsize = idx.valuesize;
                let ghost reckey = rec.key@;
                let loaded = log.load_entry(rec.key, slot, vsize);
                proof {
                    prelog.lemma_fits_iff_map_fits(reckey, slot, vsize);
                    assert(prelog.spec_pool().spec_has(fileid)) by {
                        assert(log.spec_pool().spec_has(segments@[si as int].0));
                    }
                    assert(loaded == Log::map_fits(mrow, reckey, slot, vsize));
                    assert(parse_record(data_bytes@.skip(idx.offset as int))
                        matches ParsedRecord::Rec { key: dk, value: dv, time: dt } && dk == reckey
                        && dv == rec.value@ && dt == rec.time);
                    if loaded {
                        assert(log.key_map() == mrow.insert(reckey, (slot, vsize)));
                        assert(Log::replay_row(mrow, fileid, idx_bytes@, data_bytes@, row as int)
                            == mrow.insert(reckey, (slot, vsize)));
                    } else {
                        assert(Log::replay_row(mrow, fileid, idx_bytes@, data_bytes@, row as int)
                            == mrow);
                    }
                    if loaded {
                        assert forall|k: Seq<u8>| #[trigger] log.key_map().contains_key(
                            k,
                        ) implies Log::backed_by(log.key_map(), segments@, k) by {
                            if k == reckey {
                                assert(log.key_map()[k] == (slot, vsize));
                                assert(segments@[si as int].0 == fileid);
                                assert(parse_record(
                                    data_bytes@.skip(slot.offset as int),
                                ) matches ParsedRecord::Rec { key: dk, value: dv, time: dt }
                                    && dk == k && dv.len() == vsize);
                            } else {
                                assert(prelog.key_map().contains_key(k));
                                assert(log.key_map()[k] == prelog.key_map()[k]);
                                assert(Log::backed_by(prelog.key_map(), segments@, k));
                            }
                        }
                    }
                }
                row = row + 1;
            }
            proof {
                assert(log.key_map() == Log::replay_rows(
                    mseg,
                    fileid,
                    idx_bytes@,
                    data_bytes@,
                    nrows as int,
                ));
                assert(Log::replay_segments(
                    Map::<Seq<u8>, (Slot, u32)>::empty(),
                    segments@,
                    si as int + 1,
                ) == Log::replay_rows(
                    mseg,
                    segments@[si as int].0,
                    segments@[si as int].1@,
                    segments@[si as int].2@,
                    segments@[si as int].1@.len() as int / 18,
                ));
            }
            si = si + 1;
        }
        // reapply each segment's high-water mark to its allocator: the
        // prefix up to the end of its last record counts as used
        let segs = log.filepool.segment_count();
        let mut p: usize = 0;
        while p < segs
            invariant
                log.recovering(),
                log.sync_set() == Set::<u64>::empty(),
                segq == segments@,
                log.key_map() == Log::replay_segments(
                    Map::<Seq<u8>, (Slot, u32)>::empty(),
                    segments@,
                    segments@.len() as int,
                ),
                forall|k: Seq<u8>|
                    #[trigger] log.key_map().contains_key(k) ==> Log::backed_by(
                        log.key_map(),
                        segments@,
                        k,
                    ),
                segs == log.spec_pool().seg_count(),
                0 <= p <= segs,
                forall|q: int|
                    p <= q < log.spec_pool().seg_count() ==> (
                    #[trigger] log.spec_pool().freelist_at(q))@ =~= seq![
                        Atag { off: 0, size: MAX_FILESIZE },
                    ],
                forall|i: int, q: int, kk: int|
                    0 <= i < log.ent_count() && 0 <= q < p && log.spec_pool().fileid_at(q) == (
                    #[trigger] log.slot_at(i)).fileid && 0 <= kk < log.spec_pool().freelist_at(
                        q,
                    )@.len() ==> ((#[trigger] log.spec_pool().freelist_at(q)@[kk]).end()
                        <= log.slot_at(i).offset || log.slot_at(i).offset + log.ent_alloc(i)
                        <= log.spec_pool().freelist_at(q)@[kk].off),
            decreases segs - p,
        {
            let fileid = log.filepool.fileid_of(p);
            // the end of the highest record of this segment
            let n = log.indexmap.len();
            let mut maxend: u32 = 0;
            let mut e: usize = 0;
            while e < n
                invariant
                    log.recovering(),
                    n == log.ent_count(),
                    0 <= e <= n,
                    maxend <= MAX_FILESIZE,
                    forall|i: int|
                        0 <= i < e && (#[trigger] log.slot_at(i)).fileid == fileid ==> log.slot_at(
                            i,
                        ).offset + log.ent_alloc(i) <= maxend,
                decreases n - e,
            {
                if log.indexmap[e].1.fileid == fileid {
                    proof {
                        assert(log.entry_ok_core(e as int));
                    }
                    let esize64: u64 = 14 + log.indexmap[e].0.len() as u64
                        + log.indexmap[e].2 as u64;
                    let ealloc64: u64 = ((esize64 + 15) / 16) * 16;
                    proof {
                        lemma_roundup_bounds(esize64 as int, ALIGN as int);
                        assert(ealloc64 == log.ent_alloc(e as int));
                    }
                    let end = log.indexmap[e].1.offset + (ealloc64 as u32);
                    if end > maxend {
                        maxend = end;
                    }
                }
                e = e + 1;
            }
            let ghost prepool = log.filepool;
            let ghost premax = log;
            if maxend > 0 {
                let rres = log.filepool.request_room_withid(maxend, fileid);
                proof {
                    assert(prepool.spec_has(fileid));
                    if rres is Err {
                        assert(prepool.freelist_at(p as int)@[0].size == MAX_FILESIZE);
                        assert(false);
                    }
                    let w = choose|w: int|
                        0 <= w < prepool.seg_count() && #[trigger] prepool.fileid_at(w) == fileid
                            && requested(
                            prepool.freelist_at(w),
                            log.filepool.freelist_at(w),
                            maxend,
                            rres->Ok_0,
                        ) && (forall|j: int|
                            0 <= j < prepool.seg_count() && j != w
                                ==> #[trigger] log.filepool.freelist_at(j) == prepool.freelist_at(
                                j,
                            ));
                    assert(w == p as int) by {
                        if w != p as int {
                            assert(prepool.fileid_at(w) != prepool.fileid_at(p as int));
                        }
                    }
                    let fl1 = log.filepool.freelist_at(p as int);
                    assert(crate::freelist::first_fit_at(
                        prepool.freelist_at(p as int)@,
                        0,
                        maxend,
                    ));
                    if maxend == MAX_FILESIZE {
                        assert(fl1@ =~= Seq::<Atag>::empty());
                    } else {
                        assert(fl1@ =~= seq![
                            Atag { off: maxend, size: (MAX_FILESIZE - maxend) as u32 },
                        ]);
                    }
                    assert(forall|j: int|
                        0 <= j < prepool.seg_count() && j != p as int
                            ==> #[trigger] log.filepool.freelist_at(j) == prepool.freelist_at(j));
                    assert(forall|kk: int|
                        0 <= kk < fl1@.len() ==> (#[trigger] fl1@[kk]).off >= maxend);
                }
            }
            proof {
                assert forall|i: int, q: int, kk: int|
                    0 <= i < log.ent_count() && 0 <= q < p + 1 && log.spec_pool().fileid_at(q) == (
                #[trigger] log.slot_at(i)).fileid && 0 <= kk < log.spec_pool().freelist_at(
                    q,
                )@.len() implies ((#[trigger] log.spec_pool().freelist_at(q)@[kk]).end()
                    <= log.slot_at(i).offset || log.slot_at(i).offset + log.ent_alloc(i)
                    <= log.spec_pool().freelist_at(q)@[kk].off) by {
                    assert(log.indexmap == premax.indexmap);
                    assert(log.slot_at(i) == premax.slot_at(i) && log.key_at(i) == premax.key_at(
                        i,
                    ) && log.vsize_at(i) == premax.vsize_at(i));
                    if q < p as int {
                        if maxend > 0 {
                            assert(log.filepool.freelist_at(q) == prepool.freelist_at(q));
                        } else {
                            assert(log.filepool == prepool);
                        }
                        assert((prepool.freelist_at(q)@[kk]).end() <= premax.slot_at(i).offset
                            || premax.slot_at(i).offset + premax.ent_alloc(i)
                                <= prepool.freelist_at(q)@[kk].off);
                    } else {
                        assert(log.spec_pool().fileid_at(q) == fileid);
                        assert(premax.slot_at(i).fileid == log.slot_at(i).fileid);
                        assert(premax.slot_at(i).offset + premax.ent_alloc(i) <= maxend);
                        assert(premax.entry_ok_core(i));
                        lemma_roundup_bounds(
                            14 + premax.key_at(i).len() as int + premax.vsize_at(i) as int,
                            ALIGN as int,
                        );
                        assert(premax.ent_alloc(i) >= 16);
                        assert(maxend > 0);
                        assert(log.spec_pool().freelist_at(q)@[kk].off >= maxend);
                    }
                }
                assert forall|q: int|
                    p + 1 <= q < log.spec_pool().seg_count() implies (
                #[trigger] log.spec_pool().freelist_at(q))@ =~= seq![
                    Atag { off: 0, size: MAX_FILESIZE },
                ] by {
                    if maxend > 0 {
                        assert(log.filepool.freelist_at(q) == prepool.freelist_at(q));
                    } else {
                        assert(log.filepool == prepool);
                    }
                    assert(prepool.freelist_at(q)@ =~= seq![Atag { off: 0, size: MAX_FILESIZE }]);
                }
                // the mapping, the buffer and the sync set are untouched by
                // the allocator update
                assert(log.indexmap == premax.indexmap);
                assert(log.spec_writer() == premax.spec_writer());
                assert(log.sync_set() == premax.sync_set());
                assert(log.key_map() == premax.key_map());
                assert(log.spec_pool().wf());
                assert(forall|i: int|
                    0 <= i < log.ent_count() ==> #[trigger] log.key_at(i) == premax.key_at(i)
                        && #[trigger] log.slot_at(i) == premax.slot_at(i) && log.vsize_at(i)
                        == premax.vsize_at(i));
                assert forall|i: int| 0 <= i < log.ent_count() implies log.entry_ok_core(i) by {
                    assert(premax.entry_ok_core(i));
                    assert(premax.spec_pool() == prepool);
                    let w = choose|w: int|
                        0 <= w < prepool.seg_count() && #[trigger] prepool.fileid_at(w)
                            == premax.slot_at(i).fileid;
                    assert(log.spec_pool().fileid_at(w) == prepool.fileid_at(w));
                    assert(log.spec_pool().spec_has(log.slot_at(i).fileid));
                }
                assert forall|i: int, j: int| 0 <= i < j < log.ent_count() implies
                    #[trigger] log.key_at(i) != #[trigger] log.key_at(j) by {
                    assert(premax.key_at(i) != premax.key_at(j));
                }
                assert forall|i: int, j: int|
                    0 <= i < log.ent_count() && 0 <= j < log.ent_count() && i != j && (
                #[trigger] log.slot_at(i)).fileid == (#[trigger] log.slot_at(j)).fileid implies (
                log.slot_at(i).offset + log.ent_alloc(i) <= log.slot_at(j).offset || log.slot_at(
                    j,
                ).offset + log.ent_alloc(j) <= log.slot_at(i).offset) by {
                    assert(premax.slot_at(i) == log.slot_at(i) && premax.slot_at(j) == log.slot_at(
                        j,
                    ));
                }
                assert(log.recovering());
                assert forall|k: Seq<u8>| #[trigger] log.key_map().contains_key(k) implies
                    Log::backed_by(log.key_map(), segments@, k) by {
                    assert(premax.key_map().contains_key(k));
                    assert(Log::backed_by(premax.key_map(), segments@, k));
                }
            }
            p = p + 1;
        }
        proof {
            assert forall|i: int| 0 <= i < log.ent_count() implies log.entry_ok(i) by {
                assert(log.entry_ok_core(i));
            }
            assert(log.wf());
        }
        log
    }

}

} // verus!
