use vstd::prelude::*;
use crate::errors::Error;
use crate::freelist::{freed, requested, Atag, FreeList};
use crate::util::Timestamp;

verus! {

/// The byte capacity of one segment file: 32 MiB.
pub const MAX_FILESIZE: u32 = 0x2000000;

/// A segment keeps at most this many cached file handles; the host closes
/// any handle returned beyond this.
pub const MAX_FILEHANDLER: usize = 16;

/// Whether a segment entry is worth compacting under the threshold
/// `num / den`: not the active one, and either completely empty or with its
/// live bytes below that share of its used bytes.
pub open spec fn spec_is_candidate(e: (u64, FreeList), lastid: u64, num: u32, den: u32) -> bool {
    &&& e.0 != lastid
    &&& (e.1.spec_used_size() == 0 || (e.1.spec_used_size() - e.1.spec_comp_size()) * den < num
        * e.1.spec_used_size())
}

/// The identifiers of the candidate entries, in registration order.
pub open spec fn spec_candidates(s: Seq<(u64, FreeList)>, lastid: u64, num: u32, den: u32) -> Seq<
    u64,
>
    decreases s.len(),
{
    if s.len() == 0 {
        Seq::empty()
    } else {
        spec_candidates(s.drop_last(), lastid, num, den) + (if spec_is_candidate(
            s.last(),
            lastid,
            num,
            den,
        ) {
            seq![s.last().0]
        } else {
            Seq::empty()
        })
    }
}

/// The registry of segments: for each one its allocator, and which segment
/// is active (receives new appends). The host owns the file handles
/// themselves; every decision about offsets, capacities and segment birth is
/// made here.
#[derive(Debug)]
pub struct FilePool {
    entries: Vec<(u64, FreeList)>,
    lastfileid: u64,
}

impl FilePool {
    /// How many segments are registered.
    pub closed spec fn seg_count(&self) -> int {
        self.entries@.len() as int
    }

    /// The identifier of the segment at `i`, in registration order.
    pub closed spec fn fileid_at(&self, i: int) -> u64 {
        self.entries@[i].0
    }

    /// The allocator of the segment at `i`.
    pub closed spec fn freelist_at(&self, i: int) -> FreeList {
        self.entries@[i].1
    }

    /// The active segment: the one with the greatest identifier.
    pub closed spec fn spec_lastfileid(&self) -> u64 {
        self.lastfileid
    }

    /// Whether a segment with this identifier is registered.
    pub open spec fn spec_has(&self, fileid: u64) -> bool {
        exists|i: int| 0 <= i < self.seg_count() && #[trigger] self.fileid_at(i) == fileid
    }

    /// The pool's invariant: at least one segment, identifiers unique and
    /// none above the active one, the active one registered, and every
    /// allocator well-formed over the segment capacity.
    pub open spec fn wf(&self) -> bool {
        &&& self.seg_count() >= 1
        &&& self.spec_has(self.spec_lastfileid())
        &&& forall|i: int, j: int|
            0 <= i < j < self.seg_count() ==> #[trigger] self.fileid_at(i)
                != #[trigger] self.fileid_at(j)
        &&& forall|i: int|
            0 <= i < self.seg_count() ==> #[trigger] self.fileid_at(i) <= self.spec_lastfileid()
        &&& forall|i: int|
            0 <= i < self.seg_count() ==> (#[trigger] self.freelist_at(i)).wf()
                && self.freelist_at(i).spec_max() == MAX_FILESIZE
    }

    /// Build the registry from the segment identifiers the host found on
    /// disk, each with a fresh allocator over the full capacity. With none
    /// found, one new segment is registered under `now`, and the host
    /// creates its file.
    pub fn new(fileids: &Vec<u64>, now: u64) -> (r: FilePool)
        requires
            forall|i: int, j: int|
                0 <= i < j < fileids@.len() ==> fileids@[i] != fileids@[j],
        ensures
            r.wf(),
            fileids@.len() > 0 ==> {
                &&& r.seg_count() == fileids@.len()
                &&& forall|i: int|
                    0 <= i < fileids@.len() ==> #[trigger] r.fileid_at(i) == fileids@[i]
            },
            fileids@.len() == 0 ==> r.seg_count() == 1 && r.fileid_at(0) == now
                && r.spec_lastfileid() == now,
            forall|i: int|
                0 <= i < r.seg_count() ==> (#[trigger] r.freelist_at(i))@ =~= seq![
                    Atag { off: 0, size: MAX_FILESIZE },
                ],
    {
        let mut entries: Vec<(u64, FreeList)> = Vec::new();
        let mut lastfileid: u64 = 0;
        let n = fileids.len();
        let mut i: usize = 0;
        while i < n
            invariant
                n == fileids@.len(),
                0 <= i <= n,
                entries@.len() == i,
                forall|j: int| 0 <= j < i ==> (#[trigger] entries@[j]).0 == fileids@[j],
                forall|j: int|
                    0 <= j < i ==> (#[trigger] entries@[j]).1.wf() && entries@[j].1.spec_max()
                        == MAX_FILESIZE && entries@[j].1@ =~= seq![
                        Atag { off: 0, size: MAX_FILESIZE },
                    ],
                i > 0 ==> exists|j: int|
                    0 <= j < i && #[trigger] fileids@[j] == lastfileid,
                forall|j: int| 0 <= j < i ==> #[trigger] fileids@[j] <= lastfileid,
            decreases n - i,
        {
            let id = fileids[i];
            if i == 0 || id > lastfileid {
                lastfileid = id;
            }
            entries.push((id, FreeList::new(MAX_FILESIZE)));
            i = i + 1;
        }
        if entries.len() == 0 {
            entries.push((now, FreeList::new(MAX_FILESIZE)));
            lastfileid = now;
        }
        let r = FilePool { entries, lastfileid };
        proof {
            assert(forall|j: int| 0 <= j < r.seg_count() ==> #[trigger] r.fileid_at(j) == r.entries_view()[j].0);
            if fileids@.len() > 0 {
                assert(forall|j: int|
                    0 <= j < r.seg_count() ==> #[trigger] r.fileid_at(j) == fileids@[j]);
                let w = choose|j: int| 0 <= j < fileids@.len() && #[trigger] fileids@[j] == lastfileid;
                assert(r.fileid_at(w) == lastfileid);
            } else {
                assert(r.fileid_at(0) == now);
            }
        }
        r
    }

    /// The identifier of the active segment.
    pub fn get_lastfileid(&self) -> (r: Timestamp)
        ensures
            r == self.spec_lastfileid(),
    {
        self.lastfileid
    }

    /// How many segments are registered.
    pub fn segment_count(&self) -> (r: usize)
        ensures
            r == self.seg_count(),
    {
        self.entries.len()
    }

    /// The identifier of the segment at a registration position.
    pub fn fileid_of(&self, i: usize) -> (r: u64)
        requires
            i < self.seg_count(),
        ensures
            r == self.fileid_at(i as int),
    {
        self.entries[i].0
    }

    /// Serve `size` bytes from the named segment's allocator.
    pub fn request_room_withid(&mut self, size: u32, fileid: Timestamp) -> (r: Result<u32, Error>)
        requires
            old(self).wf(),
            size >= 1,
        ensures
            final(self).wf(),
            final(self).spec_lastfileid() == old(self).spec_lastfileid(),
            final(self).seg_count() == old(self).seg_count(),
            forall|i: int|
                0 <= i < old(self).seg_count() ==> #[trigger] final(self).fileid_at(i) == old(
                    self,
                ).fileid_at(i),
            match r {
                Ok(off) => exists|i: int|
                    0 <= i < old(self).seg_count() && #[trigger] old(self).fileid_at(i) == fileid
                        && requested(old(self).freelist_at(i), final(self).freelist_at(i), size, off)
                        && (forall|j: int|
                        0 <= j < old(self).seg_count() && j != i
                            ==> #[trigger] final(self).freelist_at(j) == old(self).freelist_at(j)),
                Err(e) => {
                    &&& (forall|i: int|
                        0 <= i < old(self).seg_count() ==> #[trigger] final(self).freelist_at(i)
                            == old(self).freelist_at(i))
                    &&& (e == Error::InvalidFileId <==> !old(self).spec_has(fileid))
                    &&& (e == Error::InvalidFileId || e == Error::AllocateFail)
                    &&& (e == Error::AllocateFail ==> exists|i: int|
                        0 <= i < old(self).seg_count() && #[trigger] old(self).fileid_at(i)
                            == fileid && (forall|k: int|
                            0 <= k < old(self).freelist_at(i)@.len() ==> (#[trigger] old(
                                self,
                            ).freelist_at(i)@[k]).size < size))
                },
            },
    {
        let n = self.entries.len();
        let mut i: usize = 0;
        while i < n && self.entries[i].0 != fileid
            invariant
                *self == *old(self),
                n == self.seg_count(),
                0 <= i <= n,
                forall|j: int| 0 <= j < i ==> #[trigger] self.fileid_at(j) != fileid,
            decreases n - i,
        {
            i = i + 1;
        }
        if i == n {
            return Err(Error::InvalidFileId);
        }
        proof {
            assert(self.freelist_at(i as int).wf());
        }
        let r = self.entries[i].1.request_room(size);
        proof {
            assert(old(self).fileid_at(i as int) == fileid);
            assert(self.fileid_at(i as int) == fileid);
            assert(forall|j: int|
                0 <= j < self.seg_count() && j != i ==> #[trigger] self.freelist_at(j) == old(
                    self,
                ).freelist_at(j));
            assert(forall|j: int|
                0 <= j < self.seg_count() ==> #[trigger] self.fileid_at(j) == old(self).fileid_at(
                    j,
                ));
            assert forall|j: int| 0 <= j < self.seg_count() implies (
            #[trigger] self.freelist_at(j)).wf() && self.freelist_at(j).spec_max()
                == MAX_FILESIZE by {
                if j != i as int {
                    assert(self.freelist_at(j) == old(self).freelist_at(j));
                }
            }
            let w = choose|w: int|
                0 <= w < old(self).seg_count() && #[trigger] old(self).fileid_at(w) == old(
                    self,
                ).spec_lastfileid();
            assert(self.fileid_at(w) == self.spec_lastfileid());
            if r is Ok {
                assert(requested(
                    old(self).freelist_at(i as int),
                    self.freelist_at(i as int),
                    size,
                    r->Ok_0,
                ));
                assert(exists|w: int|
                    0 <= w < old(self).seg_count() && #[trigger] old(self).fileid_at(w) == fileid
                        && requested(
                        old(self).freelist_at(w),
                        self.freelist_at(w),
                        size,
                        r->Ok_0,
                    ) && (forall|j: int|
                        0 <= j < old(self).seg_count() && j != w
                            ==> #[trigger] self.freelist_at(j) == old(self).freelist_at(j))) by {
                    assert(forall|j: int|
                        0 <= j < old(self).seg_count() && j != i as int
                            ==> #[trigger] self.freelist_at(j) == old(self).freelist_at(j));
                    assert(old(self).fileid_at(i as int) == fileid && requested(
                        old(self).freelist_at(i as int),
                        self.freelist_at(i as int),
                        size,
                        r->Ok_0,
                    ));
                }
            }
        }
        match r {
            Ok(off) => Ok(off),
            Err(e) => Err(e),
        }
    }

    /// Serve `size` bytes from the active segment; when it has no room, a
    /// fresh segment is born under an identifier strictly greater than the
    /// active one (the clock reading, pushed up past the active identifier if
    /// the clock is coarse), becomes active, and serves the request at its
    /// offset zero. The host creates the new segment's file on first write.
    /// Fails only when no segment, fresh or not, could ever hold `size`
    /// bytes.
    pub fn request_room_ornew(&mut self, size: u32, now: u64) -> (r: Result<
        (Timestamp, u32),
        Error,
    >)
        requires
            old(self).wf(),
            size >= 1,
            old(self).spec_lastfileid() < u64::MAX,
        ensures
            final(self).wf(),
            match r {
                Ok((fileid, off)) => {
                    &&& fileid == final(self).spec_lastfileid()
                    &&& (fileid == old(self).spec_lastfileid() || fileid > old(
                        self,
                    ).spec_lastfileid())
                    &&& (fileid == old(self).spec_lastfileid() ==> {
                        &&& final(self).seg_count() == old(self).seg_count()
                        &&& exists|i: int|
                            0 <= i < old(self).seg_count() && #[trigger] old(self).fileid_at(i)
                                == fileid && requested(
                                old(self).freelist_at(i),
                                final(self).freelist_at(i),
                                size,
                                off,
                            ) && (forall|j: int|
                                0 <= j < old(self).seg_count() && j != i
                                    ==> #[trigger] final(self).freelist_at(j) == old(
                                    self,
                                ).freelist_at(j))
                    })
                    &&& (fileid > old(self).spec_lastfileid() ==> {
                        &&& fileid == (if now > old(self).spec_lastfileid() {
                            now
                        } else {
                            (old(self).spec_lastfileid() + 1) as u64
                        })
                        &&& exists|i: int|
                            0 <= i < old(self).seg_count() && #[trigger] old(self).fileid_at(i)
                                == old(self).spec_lastfileid() && (forall|k: int|
                                0 <= k < old(self).freelist_at(i)@.len() ==> (#[trigger] old(
                                    self,
                                ).freelist_at(i)@[k]).size < size)
                        &&& final(self).seg_count() == old(self).seg_count() + 1
                        &&& final(self).fileid_at(old(self).seg_count()) == fileid
                        &&& off == 0
                        &&& final(self).freelist_at(old(self).seg_count())@ == (if size
                            == MAX_FILESIZE {
                            Seq::<Atag>::empty()
                        } else {
                            seq![Atag { off: size, size: (MAX_FILESIZE - size) as u32 }]
                        })
                        &&& final(self).freelist_at(old(self).seg_count()).spec_free_size()
                            == MAX_FILESIZE - size
                        &&& forall|j: int|
                            0 <= j < old(self).seg_count() ==> #[trigger] final(self).fileid_at(j)
                                == old(self).fileid_at(j) && final(self).freelist_at(j) == old(
                                self,
                            ).freelist_at(j)
                    })
                    &&& forall|i: int|
                        0 <= i < old(self).seg_count() ==> #[trigger] final(self).fileid_at(i)
                            == old(self).fileid_at(i)
                },
                Err(e) => {
                    &&& e == Error::AllocateFail
                    &&& size > MAX_FILESIZE
                    &&& final(self).seg_count() == old(self).seg_count()
                    &&& final(self).spec_lastfileid() == old(self).spec_lastfileid()
                    &&& forall|j: int|
                        0 <= j < old(self).seg_count() ==> #[trigger] final(self).fileid_at(j)
                            == old(self).fileid_at(j) && final(self).freelist_at(j) == old(
                            self,
                        ).freelist_at(j)
                },
            },
            size <= MAX_FILESIZE ==> r is Ok,
    {
        let lastfileid = self.lastfileid;
        match self.request_room_withid(size, lastfileid) {
            Ok(off) => Ok((lastfileid, off)),
            Err(Error::AllocateFail) => {
                let ghost mid = *self;
                if size > MAX_FILESIZE {
                    return Err(Error::AllocateFail);
                }
                let time: Timestamp = if now > lastfileid {
                    now
                } else {
                    lastfileid + 1
                };
                let mut freelist = FreeList::new(MAX_FILESIZE);
                let ghost fresh = freelist@;
                let off = match freelist.request_room(size) {
                    Ok(o) => o,
                    Err(_) => {
                        proof {
                            assert(fresh[0].size < size);
                            assert(false);
                        }
                        0
                    },
                };
                proof {
                    assert(crate::freelist::first_fit_at(fresh, 0, size));
                    if size == MAX_FILESIZE {
                        assert(freelist@ =~= Seq::<Atag>::empty());
                    } else {
                        assert(freelist@ =~= seq![
                            Atag { off: size, size: (MAX_FILESIZE - size) as u32 },
                        ]);
                    }
                }
                self.lastfileid = time;
                self.entries.push((time, freelist));
                proof {
                    let oldn = old(self).seg_count();
                    assert(mid.seg_count() == oldn);
                    assert(forall|j: int|
                        0 <= j < oldn ==> #[trigger] mid.fileid_at(j) == old(self).fileid_at(j));
                    assert(forall|j: int|
                        0 <= j < oldn ==> #[trigger] mid.freelist_at(j) == old(self).freelist_at(
                            j,
                        ));
                    assert(self.seg_count() == oldn + 1);
                    assert(self.fileid_at(oldn) == time);
                    assert(self.freelist_at(oldn) == freelist);
                    assert forall|j: int| 0 <= j < oldn implies #[trigger] self.fileid_at(j)
                        == old(self).fileid_at(j) by {
                        assert(self.entries_view()[j] == mid.entries_view()[j]);
                        assert(mid.fileid_at(j) == old(self).fileid_at(j));
                    }
                    assert forall|j: int| 0 <= j < oldn implies #[trigger] self.freelist_at(j)
                        == old(self).freelist_at(j) by {
                        assert(self.entries_view()[j] == mid.entries_view()[j]);
                        assert(mid.freelist_at(j) == old(self).freelist_at(j));
                    }
                    assert forall|a: int, b: int| 0 <= a < b < self.seg_count() implies
                        #[trigger] self.fileid_at(a) != #[trigger] self.fileid_at(b) by {
                        if b < oldn {
                            assert(old(self).fileid_at(a) != old(self).fileid_at(b));
                        } else {
                            assert(self.fileid_at(a) == old(self).fileid_at(a));
                            assert(old(self).fileid_at(a) <= old(self).spec_lastfileid());
                        }
                    }
                    assert forall|j: int| 0 <= j < self.seg_count() implies
                        #[trigger] self.fileid_at(j) <= self.spec_lastfileid() by {
                        if j < oldn {
                            assert(self.fileid_at(j) == old(self).fileid_at(j));
                            assert(old(self).fileid_at(j) <= old(self).spec_lastfileid());
                        }
                    }
                }
                Ok((self.lastfileid, off))
            },
            Err(e) => Err(e),
        }
    }

    /// Return `[offset, offset + size)` to the named segment's allocator.
    pub fn free_room(&mut self, size: u32, offset: u32, fileid: Timestamp) -> (r: Result<
        (),
        Error,
    >)
        requires
            old(self).wf(),
            size >= 1,
            offset + size <= MAX_FILESIZE,
            forall|i: int, k: int|
                0 <= i < old(self).seg_count() && #[trigger] old(self).fileid_at(i) == fileid && 0
                    <= k < old(self).freelist_at(i)@.len() ==> ((#[trigger] old(self).freelist_at(
                    i,
                )@[k]).off == offset || old(self).freelist_at(i)@[k].end() <= offset || offset
                    + size <= old(self).freelist_at(i)@[k].off),
        ensures
            final(self).wf(),
            final(self).spec_lastfileid() == old(self).spec_lastfileid(),
            final(self).seg_count() == old(self).seg_count(),
            forall|i: int|
                0 <= i < old(self).seg_count() ==> #[trigger] final(self).fileid_at(i) == old(
                    self,
                ).fileid_at(i),
            match r {
                Ok(()) => exists|i: int|
                    0 <= i < old(self).seg_count() && #[trigger] old(self).fileid_at(i) == fileid
                        && freed(old(self).freelist_at(i), final(self).freelist_at(i), offset, size)
                        && (forall|j: int|
                        0 <= j < old(self).seg_count() && j != i
                            ==> #[trigger] final(self).freelist_at(j) == old(self).freelist_at(j)),
                Err(e) => {
                    &&& (forall|i: int|
                        0 <= i < old(self).seg_count() ==> #[trigger] final(self).freelist_at(i)
                            == old(self).freelist_at(i))
                    &&& (e == Error::InvalidFileId <==> !old(self).spec_has(fileid))
                    &&& (e == Error::InvalidFileId || e == Error::DoubleFree)
                    &&& (e == Error::DoubleFree ==> exists|i: int|
                        0 <= i < old(self).seg_count() && #[trigger] old(self).fileid_at(i)
                            == fileid && (exists|kk: int|
                            0 <= kk < old(self).freelist_at(i)@.len() && (#[trigger] old(
                                self,
                            ).freelist_at(i)@[kk]).off == offset))
                },
            },
    {
        let n = self.entries.len();
        let mut i: usize = 0;
        while i < n && self.entries[i].0 != fileid
            invariant
                *self == *old(self),
                n == self.seg_count(),
                0 <= i <= n,
                forall|j: int| 0 <= j < i ==> #[trigger] self.fileid_at(j) != fileid,
            decreases n - i,
        {
            i = i + 1;
        }
        if i == n {
            return Err(Error::InvalidFileId);
        }
        proof {
            assert(self.freelist_at(i as int).wf());
            assert(self.fileid_at(i as int) == fileid);
        }
        let r = self.entries[i].1.free_room(offset, size);
        proof {
            assert(old(self).fileid_at(i as int) == fileid);
            if r is Ok {
                assert(freed(
                    old(self).freelist_at(i as int),
                    self.freelist_at(i as int),
                    offset,
                    size,
                ));
                assert(exists|w: int|
                    0 <= w < old(self).seg_count() && #[trigger] old(self).fileid_at(w) == fileid
                        && freed(old(self).freelist_at(w), self.freelist_at(w), offset, size) && (
                    forall|j: int|
                        0 <= j < old(self).seg_count() && j != w
                            ==> #[trigger] self.freelist_at(j) == old(self).freelist_at(j))) by {
                    assert(forall|j: int|
                        0 <= j < old(self).seg_count() && j != i as int
                            ==> #[trigger] self.freelist_at(j) == old(self).freelist_at(j));
                }
            }
            assert(forall|j: int|
                0 <= j < self.seg_count() && j != i ==> #[trigger] self.freelist_at(j) == old(
                    self,
                ).freelist_at(j));
            assert(forall|j: int|
                0 <= j < self.seg_count() ==> #[trigger] self.fileid_at(j) == old(self).fileid_at(
                    j,
                ));
            assert forall|j: int| 0 <= j < self.seg_count() implies (
            #[trigger] self.freelist_at(j)).wf() && self.freelist_at(j).spec_max()
                == MAX_FILESIZE by {
                if j != i as int {
                    assert(self.freelist_at(j) == old(self).freelist_at(j));
                }
            }
            let w = choose|w: int|
                0 <= w < old(self).seg_count() && #[trigger] old(self).fileid_at(w) == old(
                    self,
                ).spec_lastfileid();
            assert(self.fileid_at(w) == self.spec_lastfileid());
        }
        match r {
            Ok(()) => Ok(()),
            Err(e) => Err(e),
        }
    }

    /// The high-water mark of the named segment: how many of its bytes lie
    /// below the tail free extent.
    pub fn used_size_of(&self, fileid: Timestamp) -> (r: Result<u32, Error>)
        requires
            self.wf(),
        ensures
            match r {
                Ok(u) => exists|i: int|
                    0 <= i < self.seg_count() && #[trigger] self.fileid_at(i) == fileid && u
                        == self.freelist_at(i).spec_used_size(),
                Err(e) => e == Error::InvalidFileId && !self.spec_has(fileid),
            },
    {
        let n = self.entries.len();
        let mut i: usize = 0;
        while i < n && self.entries[i].0 != fileid
            invariant
                self.wf(),
                n == self.seg_count(),
                0 <= i <= n,
                forall|j: int| 0 <= j < i ==> #[trigger] self.fileid_at(j) != fileid,
            decreases n - i,
        {
            i = i + 1;
        }
        if i == n {
            return Err(Error::InvalidFileId);
        }
        proof {
            assert(self.freelist_at(i as int).wf());
        }
        let u = self.entries[i].1.get_usedfilesize();
        proof {
            assert(self.fileid_at(i as int) == fileid);
            assert(u == self.freelist_at(i as int).spec_used_size());
        }
        Ok(u)
    }

    /// The segments worth compacting under the threshold `num / den`: every
    /// segment but the active one whose live bytes (used bytes less the
    /// reclaimable interior) have fallen below that share of its used bytes.
    pub fn compress_filelist(&self, num: u32, den: u32) -> (r: Vec<u64>)
        requires
            self.wf(),
            den >= 1,
        ensures
            r@ == spec_candidates(self.entries_view(), self.spec_lastfileid(), num, den),
    {
        let mut out: Vec<u64> = Vec::new();
        let n = self.entries.len();
        let mut i: usize = 0;
        while i < n
            invariant
                self.wf(),
                den >= 1,
                n == self.seg_count(),
                0 <= i <= n,
                out@ == spec_candidates(
                    self.entries_view().take(i as int),
                    self.spec_lastfileid(),
                    num,
                    den,
                ),
            decreases n - i,
        {
            proof {
                assert(self.entries_view().take(i + 1).drop_last() =~= self.entries_view().take(
                    i as int,
                ));
                assert(self.entries_view().take(i + 1).last() == self.entries_view()[i as int]);
                assert(self.freelist_at(i as int).wf());
                crate::freelist::lemma_comp_le_used(self.freelist_at(i as int));
                if self.freelist_at(i as int)@.len() > 0 {
                    let fl = self.freelist_at(i as int);
                    assert(fl@[fl@.len() - 1].end() <= MAX_FILESIZE);
                }
            }
            let used = self.entries[i].1.get_usedfilesize();
            let comp = self.entries[i].1.get_compfilesize();
            proof {
                assert(comp <= used);
                assert((used - comp) as u64 * den as u64 <= u64::MAX && num as u64 * used as u64
                    <= u64::MAX) by (nonlinear_arith)
                    requires
                        comp <= used,
                        used <= u32::MAX,
                        den <= u32::MAX,
                        num <= u32::MAX,
                ;
            }
            let live: u32 = used - comp;
            if self.entries[i].0 != self.lastfileid && (used == 0 || (live as u64) * (den as u64)
                < (num as u64) * (used as u64)) {
                out.push(self.entries[i].0);
            }
            i = i + 1;
        }
        proof {
            assert(self.entries_view().take(n as int) =~= self.entries_view());
        }
        out
    }

    /// Drop a retired segment from the registry. The active segment cannot
    /// be dropped.
    pub fn drop_segment(&mut self, fileid: Timestamp) -> (r: Result<(), Error>)
        requires
            old(self).wf(),
        ensures
            final(self).wf(),
            final(self).spec_lastfileid() == old(self).spec_lastfileid(),
            match r {
                Ok(()) => {
                    &&& fileid != old(self).spec_lastfileid()
                    &&& final(self).seg_count() == old(self).seg_count() - 1
                    &&& !final(self).spec_has(fileid)
                    &&& exists|i: int|
                        0 <= i < old(self).seg_count() && #[trigger] old(self).fileid_at(i)
                            == fileid && (forall|p: int|
                            0 <= p < final(self).seg_count() ==> #[trigger] final(self).fileid_at(
                                p,
                            ) == old(self).fileid_at(
                                if p < i {
                                    p
                                } else {
                                    p + 1
                                },
                            ) && final(self).freelist_at(p) == old(self).freelist_at(
                                if p < i {
                                    p
                                } else {
                                    p + 1
                                },
                            ))
                },
                Err(e) => {
                    &&& e == Error::InvalidFileId
                    &&& *final(self) == *old(self)
                    &&& (!old(self).spec_has(fileid) || fileid == old(self).spec_lastfileid())
                },
            },
    {
        if fileid == self.lastfileid {
            return Err(Error::InvalidFileId);
        }
        let n = self.entries.len();
        let mut i: usize = 0;
        while i < n && self.entries[i].0 != fileid
            invariant
                *self == *old(self),
                n == self.seg_count(),
                0 <= i <= n,
                forall|j: int| 0 <= j < i ==> #[trigger] self.fileid_at(j) != fileid,
            decreases n - i,
        {
            i = i + 1;
        }
        if i == n {
            return Err(Error::InvalidFileId);
        }
        self.entries.remove(i);
        proof {
            let s = old(self).entries_view();
            let t = self.entries_view();
            assert(t =~= s.remove(i as int));
            assert forall|a: int| 0 <= a < self.seg_count() implies #[trigger] self.fileid_at(a)
                <= self.spec_lastfileid() by {
                let a0 = if a < i as int {
                    a
                } else {
                    a + 1
                };
                assert(t[a] == s[a0]);
                assert(old(self).fileid_at(a0) == s[a0].0);
                assert(old(self).fileid_at(a0) <= old(self).spec_lastfileid());
            }
            assert forall|a: int| 0 <= a < self.seg_count() implies (
            #[trigger] self.freelist_at(a)).wf() && self.freelist_at(a).spec_max()
                == MAX_FILESIZE by {
                let a0 = if a < i as int {
                    a
                } else {
                    a + 1
                };
                assert(t[a] == s[a0]);
                assert(old(self).freelist_at(a0) == s[a0].1);
                assert(old(self).freelist_at(a0).wf());
                assert(old(self).freelist_at(a0).spec_max() == MAX_FILESIZE);
            }
            assert forall|a: int, b: int| 0 <= a < b < self.seg_count() implies
                #[trigger] self.fileid_at(a) != #[trigger] self.fileid_at(b) by {
                let a0 = if a < i as int {
                    a
                } else {
                    a + 1
                };
                let b0 = if b < i as int {
                    b
                } else {
                    b + 1
                };
                assert(t[a] == s[a0] && t[b] == s[b0]);
                assert(old(self).fileid_at(a0) != old(self).fileid_at(b0));
            }
            assert(old(self).spec_has(old(self).spec_lastfileid()));
            let li = choose|li: int|
                0 <= li < s.len() && #[trigger] old(self).fileid_at(li) == old(
                    self,
                ).spec_lastfileid();
            assert(s[li].0 == old(self).spec_lastfileid());
            assert(old(self).fileid_at(i as int) == fileid);
            assert(li != i as int);
            let li2 = if li < i as int {
                li
            } else {
                li - 1
            };
            assert(t[li2] == s[li]);
            assert(0 <= li2 < self.seg_count());
            assert(self.fileid_at(li2) == self.spec_lastfileid());
            assert(self.seg_count() >= 1);
            assert(self.spec_has(self.spec_lastfileid()));
            assert(old(self).fileid_at(i as int) == fileid);
            assert forall|p: int| 0 <= p < self.seg_count() implies #[trigger] self.fileid_at(p)
                == old(self).fileid_at(
                if p < i as int {
                    p
                } else {
                    p + 1
                },
            ) && self.freelist_at(p) == old(self).freelist_at(
                if p < i as int {
                    p
                } else {
                    p + 1
                },
            ) by {
                let p0 = if p < i as int {
                    p
                } else {
                    p + 1
                };
                assert(t[p] == s[p0]);
            }
            assert(!self.spec_has(fileid)) by {
                if self.spec_has(fileid) {
                    let w = choose|w: int|
                        0 <= w < self.seg_count() && #[trigger] self.fileid_at(w) == fileid;
                    let w0 = if w < i as int {
                        w
                    } else {
                        w + 1
                    };
                    assert(old(self).fileid_at(w0) == fileid);
                    assert(w0 != i as int);
                    assert(old(self).fileid_at(i as int) != old(self).fileid_at(w0));
                    assert(false);
                }
            }
        }
        Ok(())
    }

    /// The raw registry, for stating how `drop_segment` reshapes it.
    pub closed spec fn entries_view(&self) -> Seq<(u64, FreeList)> {
        self.entries@
    }
}

} // verus!
