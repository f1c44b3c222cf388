use vstd::prelude::*;
use crate::errors::Error;

verus! {

/// One free extent: the byte range `[off, off + size)` of a segment file.
#[derive(Clone, Copy, Debug, PartialEq, Eq, Structural)]
pub struct Atag {
    pub off: u32,
    pub size: u32,
}

impl Atag {
    /// The first offset past the extent.
    pub open spec fn end(self) -> int {
        self.off + self.size
    }

    /// Join two touching extents into one; `None` when a gap or an overlap
    /// separates them.
    pub fn merge(&self, other: &Atag) -> (r: Option<Atag>)
        requires
            self.end() <= u32::MAX,
            other.end() <= u32::MAX,
            self.size + other.size <= u32::MAX,
        ensures
            self.end() == other.off
                ==> r == Some(Atag { off: self.off, size: (self.size + other.size) as u32 }),
            other.end() == self.off
                ==> r == Some(Atag { off: other.off, size: (self.size + other.size) as u32 }),
            self.end() != other.off && other.end() != self.off ==> r is None,
    {
        if self.off + self.size == other.off {
            Some(Atag { off: self.off, size: self.size + other.size })
        } else if other.off + other.size == self.off {
            Some(Atag { off: other.off, size: other.size + self.size })
        } else {
            None
        }
    }

    /// Shave `size` bytes off the front of the extent.
    pub fn reduce(&self, size: u32) -> (r: Result<Atag, Error>)
        requires
            self.end() <= u32::MAX,
        ensures
            size <= self.size
                ==> r == Ok::<Atag, Error>(Atag {
                    off: (self.off + size) as u32,
                    size: (self.size - size) as u32,
                }),
            size > self.size ==> r == Err::<Atag, Error>(Error::AllocateFail),
    {
        if size <= self.size {
            Ok(Atag { off: self.off + size, size: self.size - size })
        } else {
            Err(Error::AllocateFail)
        }
    }
}

/// `i` is the first-fit position for a request of `size` bytes: no earlier
/// extent is large enough, this one is.
pub open spec fn first_fit_at(s: Seq<Atag>, i: int, size: u32) -> bool {
    &&& 0 <= i < s.len()
    &&& s[i].size >= size
    &&& forall|j: int| 0 <= j < i ==> (#[trigger] s[j]).size < size
}

/// What the extents become when a request of `size` bytes is served by the
/// extent at `i`: an exact fit removes it, a larger one is shrunk from the
/// front.
pub open spec fn serve_fit(s: Seq<Atag>, i: int, size: u32) -> Seq<Atag>
    recommends
        0 <= i < s.len(),
        size <= s[i].size,
        s[i].end() <= u32::MAX,
{
    if s[i].size == size {
        s.remove(i)
    } else {
        s.update(i, Atag { off: (s[i].off + size) as u32, size: (s[i].size - size) as u32 })
    }
}

/// `p` is where an extent starting at `off` would stand: every earlier
/// extent starts below `off`, and the one at `p`, if any, does not.
pub open spec fn ins_pos_at(s: Seq<Atag>, p: int, off: u32) -> bool {
    &&& 0 <= p <= s.len()
    &&& forall|j: int| 0 <= j < p ==> (#[trigger] s[j]).off < off
    &&& p < s.len() ==> off <= s[p].off
}

/// What the extents become when the range `[off, off + size)` is freed at
/// position `p`: the freshly freed extent is joined with its left neighbor
/// when the two touch, and with its right neighbor when those touch; both
/// sides may join at once, leaving a single merged extent.
pub open spec fn coalesced_insert(s: Seq<Atag>, p: int, off: u32, size: u32) -> Seq<Atag>
    recommends
        ins_pos_at(s, p, off),
{
    let lt = p > 0 && s[p - 1].end() == off;
    let rt = p < s.len() && off + size == s[p].off;
    if lt && rt {
        s.update(
            p - 1,
            Atag { off: s[p - 1].off, size: (s[p - 1].size + size + s[p].size) as u32 },
        ).remove(p)
    } else if lt {
        s.update(p - 1, Atag { off: s[p - 1].off, size: (s[p - 1].size + size) as u32 })
    } else if rt {
        s.update(p, Atag { off: off, size: (size + s[p].size) as u32 })
    } else {
        s.insert(p, Atag { off: off, size: size })
    }
}

/// How a successful `request_room` of `size` bytes turns `pre` into `post`,
/// returning `off`: the first fit served the request, the served range lies
/// within capacity and is disjoint from every remaining extent, and the free
/// bytes shrank by exactly `size`.
pub open spec fn requested(pre: FreeList, post: FreeList, size: u32, off: u32) -> bool {
    &&& post.spec_max() == pre.spec_max()
    &&& post.wf()
    &&& exists|i: int|
        #[trigger] first_fit_at(pre@, i, size) && off == pre@[i].off && post@ == serve_fit(
            pre@,
            i,
            size,
        )
    &&& off + size <= pre.spec_max()
    &&& forall|k: int|
        0 <= k < post@.len() ==> ((#[trigger] post@[k]).end() <= off || off + size <= post@[k].off)
    &&& post.spec_free_size() == pre.spec_free_size() - size
}

/// How a successful `free_room` of `[off, off + size)` turns `pre` into
/// `post`: the range entered the extents at its offset position, merged with
/// the neighbors it touches, and the free bytes grew by exactly `size`.
pub open spec fn freed(pre: FreeList, post: FreeList, off: u32, size: u32) -> bool {
    &&& post.spec_max() == pre.spec_max()
    &&& post.wf()
    &&& forall|i: int| 0 <= i < pre@.len() ==> (#[trigger] pre@[i]).off != off
    &&& exists|p: int|
        #[trigger] ins_pos_at(pre@, p, off) && post@ == coalesced_insert(pre@, p, off, size)
    &&& post.spec_free_size() == pre.spec_free_size() + size
}

/// Extents hold at least one byte each, stand in strictly ascending offset
/// order, and no two touch: a gap of at least one byte separates any two.
pub open spec fn ordered(s: Seq<Atag>) -> bool {
    &&& forall|i: int| 0 <= i < s.len() ==> (#[trigger] s[i]).size >= 1
    &&& forall|i: int, j: int|
        0 <= i < j < s.len() ==> (#[trigger] s[i]).end() < (#[trigger] s[j]).off
}

/// All extents lie within the first `max` bytes.
pub open spec fn bounded(s: Seq<Atag>, max: int) -> bool {
    forall|i: int| 0 <= i < s.len() ==> (#[trigger] s[i]).end() <= max
}

/// The number of free bytes described by the extents.
pub open spec fn sum_sizes(s: Seq<Atag>) -> int
    decreases s.len(),
{
    if s.len() == 0 {
        0
    } else {
        sum_sizes(s.drop_last()) + s.last().size
    }
}

pub proof fn lemma_sum_update(s: Seq<Atag>, i: int, a: Atag)
    requires
        0 <= i < s.len(),
    ensures
        sum_sizes(s.update(i, a)) == sum_sizes(s) - s[i].size + a.size,
    decreases s.len(),
{
    if i == s.len() - 1 {
        assert(s.update(i, a).drop_last() =~= s.drop_last());
    } else {
        lemma_sum_update(s.drop_last(), i, a);
        assert(s.update(i, a).drop_last() =~= s.drop_last().update(i, a));
        assert(s.update(i, a).last() == s.last());
    }
}

pub proof fn lemma_sum_remove(s: Seq<Atag>, i: int)
    requires
        0 <= i < s.len(),
    ensures
        sum_sizes(s.remove(i)) == sum_sizes(s) - s[i].size,
    decreases s.len(),
{
    if i == s.len() - 1 {
        assert(s.remove(i) =~= s.drop_last());
    } else {
        lemma_sum_remove(s.drop_last(), i);
        assert(s.remove(i).drop_last() =~= s.drop_last().remove(i));
        assert(s.remove(i).last() == s.last());
    }
}

pub proof fn lemma_sum_insert(s: Seq<Atag>, i: int, a: Atag)
    requires
        0 <= i <= s.len(),
    ensures
        sum_sizes(s.insert(i, a)) == sum_sizes(s) + a.size,
    decreases s.len(),
{
    if i == s.len() {
        assert(s.insert(i, a).drop_last() =~= s);
        assert(s.insert(i, a).last() == a);
    } else {
        lemma_sum_insert(s.drop_last(), i, a);
        assert(s.insert(i, a).drop_last() =~= s.drop_last().insert(i, a));
        assert(s.insert(i, a).last() == s.last());
    }
}

/// Ordered extents cannot hold more bytes than the span they cover: the sum
/// of their sizes, plus one byte for the gap between each pair, fits between
/// the first offset and the last end.
pub proof fn lemma_sum_span(s: Seq<Atag>)
    requires
        ordered(s),
    ensures
        s.len() == 0 ==> sum_sizes(s) == 0,
        s.len() > 0 ==> sum_sizes(s) + s.len() <= s.last().end() - s[0].off + 1,
        sum_sizes(s) >= 0,
    decreases s.len(),
{
    if s.len() == 1 {
        assert(s.drop_last().len() == 0);
        assert(sum_sizes(s.drop_last()) == 0);
        assert(s[0].size >= 1);
    } else if s.len() > 1 {
        let front = s.drop_last();
        assert(ordered(front)) by {
            assert(forall|i: int| 0 <= i < front.len() ==> front[i] == s[i]);
        }
        lemma_sum_span(front);
        assert(front.last() == s[s.len() - 2]);
        assert(s[s.len() - 2].end() < s.last().off);
    }
}

/// Ordered extents within `[0, max)` never hold more than `max` free bytes.
pub proof fn lemma_sum_bounded(s: Seq<Atag>, max: int)
    requires
        ordered(s),
        bounded(s, max),
        max >= 0,
    ensures
        0 <= sum_sizes(s) <= max,
{
    lemma_sum_span(s);
    if s.len() > 0 {
        assert(s[0].off >= 0);
        assert(s.last().end() <= max);
    }
}

/// The free-space allocator of one segment: which byte ranges of the file
/// are not occupied by live records.
#[derive(Debug)]
pub struct FreeList {
    atags: Vec<Atag>,
    maxfilesize: u32,
}

impl View for FreeList {
    type V = Seq<Atag>;

    closed spec fn view(&self) -> Seq<Atag> {
        self.atags@
    }
}

impl FreeList {
    /// The byte capacity this allocator was built over.
    pub closed spec fn spec_max(&self) -> u32 {
        self.maxfilesize
    }

    /// The allocator's invariant: extents are strictly offset-ordered,
    /// pairwise non-touching, at least one byte each, and within capacity.
    pub open spec fn wf(&self) -> bool {
        &&& self.spec_max() >= 1
        &&& ordered(self@)
        &&& bounded(self@, self.spec_max() as int)
    }

    /// All free bytes.
    pub open spec fn spec_free_size(&self) -> int {
        sum_sizes(self@)
    }

    /// Whether the last extent is the unused tail of the segment: the one
    /// that reaches the full capacity. Allocation can consume it whole;
    /// afterwards every extent is interior.
    pub open spec fn has_tail(&self) -> bool {
        self@.len() > 0 && self@.last().end() == self.spec_max()
    }

    /// The high-water mark: the offset of the tail extent, or the full
    /// capacity once the tail has been consumed.
    pub open spec fn spec_used_size(&self) -> int {
        if self.has_tail() {
            self@.last().off as int
        } else {
            self.spec_max() as int
        }
    }

    /// The reclaimable interior fragmentation: every free byte that lies
    /// below the high-water mark.
    pub open spec fn spec_comp_size(&self) -> int {
        if self.has_tail() {
            sum_sizes(self@.drop_last())
        } else {
            sum_sizes(self@)
        }
    }

    /// A fresh allocator: the whole capacity is one free extent.
    pub fn new(maxfilesize: u32) -> (r: FreeList)
        requires
            maxfilesize >= 1,
        ensures
            r.wf(),
            r.spec_max() == maxfilesize,
            r@ =~= seq![Atag { off: 0, size: maxfilesize }],
            r.spec_free_size() == maxfilesize,
    {
        let starttag = Atag { off: 0, size: maxfilesize };
        let mut atags: Vec<Atag> = Vec::new();
        atags.push(starttag);
        proof {
            assert(atags@.drop_last() =~= Seq::<Atag>::empty());
            assert(sum_sizes(Seq::<Atag>::empty()) == 0);
            assert(sum_sizes(atags@) == maxfilesize);
        }
        FreeList { atags, maxfilesize }
    }

    /// The byte capacity of the segment.
    pub fn get_maxfilesize(&self) -> (r: u32)
        ensures
            r == self.spec_max(),
    {
        self.maxfilesize
    }

    /// Bytes below the high-water mark, live records and interior free
    /// space together.
    pub fn get_usedfilesize(&self) -> (r: u32)
        requires
            self.wf(),
        ensures
            r == self.spec_used_size(),
    {
        let n = self.atags.len();
        if n == 0 {
            return self.maxfilesize;
        }
        let last = self.atags[n - 1];
        if last.off + last.size == self.maxfilesize {
            last.off
        } else {
            self.maxfilesize
        }
    }

    /// All free bytes.
    pub fn get_freefilesize(&self) -> (r: u32)
        requires
            self.wf(),
        ensures
            r == self.spec_free_size(),
    {
        let mut size: u32 = 0;
        let mut i: usize = 0;
        while i < self.atags.len()
            invariant
                self.wf(),
                0 <= i <= self.atags.len(),
                size == sum_sizes(self@.take(i as int)),
                size <= self.spec_max(),
            decreases self.atags.len() - i,
        {
            proof {
                assert(self@.take(i + 1).drop_last() =~= self@.take(i as int));
                assert(self@.take(i + 1).last() == self@[i as int]);
                lemma_ordered_take(self@, i + 1);
                lemma_sum_bounded(self@.take(i + 1), self.spec_max() as int);
            }
            size = size + self.atags[i].size;
            i = i + 1;
        }
        proof {
            assert(self@.take(self@.len() as int) =~= self@);
        }
        size
    }

    /// Serve an allocation of `size` bytes by first fit over the extents in
    /// offset order. An exact fit removes the extent; a larger one is shrunk
    /// from the front, so the returned offset is the extent's old start. The
    /// served range lies within capacity and is disjoint from every extent
    /// that remains free.
    pub fn request_room(&mut self, size: u32) -> (r: Result<u32, Error>)
        requires
            old(self).wf(),
            size >= 1,
        ensures
            final(self).spec_max() == old(self).spec_max(),
            final(self).wf(),
            match r {
                Ok(off) => requested(*old(self), *final(self), size, off),
                Err(e) => {
                    &&& e == Error::AllocateFail
                    &&& *final(self) == *old(self)
                    &&& forall|j: int|
                        0 <= j < final(self)@.len() ==> (#[trigger] final(self)@[j]).size < size
                },
            },
    {
        let n = self.atags.len();
        let mut i: usize = 0;
        while i < n && self.atags[i].size < size
            invariant
                *self == *old(self),
                n == self.atags.len(),
                0 <= i <= n,
                forall|j: int| 0 <= j < i ==> (#[trigger] self@[j]).size < size,
            decreases n - i,
        {
            i = i + 1;
        }
        if i == n {
            return Err(Error::AllocateFail);
        }
        let atag = self.atags[i];
        let off = atag.off;
        proof {
            assert(first_fit_at(self@, i as int, size));
            assert(atag.end() <= self.spec_max());
        }
        if atag.size == size {
            self.atags.remove(i);
            proof {
                lemma_sum_remove(old(self)@, i as int);
                let s = old(self)@;
                let t = self@;
                assert forall|a: int, b: int| 0 <= a < b < t.len() implies
                    (#[trigger] t[a]).end() < (#[trigger] t[b]).off by {
                    let a0 = if a < i as int { a } else { a + 1 };
                    let b0 = if b < i as int { b } else { b + 1 };
                    assert(t[a] == s[a0] && t[b] == s[b0]);
                }
                assert forall|k: int| 0 <= k < t.len() implies
                    ((#[trigger] t[k]).end() <= off || off + size <= t[k].off) by {
                    if k < i as int {
                        assert(t[k] == s[k]);
                        assert(s[k].end() < s[i as int].off);
                    } else {
                        assert(t[k] == s[k + 1]);
                        assert(s[i as int].end() < s[k + 1].off);
                    }
                }
            }
            Ok(off)
        } else {
            let newtag = match atag.reduce(size) {
                Ok(t) => t,
                Err(_) => {
                    proof {
                        assert(false);
                    }
                    Atag { off: 0, size: 0 }
                },
            };
            self.atags[i] = newtag;
            proof {
                lemma_sum_update(old(self)@, i as int, newtag);
                let s = old(self)@;
                let t = self@;
                assert(t =~= s.update(i as int, newtag));
                assert forall|a: int, b: int| 0 <= a < b < t.len() implies
                    (#[trigger] t[a]).end() < (#[trigger] t[b]).off by {
                    assert(s[a].end() < s[b].off);
                    assert(newtag.end() == s[i as int].end());
                    assert(newtag.off >= s[i as int].off);
                }
                assert forall|k: int| 0 <= k < t.len() implies
                    ((#[trigger] t[k]).end() <= off || off + size <= t[k].off) by {
                    if k < i as int {
                        assert(s[k].end() < s[i as int].off);
                    } else if k > i as int {
                        assert(s[i as int].end() < s[k].off);
                    }
                }
            }
            Ok(off)
        }
    }

    /// Return the range `[off, off + size)` to the free space. The range must
    /// not overlap any extent that is already free; an attempt to free a range
    /// whose start offset is already the start of a free extent is refused as
    /// a double free and leaves the allocator unchanged. Otherwise the range
    /// enters the list at its offset position and is merged with whichever
    /// neighbors it touches.
    pub fn free_room(&mut self, off: u32, size: u32) -> (r: Result<(), Error>)
        requires
            old(self).wf(),
            size >= 1,
            off + size <= old(self).spec_max(),
            forall|i: int|
                0 <= i < old(self)@.len()
                    ==> ((#[trigger] old(self)@[i]).off == off
                        || old(self)@[i].end() <= off
                        || off + size <= old(self)@[i].off),
        ensures
            final(self).spec_max() == old(self).spec_max(),
            final(self).wf(),
            match r {
                Ok(()) => freed(*old(self), *final(self), off, size),
                Err(e) => {
                    &&& e == Error::DoubleFree
                    &&& *final(self) == *old(self)
                    &&& exists|i: int|
                        0 <= i < old(self)@.len() && (#[trigger] old(self)@[i]).off == off
                },
            },
    {
        let n = self.atags.len();
        let mut p: usize = 0;
        while p < n && self.atags[p].off < off
            invariant
                *self == *old(self),
                n == self.atags.len(),
                0 <= p <= n,
                forall|j: int| 0 <= j < p ==> (#[trigger] self@[j]).off < off,
            decreases n - p,
        {
            p = p + 1;
        }
        if p < n && self.atags[p].off == off {
            return Err(Error::DoubleFree);
        }
        let ghost s = self@;
        proof {
            assert(ins_pos_at(s, p as int, off));
            assert(p < n ==> off < s[p as int].off);
            assert forall|i: int| 0 <= i < s.len() implies (#[trigger] s[i]).off != off by {
                if i < p as int {
                } else if i == p as int {
                } else {
                    assert(s[p as int].end() < s[i].off);
                }
            }
            if p > 0 {
                let l = s[p as int - 1];
                assert(l.off < off);
                assert(l.end() <= off);
                assert(l.size + size <= old(self).spec_max());
            }
            if p < n {
                let r0 = s[p as int];
                assert(off + size <= r0.off);
                assert(size + r0.size <= old(self).spec_max());
            }
        }
        let atag = Atag { off, size };
        let ltag = if p == 0 {
            None
        } else {
            self.atags[p - 1].merge(&atag)
        };
        let rtag = if p == n {
            None
        } else {
            atag.merge(&self.atags[p])
        };
        proof {
            let lt = p > 0 && s[p as int - 1].end() == off;
            let rt = (p as int) < s.len() && off + size == s[p as int].off;
            assert(ltag is Some <==> lt);
            assert(rtag is Some <==> rt);
        }
        match (ltag, rtag) {
            (None, None) => {
                self.atags.insert(p, atag);
                proof {
                    lemma_sum_insert(s, p as int, atag);
                    let t = self@;
                    assert(t =~= coalesced_insert(s, p as int, off, size));
                    assert(p > 0 ==> s[p as int - 1].end() < off);
                    assert(p < n ==> off + size < s[p as int].off);
                    assert forall|a: int, b: int| 0 <= a < b < t.len() implies
                        (#[trigger] t[a]).end() < (#[trigger] t[b]).off by {
                        if b < p as int {
                            assert(s[a].end() < s[b].off);
                        } else if b == p as int {
                            assert(a < p as int && t[a] == s[a]);
                            assert(s[a].end() <= s[p as int - 1].end());
                            if a < p as int - 1 {
                                assert(s[a].end() < s[p as int - 1].off);
                            }
                        } else {
                            assert(t[b] == s[b - 1] && b - 1 >= p as int);
                            if a < p as int {
                                assert(s[a].end() < off);
                                assert(off + size < s[p as int].off);
                                if b - 1 > p as int {
                                    assert(s[p as int].end() < s[b - 1].off);
                                }
                            } else if a == p as int {
                                if b - 1 > p as int {
                                    assert(s[p as int].end() < s[b - 1].off);
                                }
                            } else {
                                assert(s[a - 1].end() < s[b - 1].off);
                            }
                        }
                    }
                }
                Ok(())
            },
            (None, Some(t)) => {
                self.atags[p] = t;
                proof {
                    lemma_sum_update(s, p as int, t);
                    let u = self@;
                    assert(u =~= coalesced_insert(s, p as int, off, size));
                    assert forall|a: int, b: int| 0 <= a < b < u.len() implies
                        (#[trigger] u[a]).end() < (#[trigger] u[b]).off by {
                        assert(s[a].end() < s[b].off);
                        if b == p as int && a == p as int - 1 {
                            assert(s[a].end() < off);
                        }
                    }
                }
                Ok(())
            },
            (Some(t), None) => {
                self.atags[p - 1] = t;
                proof {
                    lemma_sum_update(s, p as int - 1, t);
                    let u = self@;
                    assert(u =~= coalesced_insert(s, p as int, off, size));
                    assert forall|a: int, b: int| 0 <= a < b < u.len() implies
                        (#[trigger] u[a]).end() < (#[trigger] u[b]).off by {
                        assert(s[a].end() < s[b].off);
                        if a == p as int - 1 && b >= p as int {
                            assert(off + size < s[p as int].off || b > p as int);
                            if b > p as int {
                                assert(s[p as int].end() < s[b].off);
                            }
                        }
                    }
                }
                Ok(())
            },
            (Some(lt_tag), Some(_)) => {
                let merged = match lt_tag.merge(&self.atags[p]) {
                    Some(m) => m,
                    None => {
                        proof {
                            assert(false);
                        }
                        Atag { off: 0, size: 0 }
                    },
                };
                self.atags[p - 1] = merged;
                self.atags.remove(p);
                proof {
                    let mid = s.update(p as int - 1, merged);
                    lemma_sum_update(s, p as int - 1, merged);
                    assert(mid[p as int] == s[p as int]);
                    lemma_sum_remove(mid, p as int);
                    let u = self@;
                    assert(u =~= coalesced_insert(s, p as int, off, size));
                    assert forall|a: int, b: int| 0 <= a < b < u.len() implies
                        (#[trigger] u[a]).end() < (#[trigger] u[b]).off by {
                        let a0 = if a < p as int { a } else { a + 1 };
                        let b0 = if b < p as int { b } else { b + 1 };
                        if a == p as int - 1 {
                            assert(merged.end() == s[p as int].end());
                            assert(s[p as int].end() < s[b0].off);
                        } else {
                            assert(s[a0].end() < s[b0].off);
                        }
                    }
                }
                Ok(())
            },
        }
    }

    /// Free bytes strictly below the high-water mark: every extent but the
    /// tail, or every extent once the tail has been consumed.
    pub fn get_compfilesize(&self) -> (r: u32)
        requires
            self.wf(),
        ensures
            r == self.spec_comp_size(),
    {
        let n = self.atags.len();
        if n == 0 {
            return 0;
        }
        let last = self.atags[n - 1];
        let upto: usize = if last.off + last.size == self.maxfilesize {
            n - 1
        } else {
            n
        };
        let mut size: u32 = 0;
        let mut i: usize = 0;
        while i < upto
            invariant
                self.wf(),
                upto <= self.atags.len(),
                0 <= i <= upto,
                size == sum_sizes(self@.take(i as int)),
                size <= self.spec_max(),
            decreases upto - i,
        {
            proof {
                assert(self@.take(i + 1).drop_last() =~= self@.take(i as int));
                assert(self@.take(i + 1).last() == self@[i as int]);
                lemma_ordered_take(self@, i + 1);
                lemma_sum_bounded(self@.take(i + 1), self.spec_max() as int);
            }
            size = size + self.atags[i].size;
            i = i + 1;
        }
        proof {
            if self.has_tail() {
                assert(self@.take(self@.len() - 1) =~= self@.drop_last());
            } else {
                assert(self@.take(self@.len() as int) =~= self@);
            }
        }
        size
    }
}

/// Free space never exceeds capacity, so the free bytes and the occupied
/// bytes (capacity less the free bytes) always account for the whole
/// capacity.
pub proof fn lemma_free_size_accounts_for_capacity(fl: FreeList)
    requires
        fl.wf(),
    ensures
        0 <= fl.spec_free_size() <= fl.spec_max(),
        fl.spec_free_size() + (fl.spec_max() - fl.spec_free_size()) == fl.spec_max(),
{
    lemma_sum_bounded(fl@, fl.spec_max() as int);
}

/// Two first-fit positions for the same request agree.
pub proof fn lemma_first_fit_unique(s: Seq<Atag>, i: int, j: int, size: u32)
    requires
        first_fit_at(s, i, size),
        first_fit_at(s, j, size),
    ensures
        i == j,
{
    if i < j {
        assert(s[i].size < size);
    } else if j < i {
        assert(s[j].size < size);
    }
}

/// Freeing a range and requesting its size again with no operation in
/// between returns the same offset, provided the freed range did not join a
/// left neighbor (its offset is the low edge of the extent it lies in) and no
/// earlier extent could serve the request. The freed position is then the
/// first fit for the request, and the extent there starts at the freed
/// offset.
pub proof fn lemma_free_then_request(s: Seq<Atag>, p: int, off: u32, size: u32)
    requires
        ordered(s),
        bounded(s, u32::MAX as int),
        ins_pos_at(s, p, off),
        size >= 1,
        off + size <= u32::MAX,
        !(p > 0 && s[p - 1].end() == off),
        p < s.len() ==> off < s[p].off,
        forall|j: int| 0 <= j < p ==> (#[trigger] s[j]).size < size,
    ensures
        first_fit_at(coalesced_insert(s, p, off, size), p, size),
        coalesced_insert(s, p, off, size)[p].off == off,
{
    let t = coalesced_insert(s, p, off, size);
    let rt = p < s.len() && off + size == s[p].off;
    if rt {
        assert(size + s[p].size <= s[p].end() - off);
        assert(t == s.update(p, Atag { off: off, size: (size + s[p].size) as u32 }));
        assert(t[p].size == size + s[p].size);
    } else {
        assert(t == s.insert(p, Atag { off: off, size: size }));
        assert(t[p].size == size);
    }
    assert(forall|j: int| 0 <= j < p ==> t[j] == s[j]);
}

/// When every byte is free again, the list is the one extent a fresh
/// allocator starts with: offset zero, the full capacity.
pub proof fn lemma_all_free_single_extent(fl: FreeList)
    requires
        fl.wf(),
        fl.spec_free_size() == fl.spec_max(),
    ensures
        fl@ =~= seq![Atag { off: 0, size: fl.spec_max() }],
{
    let s = fl@;
    let max = fl.spec_max() as int;
    lemma_sum_span(s);
    if s.len() == 0 {
        assert(sum_sizes(s) == 0);
        assert(false);
    } else if s.len() >= 2 {
        assert(sum_sizes(s) + s.len() <= s.last().end() - s[0].off + 1);
        assert(s.last().end() <= max);
        assert(sum_sizes(s) <= max - 1);
        assert(false);
    } else {
        assert(sum_sizes(s) == sum_sizes(s.drop_last()) + s[0].size);
        assert(s.drop_last().len() == 0);
        assert(sum_sizes(s.drop_last()) == 0);
        assert(s[0].size == max);
        assert(s[0].end() <= max);
        assert(s[0].off == 0);
    }
}

/// A byte range disjoint from every free extent stays disjoint after a
/// request is served: serving only shrinks the free space.
pub proof fn lemma_requested_preserves_disjoint(
    pre: FreeList,
    post: FreeList,
    size: u32,
    off: u32,
    ro: u32,
    rl: int,
)
    requires
        requested(pre, post, size, off),
        forall|j: int|
            0 <= j < pre@.len() ==> ((#[trigger] pre@[j]).end() <= ro || ro + rl <= pre@[j].off),
    ensures
        forall|k: int|
            0 <= k < post@.len() ==> ((#[trigger] post@[k]).end() <= ro || ro + rl <= post@[k].off),
{
    let i = choose|i: int|
        #[trigger] first_fit_at(pre@, i, size) && off == pre@[i].off && post@ == serve_fit(
            pre@,
            i,
            size,
        );
    assert forall|k: int|
        0 <= k < post@.len() implies ((#[trigger] post@[k]).end() <= ro || ro + rl
        <= post@[k].off) by {
        if pre@[i].size == size {
            let j = if k < i {
                k
            } else {
                k + 1
            };
            assert(post@[k] == pre@[j]);
            assert(pre@[j].end() <= ro || ro + rl <= pre@[j].off);
        } else if k == i {
            assert(post@[k].off == pre@[i].off + size && post@[k].end() == pre@[i].end());
            assert(pre@[i].end() <= ro || ro + rl <= pre@[i].off);
        } else {
            assert(post@[k] == pre@[k]);
            assert(pre@[k].end() <= ro || ro + rl <= pre@[k].off);
        }
    }
}

/// A byte range disjoint from every free extent and from the freed range
/// stays disjoint from every extent after the free: freeing only adds the
/// freed range to the free space.
pub proof fn lemma_freed_preserves_disjoint(
    pre: FreeList,
    post: FreeList,
    off: u32,
    size: u32,
    ro: u32,
    rl: int,
)
    requires
        freed(pre, post, off, size),
        pre.wf(),
        off + size <= pre.spec_max(),
        rl >= 1,
        forall|j: int|
            0 <= j < pre@.len() ==> ((#[trigger] pre@[j]).end() <= ro || ro + rl <= pre@[j].off),
        off + size <= ro || ro + rl <= off,
    ensures
        forall|k: int|
            0 <= k < post@.len() ==> ((#[trigger] post@[k]).end() <= ro || ro + rl <= post@[k].off),
{
    let s = pre@;
    let p = choose|p: int|
        #[trigger] ins_pos_at(s, p, off) && post@ == coalesced_insert(s, p, off, size);
    let lt = p > 0 && s[p - 1].end() == off;
    let rt = p < s.len() && off + size == s[p].off;
    assert forall|k: int|
        0 <= k < post@.len() implies ((#[trigger] post@[k]).end() <= ro || ro + rl
        <= post@[k].off) by {
        if lt && rt {
            if k == p - 1 {
                assert(post@[k].off == s[p - 1].off && post@[k].end() == s[p].end());
                assert(s[p - 1].end() <= ro || ro + rl <= s[p - 1].off);
                assert(s[p].end() <= ro || ro + rl <= s[p].off);
            } else {
                let a0 = if k < p {
                    k
                } else {
                    k + 1
                };
                assert(post@[k] == s[a0]);
                assert(s[a0].end() <= ro || ro + rl <= s[a0].off);
            }
        } else if lt {
            if k == p - 1 {
                assert(post@[k].off == s[p - 1].off && post@[k].end() == off + size);
                assert(s[p - 1].end() <= ro || ro + rl <= s[p - 1].off);
            } else {
                assert(post@[k] == s[k]);
                assert(s[k].end() <= ro || ro + rl <= s[k].off);
            }
        } else if rt {
            if k == p {
                assert(post@[k].off == off && post@[k].end() == s[p].end());
                assert(s[p].end() <= ro || ro + rl <= s[p].off);
            } else {
                assert(post@[k] == s[k]);
                assert(s[k].end() <= ro || ro + rl <= s[k].off);
            }
        } else {
            if k < p {
                assert(post@[k] == s[k]);
                assert(s[k].end() <= ro || ro + rl <= s[k].off);
            } else if k == p {
                assert(post@[k].off == off && post@[k].end() == off + size);
            } else {
                assert(post@[k] == s[k - 1]);
                assert(s[k - 1].end() <= ro || ro + rl <= s[k - 1].off);
            }
        }
    }
}

/// The range a request served lies within one extent that was free before.
pub proof fn lemma_requested_within_free(pre: FreeList, post: FreeList, size: u32, off: u32)
    requires
        requested(pre, post, size, off),
    ensures
        exists|i: int|
            0 <= i < pre@.len() && (#[trigger] pre@[i]).off <= off && off + size <= pre@[i].end(),
{
    let i = choose|i: int|
        #[trigger] first_fit_at(pre@, i, size) && off == pre@[i].off && post@ == serve_fit(
            pre@,
            i,
            size,
        );
    assert(0 <= i < pre@.len() && pre@[i].off <= off && off + size <= pre@[i].end());
}

/// The interior free bytes never exceed the high-water mark: every interior
/// extent lies wholly below it.
pub proof fn lemma_comp_le_used(fl: FreeList)
    requires
        fl.wf(),
    ensures
        0 <= fl.spec_comp_size() <= fl.spec_used_size(),
{
    let s = fl@;
    if fl.has_tail() {
        let front = s.drop_last();
        assert(ordered(front)) by {
            assert(forall|i: int| 0 <= i < front.len() ==> front[i] == s[i]);
        }
        lemma_sum_span(front);
        if front.len() > 0 {
            assert(front.last() == s[s.len() - 2]);
            assert(s[s.len() - 2].end() < s.last().off);
        }
    } else {
        lemma_sum_bounded(s, fl.spec_max() as int);
    }
}

/// A prefix of ordered extents is ordered.
pub proof fn lemma_ordered_take(s: Seq<Atag>, n: int)
    requires
        ordered(s),
        0 <= n <= s.len(),
    ensures
        ordered(s.take(n)),
{
    assert(forall|i: int| 0 <= i < n ==> s.take(n)[i] == s[i]);
}


/// How many extents one on-disk page of the free list holds.
pub const PAGE_ATAGS: usize = 127;

/// The byte size of one on-disk page of the free list.
pub const PAGE_SIZE: usize = 2048;

/// One on-disk page of the free list: up to 127 extents, the byte offset of
/// the overflow page that continues the list (zero when none does), and the
/// capacity the list was built over.
pub struct FreePage {
    pub atags: Vec<Atag>,
    pub overflow_off: u64,
    pub capacity: u64,
}

/// The first `n` of the page's 16-byte extent slots: offset and size as
/// 64-bit little-endian integers, zeroed beyond the extents held.
pub open spec fn slots_bytes(atags: Seq<Atag>, n: int) -> Seq<u8>
    decreases n,
{
    if n <= 0 {
        Seq::empty()
    } else {
        slots_bytes(atags, n - 1) + (if n - 1 < atags.len() {
            crate::codec::u64_le_bytes(atags[n - 1].off as u64) + crate::codec::u64_le_bytes(
                atags[n - 1].size as u64,
            )
        } else {
            Seq::new(16, |i: int| 0u8)
        })
    }
}

proof fn lemma_slots_bytes_len(atags: Seq<Atag>, n: int)
    requires
        n >= 0,
    ensures
        slots_bytes(atags, n).len() == 16 * n,
    decreases n,
{
    if n > 0 {
        lemma_slots_bytes_len(atags, n - 1);
    }
}

impl FreePage {
    /// The page's 2048-byte disk image: 127 extent slots, the overflow
    /// pointer, the capacity.
    pub open spec fn encoding(self) -> Seq<u8> {
        slots_bytes(self.atags@, PAGE_ATAGS as int) + crate::codec::u64_le_bytes(self.overflow_off)
            + crate::codec::u64_le_bytes(self.capacity)
    }

    /// Write the page's disk image.
    pub fn to_bytes(&self) -> (r: Vec<u8>)
        requires
            self.atags@.len() <= PAGE_ATAGS,
        ensures
            r@ == self.encoding(),
            r@.len() == PAGE_SIZE,
    {
        let mut out: Vec<u8> = Vec::new();
        let mut i: usize = 0;
        while i < PAGE_ATAGS
            invariant
                self.atags@.len() <= PAGE_ATAGS,
                0 <= i <= PAGE_ATAGS,
                out@ == slots_bytes(self.atags@, i as int),
                out@.len() == 16 * i,
            decreases PAGE_ATAGS - i,
        {
            if i < self.atags.len() {
                crate::codec::put_u64_le(&mut out, self.atags[i].off as u64);
                crate::codec::put_u64_le(&mut out, self.atags[i].size as u64);
                proof {
                    assert(out@ =~= slots_bytes(self.atags@, i + 1));
                }
            } else {
                let mut z: usize = 0;
                let ghost before = out@;
                while z < 16
                    invariant
                        0 <= z <= 16,
                        out@ == before + Seq::new(z as nat, |k: int| 0u8),
                    decreases 16 - z,
                {
                    out.push(0u8);
                    z = z + 1;
                    proof {
                        assert(out@ =~= before + Seq::new(z as nat, |k: int| 0u8));
                    }
                }
                proof {
                    assert(out@ =~= slots_bytes(self.atags@, i + 1));
                }
            }
            i = i + 1;
        }
        crate::codec::put_u64_le(&mut out, self.overflow_off);
        crate::codec::put_u64_le(&mut out, self.capacity);
        proof {
            assert(out@ =~= self.encoding());
            lemma_slots_bytes_len(self.atags@, PAGE_ATAGS as int);
        }
        out
    }
}

impl FreeList {
    /// Split the list into its on-disk pages: chunks of up to 127 extents in
    /// offset order, each page carrying the capacity, and each page but the
    /// last pointing at the byte offset of its successor as the pages lie
    /// back to back in a page file.
    pub fn split_for_persistence(&self) -> (r: Vec<FreePage>)
        requires
            self.wf(),
            self.spec_max() <= 0x2000000,
        ensures
            r@.len() >= 1,
            forall|p: int, k: int|
                0 <= p < r@.len() && 0 <= k < r@[p].atags@.len() ==> #[trigger] r@[p].atags@[k]
                    == self@[p * PAGE_ATAGS + k],
            forall|p: int|
                0 <= p < r@.len() ==> (#[trigger] r@[p]).atags@.len() == (if (p + 1) * PAGE_ATAGS
                    <= self@.len() {
                    PAGE_ATAGS as int
                } else {
                    self@.len() - p * PAGE_ATAGS
                }),
            forall|p: int|
                0 <= p < r@.len() ==> (#[trigger] r@[p]).capacity == self.spec_max()
                    && r@[p].overflow_off == (if p + 1 < r@.len() {
                    ((p + 1) * PAGE_SIZE) as u64
                } else {
                    0u64
                }),
            r@.len() == (if self@.len() <= PAGE_ATAGS {
                1int
            } else {
                (self@.len() + PAGE_ATAGS - 1) as int / PAGE_ATAGS as int
            }),
    {
        let n = self.atags.len();
        proof {
            lemma_sum_bounded(self@, self.spec_max() as int);
            lemma_sum_span(self@);
            if self@.len() > 0 {
                assert(sum_sizes(self@) + self@.len() <= self@.last().end() - self@[0].off + 1);
            }
            assert(n <= self.spec_max() + 1);
            crate::util::lemma_roundup_bounds(n as int, PAGE_ATAGS as int);
        }
        let total: usize = if n <= PAGE_ATAGS {
            1
        } else {
            (n + (PAGE_ATAGS - 1)) / PAGE_ATAGS
        };
        proof {
            assert(total * PAGE_ATAGS < usize::MAX && n <= total * PAGE_ATAGS && total * PAGE_SIZE
                <= usize::MAX) by (nonlinear_arith)
                requires
                    n <= 0x2000001,
                    total == (if n <= 127int {
                        1int
                    } else {
                        (n + 126) / 127int
                    }),
                    PAGE_ATAGS == 127,
                    PAGE_SIZE == 2048,
                    usize::MAX >= u32::MAX,
            ;
            assert(total <= 0x2000001);
        }
        let mut out: Vec<FreePage> = Vec::new();
        let mut p: usize = 0;
        while p < total
            invariant
                self.wf(),
                n == self@.len(),
                total == (if n <= PAGE_ATAGS {
                    1int
                } else {
                    (n + PAGE_ATAGS - 1) as int / PAGE_ATAGS as int
                }),
                total * PAGE_ATAGS < usize::MAX,
                total * PAGE_SIZE <= usize::MAX,
                n <= total * PAGE_ATAGS,
                0 <= p <= total,
                out@.len() == p,
                forall|q: int, k: int|
                    0 <= q < p && 0 <= k < out@[q].atags@.len() ==> #[trigger] out@[q].atags@[k]
                        == self@[q * PAGE_ATAGS + k],
                forall|q: int|
                    0 <= q < p ==> (#[trigger] out@[q]).atags@.len() == (if (q + 1) * PAGE_ATAGS
                        <= n {
                        PAGE_ATAGS as int
                    } else {
                        n - q * PAGE_ATAGS
                    }),
                forall|q: int|
                    0 <= q < p ==> (#[trigger] out@[q]).capacity == self.spec_max()
                        && out@[q].overflow_off == (if q + 1 < total {
                        ((q + 1) * PAGE_SIZE) as u64
                    } else {
                        0u64
                    }),
            decreases total - p,
        {
            let start = p * PAGE_ATAGS;
            let stop: usize = if start + PAGE_ATAGS <= n {
                start + PAGE_ATAGS
            } else {
                n
            };
            let mut chunk: Vec<Atag> = Vec::new();
            let mut k: usize = start;
            while k < stop
                invariant
                    self.wf(),
                    n == self@.len(),
                    start <= k <= stop <= n,
                    chunk@.len() == k - start,
                    forall|j: int|
                        0 <= j < chunk@.len() ==> #[trigger] chunk@[j] == self@[start + j],
                decreases stop - k,
            {
                chunk.push(self.atags[k]);
                k = k + 1;
            }
            let overflow_off: u64 = if p + 1 < total {
                ((p + 1) * PAGE_SIZE) as u64
            } else {
                0
            };
            out.push(FreePage { atags: chunk, overflow_off, capacity: self.maxfilesize as u64 });
            p = p + 1;
        }
        out
    }
}

} // verus!
