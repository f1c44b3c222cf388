use vstd::prelude::*;
use crate::codec::{
    get_u16_le, get_u32_le, get_u64_le, lemma_u16_le_round_trip, lemma_u32_le_round_trip,
    lemma_u64_le_round_trip, parse_u16_le, parse_u32_le, parse_u64_le, put_u16_le, put_u32_le,
    put_u64_le, u16_le_bytes, u32_le_bytes, u64_le_bytes,
};
use crate::errors::Error;
use crate::util::{lemma_roundup_bounds, roundup, spec_roundup, Timestamp};

verus! {

/// Records are padded out to this boundary in a segment file, so every
/// record starts on a multiple of it.
pub const ALIGN: usize = 16;

/// One key-value pair as persisted in a segment file.
#[derive(Clone, Debug)]
pub struct Record {
    pub key: Vec<u8>,
    pub value: Vec<u8>,
    pub time: Timestamp,
}

/// What a byte string holds at a record boundary: too few bytes for the
/// sizes its header claims, a gap marker (zero keysize), or a record.
pub enum ParsedRecord {
    TooShort,
    Gap,
    Rec { key: Seq<u8>, value: Seq<u8>, time: u64 },
}

/// The record that starts at the first byte of `s`, if any. A keysize of
/// zero marks a gap: the space of a record that was deleted in place.
pub open spec fn parse_record(s: Seq<u8>) -> ParsedRecord {
    if s.len() < 2 {
        ParsedRecord::TooShort
    } else if parse_u16_le(s, 0) == 0 {
        ParsedRecord::Gap
    } else if s.len() < 14 {
        ParsedRecord::TooShort
    } else {
        let ks = parse_u16_le(s, 0) as int;
        let vs = parse_u32_le(s, 2) as int;
        if s.len() < 14 + ks + vs {
            ParsedRecord::TooShort
        } else {
            ParsedRecord::Rec {
                key: s.subrange(14, 14 + ks),
                value: s.subrange(14 + ks, 14 + ks + vs),
                time: parse_u64_le(s, 6),
            }
        }
    }
}

impl Record {
    /// Keys hold 1 to 65535 bytes; values hold at least one byte and their
    /// length fits the 32-bit size field.
    pub open spec fn valid(self) -> bool {
        &&& 1 <= self.key@.len() <= 0xffff
        &&& 1 <= self.value@.len() <= 0xffffffff
    }

    /// The number of meaningful bytes of the record's disk image: the
    /// 14-byte header, then the key and the value.
    pub open spec fn spec_size(self) -> int {
        14 + self.key@.len() as int + self.value@.len() as int
    }

    /// The bytes the record occupies on disk: its size padded up to the
    /// alignment boundary.
    pub open spec fn spec_alloc_size(self) -> int {
        spec_roundup(self.spec_size(), ALIGN as int)
    }

    /// The record's disk image: keysize and valuesize, the timestamp, the
    /// key bytes, the value bytes, and zero padding up to the allocation
    /// size.
    pub open spec fn encoding(self) -> Seq<u8> {
        u16_le_bytes(self.key@.len() as u16) + u32_le_bytes(self.value@.len() as u32)
            + u64_le_bytes(self.time) + self.key@ + self.value@
            + Seq::new((self.spec_alloc_size() - self.spec_size()) as nat, |i: int| 0u8)
    }

    pub fn new(key: Vec<u8>, value: Vec<u8>, time: Timestamp) -> (r: Record)
        ensures
            r.key == key,
            r.value == value,
            r.time == time,
    {
        Record { key, value, time }
    }

    /// The number of meaningful bytes of the record's disk image.
    pub fn size(&self) -> (r: usize)
        requires
            self.spec_size() <= usize::MAX,
        ensures
            r == self.spec_size(),
    {
        2 + 4 + 8 + self.key.len() + self.value.len()
    }

    /// The bytes the record occupies on disk.
    pub fn alloc_size(&self) -> (r: usize)
        requires
            self.spec_size() + ALIGN <= usize::MAX,
        ensures
            r == self.spec_alloc_size(),
    {
        roundup(self.size(), ALIGN)
    }

    /// Append the record's disk image to `out`.
    pub fn write_bytes(&self, out: &mut Vec<u8>)
        requires
            self.valid(),
            old(out)@.len() + self.spec_size() + ALIGN <= usize::MAX,
        ensures
            final(out)@ =~= old(out)@ + self.encoding(),
    {
        let start = out.len();
        put_u16_le(out, self.key.len() as u16);
        put_u32_le(out, self.value.len() as u32);
        put_u64_le(out, self.time);
        out.extend_from_slice(self.key.as_slice());
        out.extend_from_slice(self.value.as_slice());
        let ghost body = old(out)@ + u16_le_bytes(self.key@.len() as u16)
            + u32_le_bytes(self.value@.len() as u32) + u64_le_bytes(self.time) + self.key@
            + self.value@;
        proof {
            assert(out@ =~= body);
        }
        proof {
            lemma_roundup_bounds(self.spec_size(), ALIGN as int);
            assert(body.len() == old(out)@.len() + self.spec_size());
        }
        let pad_to = start + roundup(self.size(), ALIGN);
        while out.len() < pad_to
            invariant
                body.len() <= out@.len() <= pad_to,
                pad_to <= usize::MAX,
                out@.subrange(0, body.len() as int) =~= body,
                forall|i: int| body.len() <= i < out@.len() ==> out@[i] == 0u8,
            decreases pad_to - out@.len(),
        {
            out.push(0u8);
            proof {
                assert(out@.subrange(0, body.len() as int) =~= body);
            }
        }
        proof {
            lemma_roundup_bounds(self.spec_size(), ALIGN as int);
            let enc = self.encoding();
            let oldlen = old(out)@.len() as int;
            assert(enc.len() == self.spec_alloc_size());
            assert(out@.len() == oldlen + enc.len());
            assert forall|i: int| 0 <= i < out@.len() implies out@[i] == (old(out)@ + enc)[i] by {
                assert(out@.subrange(0, body.len() as int) =~= body);
                if i < body.len() {
                    assert(out@[i] == out@.subrange(0, body.len() as int)[i]);
                    assert(out@[i] == body[i]);
                } else {
                    assert(out@[i] == 0u8);
                    assert((old(out)@ + enc)[i] == enc[i - oldlen]);
                    assert(enc[i - oldlen] == 0u8);
                }
            }
            assert(out@ =~= old(out)@ + enc);
        }
    }

    /// The record's disk image.
    pub fn to_bytes(&self) -> (r: Vec<u8>)
        requires
            self.valid(),
            self.spec_size() + ALIGN <= usize::MAX,
        ensures
            r@ =~= self.encoding(),
            r@.len() == self.spec_alloc_size(),
    {
        let mut out: Vec<u8> = Vec::new();
        self.write_bytes(&mut out);
        proof {
            lemma_roundup_bounds(self.spec_size(), ALIGN as int);
        }
        out
    }

    /// Decode the record that starts at `off` in `buf`. A zero keysize is a
    /// gap marker and yields `None`; bytes too short for the sizes the
    /// header claims are refused.
    pub fn read_from(buf: &Vec<u8>, off: usize) -> (r: Result<Option<Record>, Error>)
        requires
            off <= buf@.len(),
        ensures
            match parse_record(buf@.skip(off as int)) {
                ParsedRecord::TooShort => r == Err::<Option<Record>, Error>(Error::ShortRead),
                ParsedRecord::Gap => r == Ok::<Option<Record>, Error>(None::<Record>),
                ParsedRecord::Rec { key, value, time } => (r matches Ok(o) && o matches Some(rec)
                    && rec.key@ == key && rec.value@ == value && rec.time == time),
            },
    {
        let len = buf.len();
        let ghost t = buf@.skip(off as int);
        proof {
            assert(forall|k: int| 0 <= k < t.len() ==> t[k] == buf@[off + k]);
        }
        if len - off < 2 {
            return Err(Error::ShortRead);
        }
        let ks = get_u16_le(buf, off);
        proof {
            assert(parse_u16_le(buf@, off as int) == parse_u16_le(t, 0));
        }
        if ks == 0 {
            return Ok(None);
        }
        if len - off < 14 {
            return Err(Error::ShortRead);
        }
        let vs = get_u32_le(buf, off + 2);
        let time = get_u64_le(buf, off + 6);
        proof {
            assert(parse_u32_le(buf@, off + 2) == parse_u32_le(t, 2));
            assert(parse_u64_le(buf@, off + 6) == parse_u64_le(t, 6));
        }
        if ((len - off - 14) as u64) < ks as u64 + vs as u64 {
            return Err(Error::ShortRead);
        }
        let kstart = off + 14;
        let kend = kstart + ks as usize;
        let vend = kend + vs as usize;
        let mut key: Vec<u8> = Vec::new();
        let mut i = kstart;
        while i < kend
            invariant
                kstart <= i <= kend <= vend <= buf@.len(),
                key@ =~= buf@.subrange(kstart as int, i as int),
            decreases kend - i,
        {
            key.push(buf[i]);
            i = i + 1;
            proof {
                assert(key@ =~= buf@.subrange(kstart as int, i as int));
            }
        }
        let mut value: Vec<u8> = Vec::new();
        let mut j = kend;
        while j < vend
            invariant
                kend <= j <= vend <= buf@.len(),
                value@ =~= buf@.subrange(kend as int, j as int),
            decreases vend - j,
        {
            value.push(buf[j]);
            j = j + 1;
            proof {
                assert(value@ =~= buf@.subrange(kend as int, j as int));
            }
        }
        proof {
            assert(key@ =~= t.subrange(14, 14 + ks as int));
            assert(value@ =~= t.subrange(14 + ks as int, 14 + ks as int + vs as int));
        }
        Ok(Some(Record { key, value, time }))
    }
}

/// One entry of a segment's sidecar index file: a fixed 18-byte row
/// describing a record and where in the segment it lies.
#[derive(Clone, Copy, Debug, PartialEq, Eq, Structural)]
pub struct Index {
    pub keysize: u16,
    pub valuesize: u32,
    pub offset: u32,
    pub time: Timestamp,
}

/// What 18 bytes of an index file hold: too few bytes, an unused slot (zero
/// keysize or zero valuesize), or an entry.
pub enum ParsedIndex {
    TooShort,
    Unused,
    Entry(Index),
}

/// The index entry that starts at the first byte of `s`, if any.
pub open spec fn parse_index(s: Seq<u8>) -> ParsedIndex {
    if s.len() < 18 {
        ParsedIndex::TooShort
    } else if parse_u16_le(s, 0) == 0 || parse_u32_le(s, 2) == 0 {
        ParsedIndex::Unused
    } else {
        ParsedIndex::Entry(Index {
            keysize: parse_u16_le(s, 0),
            valuesize: parse_u32_le(s, 2),
            offset: parse_u32_le(s, 6),
            time: parse_u64_le(s, 10),
        })
    }
}

impl Index {
    /// The entry's disk image: keysize, valuesize, offset in the segment,
    /// timestamp, all little-endian, 18 bytes with no padding.
    pub open spec fn encoding(self) -> Seq<u8> {
        u16_le_bytes(self.keysize) + u32_le_bytes(self.valuesize) + u32_le_bytes(self.offset)
            + u64_le_bytes(self.time)
    }

    /// The entry describing `record` at `offset` in its segment.
    pub fn new(record: &Record, offset: u32) -> (r: Index)
        requires
            record.key@.len() <= 0xffff,
            record.value@.len() <= 0xffffffff,
        ensures
            r.keysize == record.key@.len(),
            r.valuesize == record.value@.len(),
            r.offset == offset,
            r.time == record.time,
    {
        Index {
            keysize: record.key.len() as u16,
            valuesize: record.value.len() as u32,
            offset,
            time: record.time,
        }
    }

    /// The byte size of an entry on disk.
    pub fn size(&self) -> (r: usize)
        ensures
            r == 18,
            r == self.encoding().len(),
    {
        2 + 4 + 4 + 8
    }

    /// Append the entry's disk image to `out`.
    pub fn write_bytes(&self, out: &mut Vec<u8>)
        ensures
            final(out)@ =~= old(out)@ + self.encoding(),
    {
        put_u16_le(out, self.keysize);
        put_u32_le(out, self.valuesize);
        put_u32_le(out, self.offset);
        put_u64_le(out, self.time);
    }

    /// The entry's disk image.
    pub fn to_bytes(&self) -> (r: Vec<u8>)
        ensures
            r@ =~= self.encoding(),
            r@.len() == 18,
    {
        let mut out: Vec<u8> = Vec::new();
        self.write_bytes(&mut out);
        out
    }

    /// Decode the entry that starts at `off` in `buf`. A zero keysize or
    /// valuesize marks a slot that holds no entry and yields `None`.
    pub fn read_from(buf: &Vec<u8>, off: usize) -> (r: Result<Option<Index>, Error>)
        requires
            off <= buf@.len(),
        ensures
            match parse_index(buf@.skip(off as int)) {
                ParsedIndex::TooShort => r == Err::<Option<Index>, Error>(Error::ShortRead),
                ParsedIndex::Unused => r == Ok::<Option<Index>, Error>(None::<Index>),
                ParsedIndex::Entry(e) => r == Ok::<Option<Index>, Error>(Some(e)),
            },
    {
        let len = buf.len();
        let ghost t = buf@.skip(off as int);
        proof {
            assert(forall|k: int| 0 <= k < t.len() ==> t[k] == buf@[off + k]);
        }
        if len - off < 18 {
            return Err(Error::ShortRead);
        }
        let keysize = get_u16_le(buf, off);
        let valuesize = get_u32_le(buf, off + 2);
        let offset = get_u32_le(buf, off + 6);
        let time = get_u64_le(buf, off + 10);
        proof {
            assert(parse_u16_le(buf@, off as int) == parse_u16_le(t, 0));
            assert(parse_u32_le(buf@, off + 2) == parse_u32_le(t, 2));
            assert(parse_u32_le(buf@, off + 6) == parse_u32_le(t, 6));
            assert(parse_u64_le(buf@, off + 10) == parse_u64_le(t, 10));
        }
        if keysize == 0 || valuesize == 0 {
            return Ok(None);
        }
        Ok(Some(Index { keysize, valuesize, offset, time }))
    }
}

/// Decoding an index entry's disk image yields the entry back; an entry
/// whose keysize or valuesize is zero reads back as an unused slot.
pub proof fn lemma_index_round_trip(idx: Index)
    ensures
        idx.keysize >= 1 && idx.valuesize >= 1 ==> parse_index(idx.encoding())
            == ParsedIndex::Entry(idx),
        idx.keysize == 0 || idx.valuesize == 0 ==> parse_index(idx.encoding())
            == ParsedIndex::Unused,
{
    let e = idx.encoding();
    assert(e.len() == 18);
    assert(e.subrange(0, 2) =~= u16_le_bytes(idx.keysize));
    lemma_u16_le_round_trip(e, 0, idx.keysize);
    assert(e.subrange(2, 6) =~= u32_le_bytes(idx.valuesize));
    lemma_u32_le_round_trip(e, 2, idx.valuesize);
    assert(e.subrange(6, 10) =~= u32_le_bytes(idx.offset));
    lemma_u32_le_round_trip(e, 6, idx.offset);
    assert(e.subrange(10, 18) =~= u64_le_bytes(idx.time));
    lemma_u64_le_round_trip(e, 10, idx.time);
}

/// One record found by a scan of a segment: its contents and the offset it
/// starts at.
pub struct SegRec {
    pub key: Seq<u8>,
    pub value: Seq<u8>,
    pub time: u64,
    pub off: int,
}

/// The live records of segment bytes `s` from `off` up to `end`, in file
/// order, or `None` when a record header claims more bytes than the file
/// holds. A gap marker advances the scan by two bytes and then realigns to
/// the next alignment boundary: one step of `ALIGN`, since records and gaps
/// start aligned and gaps are zeroed over their whole allocation.
pub open spec fn scan_segment(s: Seq<u8>, off: int, end: int) -> Option<Seq<SegRec>>
    decreases (if end - off >= 0 { end - off } else { 0 }),
{
    if off >= end {
        Some(Seq::empty())
    } else {
        match parse_record(s.skip(off)) {
            ParsedRecord::TooShort => None,
            ParsedRecord::Gap => scan_segment(s, off + ALIGN as int, end),
            ParsedRecord::Rec { key, value, time } => {
                let alloc = spec_roundup(14 + key.len() as int + value.len() as int, ALIGN as int);
                match scan_segment(s, off + alloc, end) {
                    None => None,
                    Some(rest) => Some(
                        seq![SegRec { key, value, time, off }] + rest,
                    ),
                }
            },
        }
    }
}

/// The bytes the scanned records occupy together: the sum of their
/// allocation sizes.
pub open spec fn total_alloc(recs: Seq<SegRec>) -> int
    decreases recs.len(),
{
    if recs.len() == 0 {
        0
    } else {
        total_alloc(recs.drop_last()) + spec_roundup(
            14 + recs.last().key.len() as int + recs.last().value.len() as int,
            ALIGN as int,
        )
    }
}

/// Prefixing the records already scanned onto what a scan of the rest
/// yields.
pub open spec fn scan_with_prefix(done: Seq<SegRec>, rest: Option<Seq<SegRec>>) -> Option<
    Seq<SegRec>,
> {
    match rest {
        None => None,
        Some(r) => Some(done + r),
    }
}

/// The live contents of one segment file: every record that is not a gap,
/// in file order, and the bytes they occupy together.
#[derive(Debug)]
pub struct Recordfile {
    pub fileid: Timestamp,
    pub size: u64,
    pub records: Vec<Record>,
}

impl Recordfile {
    /// Scan the segment bytes from offset zero up to `endoff`, skipping gap
    /// markers, and collect the live records in file order.
    pub fn read_from(buf: &Vec<u8>, fileid: Timestamp, endoff: u32) -> (r: Result<
        Recordfile,
        Error,
    >)
        requires
            endoff <= buf@.len(),
            buf@.len() + ALIGN <= usize::MAX,
        ensures
            match scan_segment(buf@, 0, endoff as int) {
                None => r == Err::<Recordfile, Error>(Error::ShortRead),
                Some(recs) => (r matches Ok(rf) && rf.fileid == fileid && rf.records@.len()
                    == recs.len() && rf.size == total_alloc(recs) && (forall|i: int|
                    0 <= i < recs.len() ==> ((#[trigger] rf.records@[i]).key@ == recs[i].key
                        && rf.records@[i].value@ == recs[i].value && rf.records@[i].time
                        == recs[i].time))),
            },
    {
        let end = endoff as usize;
        let mut records: Vec<Record> = Vec::new();
        let mut size: u64 = 0;
        let mut off: usize = 0;
        let ghost mut goff: int = 0;
        let ghost mut done: Seq<SegRec> = Seq::empty();
        while off < end
            invariant
                end == endoff,
                end <= buf@.len(),
                buf@.len() + ALIGN <= usize::MAX,
                0 <= goff <= buf@.len() + ALIGN,
                off == (if goff >= end { end as int } else { goff }),
                scan_segment(buf@, 0, end as int) == scan_with_prefix(
                    done,
                    scan_segment(buf@, goff, end as int),
                ),
                records@.len() == done.len(),
                size == total_alloc(done),
                size <= goff,
                forall|i: int|
                    0 <= i < done.len() ==> ((#[trigger] records@[i]).key@ == done[i].key
                        && records@[i].value@ == done[i].value && records@[i].time
                        == done[i].time),
            decreases end - off,
        {
            proof {
                assert(goff == off);
            }
            let parsed = match Record::read_from(buf, off) {
                Ok(p) => p,
                Err(_) => {
                    proof {
                        assert(parse_record(buf@.skip(goff)) is TooShort);
                        assert(scan_segment(buf@, goff, end as int) is None);
                    }
                    return Err(Error::ShortRead);
                },
            };
            match parsed {
                None => {
                    proof {
                        goff = goff + ALIGN as int;
                    }
                    off = off + ALIGN;
                    if off > end {
                        off = end;
                    }
                },
                Some(rec) => {
                    let ghost prev_off = goff;
                    let ghost x = SegRec {
                        key: rec.key@,
                        value: rec.value@,
                        time: rec.time,
                        off: prev_off,
                    };
                    proof {
                        assert(rec.spec_size() <= 14 + buf@.len());
                    }
                    let alloc = roundup(rec.size(), ALIGN);
                    proof {
                        lemma_roundup_bounds(rec.spec_size(), ALIGN as int);
                        assert(parse_record(buf@.skip(goff)) == (ParsedRecord::Rec {
                            key: rec.key@,
                            value: rec.value@,
                            time: rec.time,
                        }));
                        assert(buf@.skip(goff).len() >= 14 + rec.key@.len() + rec.value@.len());
                        lemma_total_alloc_push(done, x);
                    }
                    size = size + alloc as u64;
                    proof {
                        let rest = scan_segment(buf@, prev_off + alloc, end as int);
                        match rest {
                            None => {},
                            Some(rs) => {
                                assert((done + (seq![x] + rs)) =~= (done.push(x) + rs));
                            },
                        }
                        done = done.push(x);
                        goff = goff + alloc as int;
                    }
                    if off + alloc > end {
                        off = end;
                    } else {
                        off = off + alloc;
                    }
                    records.push(rec);
                },
            }
        }
        proof {
            assert(goff >= end);
            assert(scan_segment(buf@, goff, end as int) == Some(Seq::<SegRec>::empty()));
            assert(done + Seq::<SegRec>::empty() =~= done);
        }
        Ok(Recordfile { fileid, size, records })
    }
}

pub proof fn lemma_total_alloc_push(recs: Seq<SegRec>, x: SegRec)
    ensures
        total_alloc(recs.push(x)) == total_alloc(recs) + spec_roundup(
            14 + x.key.len() as int + x.value.len() as int,
            ALIGN as int,
        ),
{
    assert(recs.push(x).drop_last() =~= recs);
    assert(recs.push(x).last() == x);
}

/// One write waiting to be flushed: a fresh record image, or a gap marker
/// zeroing out the whole allocation of a record deleted in place.
#[derive(Clone, Debug)]
pub enum Staged {
    Rec(Record),
    Gap(usize),
}

impl Staged {
    /// The bytes the host writes at the staged offset.
    pub open spec fn image(self) -> Seq<u8> {
        match self {
            Staged::Rec(r) => r.encoding(),
            Staged::Gap(n) => Seq::new(n as nat, |i: int| 0u8),
        }
    }

    /// A record image carries valid sizes; a gap covers at least one
    /// alignment step and stays aligned.
    pub open spec fn valid(self) -> bool {
        match self {
            Staged::Rec(r) => r.valid() && r.spec_size() + ALIGN <= usize::MAX,
            Staged::Gap(n) => n >= ALIGN && n as int % (ALIGN as int) == 0,
        }
    }
}

/// The index rows that describe the staged record writes of one segment, in
/// staging order; gap writes leave no row.
pub open spec fn index_rows(batch: Seq<(u32, Staged)>) -> Seq<u8>
    decreases batch.len(),
{
    if batch.len() == 0 {
        Seq::empty()
    } else {
        index_rows(batch.drop_last()) + (match batch.last().1 {
            Staged::Rec(r) => (Index {
                keysize: r.key@.len() as u16,
                valuesize: r.value@.len() as u32,
                offset: batch.last().0,
                time: r.time,
            }).encoding(),
            Staged::Gap(_) => Seq::empty(),
        })
    }
}

/// How staging one write for `fileid` at `offset` turns `pre` into `post`:
/// the write joined that segment's batch in staging order (a segment not yet
/// staged for got a fresh batch at the end), and every other batch is
/// untouched.
pub open spec fn staged_one(
    pre: RecordWriter,
    post: RecordWriter,
    fileid: u64,
    offset: u32,
    st: Staged,
) -> bool {
    exists|i: int|
        0 <= i < post.batch_count() && #[trigger] post.fileid_at(i) == fileid && post.staged_at(i)
            == (if i < pre.batch_count() {
            pre.staged_at(i)
        } else {
            Seq::<(u32, Staged)>::empty()
        }).push((offset, st)) && post.batch_count() == (if i < pre.batch_count() {
            pre.batch_count()
        } else {
            pre.batch_count() + 1
        }) && (forall|j: int|
            0 <= j < pre.batch_count() && j != i ==> #[trigger] post.fileid_at(j) == pre.fileid_at(
                j,
            ) && post.staged_at(j) == pre.staged_at(j)) && (i < pre.batch_count()
            ==> pre.fileid_at(i) == fileid) && (i >= pre.batch_count() ==> (forall|j: int|
            0 <= j < pre.batch_count() ==> #[trigger] pre.fileid_at(j) != fileid))
}

/// The write-behind buffer: pending writes grouped into one batch per
/// segment, so a flush touches each segment file once.
#[derive(Debug)]
pub struct RecordWriter {
    recordmap: Vec<(u64, Vec<(u32, Staged)>)>,
}

impl RecordWriter {
    /// How many segments have staged writes.
    pub closed spec fn batch_count(&self) -> int {
        self.recordmap@.len() as int
    }

    /// The segment a batch belongs to.
    pub closed spec fn fileid_at(&self, i: int) -> u64 {
        self.recordmap@[i].0
    }

    /// The writes staged for a batch, in staging order.
    pub closed spec fn staged_at(&self, i: int) -> Seq<(u32, Staged)> {
        self.recordmap@[i].1@
    }

    /// One batch per segment.
    pub open spec fn wf(&self) -> bool {
        forall|i: int, j: int|
            0 <= i < j < self.batch_count() ==> #[trigger] self.fileid_at(i)
                != #[trigger] self.fileid_at(j)
    }

    /// Every staged write is a valid image.
    pub open spec fn all_valid(&self) -> bool {
        forall|i: int, k: int|
            0 <= i < self.batch_count() && 0 <= k < self.staged_at(i).len()
                ==> (#[trigger] self.staged_at(i)[k]).1.valid()
    }

    /// An empty buffer.
    pub fn new() -> (r: RecordWriter)
        ensures
            r.batch_count() == 0,
            r.wf(),
            r.all_valid(),
    {
        RecordWriter { recordmap: Vec::new() }
    }

    /// Stage one write for `fileid` at `offset`: it joins that segment's
    /// batch in staging order, and a segment not yet staged for gets a fresh
    /// batch at the end.
    pub fn stage(&mut self, fileid: u64, offset: u32, st: Staged) -> (r: Result<(), Error>)
        requires
            old(self).wf(),
        ensures
            r is Ok,
            final(self).wf(),
            old(self).all_valid() && st.valid() ==> final(self).all_valid(),
            staged_one(*old(self), *final(self), fileid, offset, st),
    {
        let n = self.recordmap.len();
        let mut i: usize = 0;
        while i < n && self.recordmap[i].0 != fileid
            invariant
                *self == *old(self),
                n == self.recordmap@.len(),
                0 <= i <= n,
                forall|j: int| 0 <= j < i ==> #[trigger] self.fileid_at(j) != fileid,
            decreases n - i,
        {
            i = i + 1;
        }
        if i == n {
            let mut batch: Vec<(u32, Staged)> = Vec::new();
            batch.push((offset, st));
            proof {
                assert(batch@ =~= Seq::<(u32, Staged)>::empty().push((offset, st)));
            }
            self.recordmap.push((fileid, batch));
            proof {
                assert(self.batch_count() == old(self).batch_count() + 1);
                assert(self.fileid_at(n as int) == fileid);
                assert(self.staged_at(n as int) == batch@);
                assert(forall|j: int|
                    0 <= j < n ==> #[trigger] self.fileid_at(j) == old(self).fileid_at(j)
                        && #[trigger] self.staged_at(j) == old(self).staged_at(j));
                assert forall|a: int, b: int|
                    0 <= a < b < self.batch_count() implies #[trigger] self.fileid_at(a)
                    != #[trigger] self.fileid_at(b) by {
                    if b < n as int {
                        assert(old(self).fileid_at(a) != old(self).fileid_at(b));
                    } else {
                        assert(self.fileid_at(a) == old(self).fileid_at(a));
                        assert(old(self).fileid_at(a) != fileid);
                    }
                }
                if old(self).all_valid() && st.valid() {
                    assert forall|bi: int, k: int|
                        0 <= bi < self.batch_count() && 0 <= k < self.staged_at(bi).len() implies (
                    #[trigger] self.staged_at(bi)[k]).1.valid() by {
                        if bi < n as int {
                            assert(old(self).staged_at(bi)[k].1.valid());
                        } else {
                            assert(self.staged_at(bi)[k] == (offset, st));
                        }
                    }
                }
            }
        } else {
            self.recordmap[i].1.push((offset, st));
            proof {
                assert(self.batch_count() == old(self).batch_count());
                assert(self.fileid_at(i as int) == fileid);
                assert(self.staged_at(i as int) =~= old(self).staged_at(i as int).push(
                    (offset, st),
                ));
                assert(forall|j: int|
                    0 <= j < n && j != i ==> #[trigger] self.fileid_at(j) == old(self).fileid_at(j)
                        && #[trigger] self.staged_at(j) == old(self).staged_at(j));
                assert forall|a: int, b: int|
                    0 <= a < b < self.batch_count() implies #[trigger] self.fileid_at(a)
                    != #[trigger] self.fileid_at(b) by {
                    assert(self.fileid_at(a) == old(self).fileid_at(a));
                    assert(self.fileid_at(b) == old(self).fileid_at(b));
                    assert(old(self).fileid_at(a) != old(self).fileid_at(b));
                }
                if old(self).all_valid() && st.valid() {
                    assert forall|bi: int, k: int|
                        0 <= bi < self.batch_count() && 0 <= k < self.staged_at(bi).len() implies (
                    #[trigger] self.staged_at(bi)[k]).1.valid() by {
                        if bi == i as int && k == self.staged_at(bi).len() - 1 {
                            assert(self.staged_at(bi)[k] == (offset, st));
                        } else if bi == i as int {
                            assert(self.staged_at(bi)[k] == old(self).staged_at(bi)[k]);
                            assert(old(self).staged_at(bi)[k].1.valid());
                        } else {
                            assert(old(self).staged_at(bi)[k].1.valid());
                        }
                    }
                }
            }
        }
        Ok(())
    }

    /// Stage a fresh record image; used for appends and relocations.
    pub fn insert_record(&mut self, fileid: u64, offset: u32, record: Record) -> (r: Result<
        (),
        Error,
    >)
        requires
            old(self).wf(),
        ensures
            r is Ok,
            final(self).wf(),
            old(self).all_valid() && Staged::Rec(record).valid() ==> final(self).all_valid(),
            staged_one(*old(self), *final(self), fileid, offset, Staged::Rec(record)),
    {
        self.stage(fileid, offset, Staged::Rec(record))
    }

    /// The index rows describing the staged record writes, one byte image
    /// per staged segment: what the host appends to each segment's sidecar
    /// index file. Flushed and forced before the data writes, so that a
    /// crash can lose a staged record but never leave one invisible to
    /// recovery.
    pub fn index_images(&self) -> (r: Vec<(u64, Vec<u8>)>)
        requires
            self.all_valid(),
        ensures
            r@.len() == self.batch_count(),
            forall|i: int|
                0 <= i < r@.len() ==> (#[trigger] r@[i]).0 == self.fileid_at(i) && r@[i].1@
                    == index_rows(self.staged_at(i)),
    {
        let mut out: Vec<(u64, Vec<u8>)> = Vec::new();
        let n = self.recordmap.len();
        let mut i: usize = 0;
        while i < n
            invariant
                self.all_valid(),
                n == self.batch_count(),
                0 <= i <= n,
                out@.len() == i,
                forall|j: int|
                    0 <= j < i ==> (#[trigger] out@[j]).0 == self.fileid_at(j) && out@[j].1@
                        == index_rows(self.staged_at(j)),
            decreases n - i,
        {
            let batch = &self.recordmap[i].1;
            let mut img: Vec<u8> = Vec::new();
            let m = batch.len();
            let mut k: usize = 0;
            while k < m
                invariant
                    self.all_valid(),
                    0 <= (i as int) < self.batch_count(),
                    batch@ == self.staged_at(i as int),
                    m == batch@.len(),
                    0 <= k <= m,
                    img@ == index_rows(batch@.take(k as int)),
                decreases m - k,
            {
                proof {
                    assert(batch@.take(k + 1).drop_last() =~= batch@.take(k as int));
                    assert(batch@.take(k + 1).last() == batch@[k as int]);
                    assert(batch@[k as int].1.valid());
                }
                match &batch[k] {
                    (off, Staged::Rec(rec)) => {
                        let idx = Index::new(rec, *off);
                        idx.write_bytes(&mut img);
                    },
                    (_, Staged::Gap(_)) => {
                        proof {
                            assert(img@ =~= img@ + Seq::<u8>::empty());
                        }
                    },
                }
                k = k + 1;
            }
            proof {
                assert(batch@.take(m as int) =~= batch@);
            }
            out.push((self.recordmap[i].0, img));
            i = i + 1;
        }
        out
    }

    /// Reserve room for a record: its padded size, served from the active
    /// segment of the registry, or from a newborn one when the active
    /// segment is full. Fails exactly when no segment could ever hold the
    /// record.
    pub fn get_offset(
        &self,
        pool: &mut crate::filepool::FilePool,
        record: &Record,
        now: u64,
    ) -> (r: Result<(Timestamp, u32), Error>)
        requires
            old(pool).wf(),
            record.valid(),
            old(pool).spec_lastfileid() < u64::MAX,
        ensures
            final(pool).wf(),
            r is Ok <==> record.spec_alloc_size() <= crate::filepool::MAX_FILESIZE,
            match r {
                Ok((fileid, offset)) => {
                    &&& fileid == final(pool).spec_lastfileid()
                    &&& final(pool).spec_has(fileid)
                    &&& offset + record.spec_alloc_size() <= crate::filepool::MAX_FILESIZE
                    &&& exists|i: int|
                        0 <= i < final(pool).seg_count() && #[trigger] final(pool).fileid_at(i)
                            == fileid && crate::freelist::requested(
                            (if fileid == old(pool).spec_lastfileid() && i < old(pool).seg_count() {
                                old(pool).freelist_at(i)
                            } else {
                                final(pool).freelist_at(i)
                            }),
                            final(pool).freelist_at(i),
                            (record.spec_alloc_size()) as u32,
                            offset,
                        ) || (fileid > old(pool).spec_lastfileid() && offset == 0)
                },
                Err(e) => e == Error::AllocateFail && *final(pool) == *old(pool),
            },
    {
        let size64: u64 = 14 + record.key.len() as u64 + record.value.len() as u64;
        let alloc64: u64 = ((size64 + 15) / 16) * 16;
        proof {
            crate::util::lemma_roundup_bounds(size64 as int, ALIGN as int);
            assert(alloc64 == record.spec_alloc_size());
        }
        if alloc64 > crate::filepool::MAX_FILESIZE as u64 {
            return Err(Error::AllocateFail);
        }
        match pool.request_room_ornew(alloc64 as u32, now) {
            Ok(p) => Ok(p),
            Err(e) => {
                proof {
                    assert(false);
                }
                Err(e)
            },
        }
    }

    /// Return a record's extent to its segment's allocator; used by deletion
    /// to reclaim the space under an overwritten record. The range must be
    /// the one the record was written at, disjoint from the free space.
    pub fn free_record(
        &self,
        pool: &mut crate::filepool::FilePool,
        record: &Record,
        fileid: Timestamp,
        offset: u32,
    ) -> (r: Result<(), Error>)
        requires
            old(pool).wf(),
            record.valid(),
            offset + record.spec_alloc_size() <= crate::filepool::MAX_FILESIZE,
            forall|i: int, k: int|
                0 <= i < old(pool).seg_count() && #[trigger] old(pool).fileid_at(i) == fileid && 0
                    <= k < old(pool).freelist_at(i)@.len() ==> ((#[trigger] old(pool).freelist_at(
                    i,
                )@[k]).off == offset || old(pool).freelist_at(i)@[k].end() <= offset || offset
                    + record.spec_alloc_size() <= old(pool).freelist_at(i)@[k].off),
        ensures
            final(pool).wf(),
            final(pool).spec_lastfileid() == old(pool).spec_lastfileid(),
            final(pool).seg_count() == old(pool).seg_count(),
            forall|i: int|
                0 <= i < old(pool).seg_count() ==> #[trigger] final(pool).fileid_at(i) == old(
                    pool,
                ).fileid_at(i),
            match r {
                Ok(()) => exists|i: int|
                    0 <= i < old(pool).seg_count() && #[trigger] old(pool).fileid_at(i) == fileid
                        && crate::freelist::freed(
                        old(pool).freelist_at(i),
                        final(pool).freelist_at(i),
                        offset,
                        (record.spec_alloc_size()) as u32,
                    ) && (forall|j: int|
                        0 <= j < old(pool).seg_count() && j != i
                            ==> #[trigger] final(pool).freelist_at(j) == old(pool).freelist_at(j)),
                Err(e) => {
                    &&& (forall|i: int|
                        0 <= i < old(pool).seg_count() ==> #[trigger] final(pool).freelist_at(i)
                            == old(pool).freelist_at(i))
                    &&& (e == Error::InvalidFileId <==> !old(pool).spec_has(fileid))
                    &&& (e == Error::InvalidFileId || e == Error::DoubleFree)
                },
            },
    {
        let size64: u64 = 14 + record.key.len() as u64 + record.value.len() as u64;
        let alloc64: u64 = ((size64 + 15) / 16) * 16;
        proof {
            crate::util::lemma_roundup_bounds(size64 as int, ALIGN as int);
            assert(alloc64 == record.spec_alloc_size());
        }
        pool.free_room(alloc64 as u32, offset, fileid)
    }

    /// Hand every staged batch to the host for writing and leave the buffer
    /// empty. The host writes each batch's images at their offsets in that
    /// segment's file, in batch order.
    pub fn take_batches(&mut self) -> (r: Vec<(u64, Vec<(u32, Staged)>)>)
        ensures
            r == old(self).view_batches(),
            final(self).batch_count() == 0,
            final(self).wf(),
            final(self).all_valid(),
    {
        let mut out: Vec<(u64, Vec<(u32, Staged)>)> = Vec::new();
        core::mem::swap(&mut out, &mut self.recordmap);
        out
    }

    /// The raw batches, for stating what `take_batches` hands out.
    pub closed spec fn view_batches(&self) -> Vec<(u64, Vec<(u32, Staged)>)> {
        self.recordmap
    }
}

/// A record parse is stable under trailing bytes: when the bytes of `s`
/// spell a whole record, any extension of `s` parses to the same record.
pub proof fn lemma_parse_record_prefix(s: Seq<u8>, t: Seq<u8>)
    requires
        s.len() <= t.len(),
        t.subrange(0, s.len() as int) == s,
        parse_record(s) is Rec,
    ensures
        parse_record(t) == parse_record(s),
{
    assert(forall|i: int| 0 <= i < s.len() ==> t[i] == #[trigger] s[i]) by {
        assert(forall|i: int|
            0 <= i < s.len() ==> #[trigger] s[i] == t.subrange(0, s.len() as int)[i]);
    }
    let ks = parse_u16_le(s, 0) as int;
    let vs = parse_u32_le(s, 2) as int;
    assert(parse_u16_le(t, 0) == parse_u16_le(s, 0));
    assert(parse_u32_le(t, 2) == parse_u32_le(s, 2));
    assert(parse_u64_le(t, 6) == parse_u64_le(s, 6));
    assert(t.subrange(14, 14 + ks) =~= s.subrange(14, 14 + ks));
    assert(t.subrange(14 + ks, 14 + ks + vs) =~= s.subrange(14 + ks, 14 + ks + vs));
}

/// Decoding a valid record's disk image yields the record back.
pub proof fn lemma_record_round_trip(r: Record)
    requires
        r.valid(),
    ensures
        parse_record(r.encoding()) == (ParsedRecord::Rec {
            key: r.key@,
            value: r.value@,
            time: r.time,
        }),
{
    let e = r.encoding();
    let ks = r.key@.len() as int;
    let vs = r.value@.len() as int;
    lemma_roundup_bounds(r.spec_size(), ALIGN as int);
    assert(e.len() == r.spec_alloc_size());
    assert(e.subrange(0, 2) =~= u16_le_bytes(r.key@.len() as u16));
    lemma_u16_le_round_trip(e, 0, r.key@.len() as u16);
    assert(parse_u16_le(e, 0) == r.key@.len());
    assert(e.subrange(2, 6) =~= u32_le_bytes(r.value@.len() as u32));
    lemma_u32_le_round_trip(e, 2, r.value@.len() as u32);
    assert(parse_u32_le(e, 2) == r.value@.len());
    assert(e.subrange(6, 14) =~= u64_le_bytes(r.time));
    lemma_u64_le_round_trip(e, 6, r.time);
    assert(e.subrange(14, 14 + ks) =~= r.key@);
    assert(e.subrange(14 + ks, 14 + ks + vs) =~= r.value@);
}

} // verus!
