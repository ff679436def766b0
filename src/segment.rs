//! The layout of a segment file: a header `start_index | end_index` (8
//! bytes little endian each) followed by records `size | payload[size]`.
//! The record of entry `start_index + k` is the `k`-th record; `end_index`
//! is one past the last entry, so a zero-entry segment has
//! `end_index == start_index`. Reading and writing the file is the
//! caller's; this type keeps the index of record offsets and says which
//! bytes to write.
use vstd::prelude::*;
use crate::codec::{enc_u64, get_u64, holds_at, lemma_enc_u64_injective, lemma_holds_part, lemma_holds_split, put_u64};

verus! {

/// Bytes of the header.
pub const HEADER_SIZE: u64 = 16;

/// Bytes of a record's size prefix.
pub const ENTRY_HEADER_SIZE: u64 = 8;

/// Why an entry cannot be read.
#[derive(Clone, Copy, Debug, PartialEq, Eq, Structural)]
pub enum SegmentError {
    /// The index is not in `[start_index, end_index)`.
    OutOfRange,
    /// The file does not hold the record that the index points at.
    Corrupt,
}

/// The header bytes.
pub open spec fn enc_header(start: u64, end: u64) -> Seq<u8> {
    enc_u64(start) + enc_u64(end)
}

/// One record: the payload's length, then the payload.
pub open spec fn enc_record(p: Seq<u8>) -> Seq<u8> {
    enc_u64(p.len() as u64) + p
}

/// Records one after another.
pub open spec fn enc_records(ps: Seq<Seq<u8>>) -> Seq<u8>
    decreases ps.len(),
{
    if ps.len() == 0 {
        Seq::empty()
    } else {
        enc_records(ps.drop_last()) + enc_record(ps.last())
    }
}

/// The integer whose encoding starts at `pos` (given 8 bytes are there).
pub open spec fn u64_at(b: Seq<u8>, pos: int) -> u64 {
    crate::codec::u64_of(b[pos], b[pos + 1], b[pos + 2], b[pos + 3], b[pos + 4], b[pos + 5], b[pos + 6], b[pos + 7])
}

/// Whether a whole record starts at `pos` of `b`.
pub open spec fn record_fits(b: Seq<u8>, pos: int) -> bool {
    pos + 8 <= b.len() && pos + 8 + u64_at(b, pos) <= b.len()
}

/// Where the record after the one at `pos` starts.
pub open spec fn next_record(b: Seq<u8>, pos: int) -> int {
    pos + 8 + u64_at(b, pos)
}

/// `positions` are the starts of the whole records of `b` that follow
/// each other from the header on, ending at `end`.
pub open spec fn record_chain(b: Seq<u8>, positions: Seq<u64>, end: int) -> bool {
    &&& forall|k: int| 0 <= k < positions.len() ==> record_fits(b, #[trigger] positions[k] as int)
    &&& positions.len() > 0 ==> positions[0] == HEADER_SIZE
    &&& forall|k: int| 0 <= k < positions.len() - 1
        ==> #[trigger] positions[k + 1] as int == next_record(b, positions[k] as int)
    &&& end == if positions.len() == 0 { HEADER_SIZE as int } else { next_record(b, positions.last() as int) }
}

proof fn lemma_get_u64_at(b: Seq<u8>, pos: int, v: u64)
    requires
        0 <= pos,
        pos + 8 <= b.len(),
        b.subrange(pos, pos + 8) == enc_u64(v),
    ensures
        v == u64_at(b, pos),
{
    crate::codec::lemma_u64_bytes(b[pos], b[pos + 1], b[pos + 2], b[pos + 3], b[pos + 4], b[pos + 5], b[pos + 6], b[pos + 7]);
    assert(b.subrange(pos, pos + 8) =~= seq![b[pos], b[pos + 1], b[pos + 2], b[pos + 3], b[pos + 4], b[pos + 5], b[pos + 6], b[pos + 7]]);
    lemma_enc_u64_injective(v, u64_at(b, pos));
}

/// The in-memory index of one segment file.
#[derive(Debug)]
pub struct Segment {
    pub start_index: u64,
    pub end_index: u64,
    /// Offset of the record of entry `start_index + k`.
    pub entry_positions: Vec<u64>,
    /// Length of the file in bytes.
    pub file_len: u64,
}

impl Segment {
    /// Entries and offsets agree: one offset per entry, increasing, inside the file.
    pub open spec fn wf(&self) -> bool {
        &&& self.end_index == self.start_index + self.entry_positions@.len()
        &&& self.file_len >= HEADER_SIZE
        &&& forall|k: int| 0 <= k < self.entry_positions@.len()
            ==> HEADER_SIZE <= #[trigger] self.entry_positions@[k] < self.file_len
    }

    /// The index of a segment read back from the bytes of its file: the
    /// header's start, and the chain of whole records after the header; a
    /// torn record at the end is not counted. A file of no bytes is a new
    /// segment starting at `start_index`. `None` when the header is cut
    /// short.
    pub fn new(start_index: u64, file: &[u8]) -> (r: Option<Segment>)
        ensures
            file@.len() == 0 ==> (r matches Some(s) && s.wf() && s.start_index == start_index
                && s.end_index == start_index && s.entry_positions@.len() == 0 && s.file_len == HEADER_SIZE),
            0 < file@.len() < HEADER_SIZE ==> r is None,
            file@.len() >= HEADER_SIZE ==> r is None || (r matches Some(s) && s.wf()
                && file@.subrange(0, 8) == enc_u64(s.start_index)
                && s.file_len == file@.len()
                && exists|end: int| #[trigger] record_chain(file@, s.entry_positions@, end)
                    && (!record_fits(file@, end))),
            file@.len() >= HEADER_SIZE && r is None ==> exists|ps: Seq<u64>, end: int|
                #[trigger] record_chain(file@, ps, end) && !record_fits(file@, end)
                && u64_at(file@, 0) + ps.len() > u64::MAX,
            file@.len() >= HEADER_SIZE && u64_at(file@, 0) + file@.len() <= u64::MAX ==> r is Some,
    {
        if file.len() == 0 {
            return Some(Segment { start_index, end_index: start_index, entry_positions: Vec::new(), file_len: HEADER_SIZE });
        }
        let (start, _) = match get_u64(file, 0) {
            Some(x) => x,
            None => {
                return None;
            },
        };
        if file.len() < HEADER_SIZE as usize {
            return None;
        }
        proof {
            lemma_get_u64_at(file@, 0, start);
        }
        let (positions, end) = rebuild_entry_positions(file);
        if start as u128 + positions.len() as u128 > u64::MAX as u128 {
            proof {
                assert(record_chain(file@, positions@, end as int));
            }
            return None;
        }
        let seg = Segment {
            start_index: start,
            end_index: start + positions.len() as u64,
            entry_positions: positions,
            file_len: file.len() as u64,
        };
        proof {
            assert(record_chain(file@, seg.entry_positions@, end as int));
            assert(!record_fits(file@, end as int));
            assert(seg.file_len == file@.len());
            assert(seg.wf());
            assert(file@.subrange(0, 8) == enc_u64(seg.start_index));
        }
        Some(seg)
    }

    /// The header as it must stand at the start of the file.
    pub fn header_bytes(&self) -> (r: Vec<u8>)
        ensures
            r@ == enc_header(self.start_index, self.end_index),
    {
        let mut out: Vec<u8> = Vec::new();
        put_u64(&mut out, self.start_index);
        put_u64(&mut out, self.end_index);
        proof {
            assert(out@ =~= enc_header(self.start_index, self.end_index));
        }
        out
    }

    /// Records `entries` as the next entries; returns the bytes to append
    /// to the file (after which the header is to be rewritten).
    pub fn append(&mut self, entries: &Vec<Vec<u8>>) -> (r: Option<Vec<u8>>)
        requires
            old(self).wf(),
        ensures
            final(self).wf(),
            r is None ==> *final(self) == *old(self),
            r matches Some(bytes) ==> {
                &&& bytes@ == enc_records(entries@.map_values(|e: Vec<u8>| e@))
                &&& final(self).start_index == old(self).start_index
                &&& final(self).end_index == old(self).end_index + entries@.len()
                &&& final(self).file_len == old(self).file_len + bytes@.len()
                &&& final(self).entry_positions@.subrange(0, old(self).entry_positions@.len() as int)
                    == old(self).entry_positions@
                &&& forall|k: int| 0 <= k < entries@.len() ==> #[trigger] final(self).entry_positions@[
                    old(self).entry_positions@.len() + k] == old(self).file_len
                    + enc_records(entries@.map_values(|e: Vec<u8>| e@).subrange(0, k)).len()
            },
            r is None ==> old(self).end_index + entries@.len() > u64::MAX
                || old(self).file_len + enc_records(entries@.map_values(|e: Vec<u8>| e@)).len() > u64::MAX,
    {
        let ghost ps = entries@.map_values(|e: Vec<u8>| e@);
        let n = entries.len();
        let mut out: Vec<u8> = Vec::new();
        let mut positions: Vec<u64> = Vec::new();
        let mut i: usize = 0;
        let mut len: u64 = self.file_len;
        while i < n
            invariant
                n == entries@.len(),
                ps == entries@.map_values(|e: Vec<u8>| e@),
                0 <= i <= n,
                out@ == enc_records(ps.subrange(0, i as int)),
                len == self.file_len + out@.len(),
                positions@.len() == i,
                self.file_len >= HEADER_SIZE,
                *self == *old(self),
                self.wf(),
                forall|k: int| 0 <= k < i ==> HEADER_SIZE <= #[trigger] positions@[k] < len,
                forall|k: int| 0 <= k < i ==> #[trigger] positions@[k] == self.file_len + enc_records(ps.subrange(0, k)).len(),
            decreases n - i,
        {
            let size = entries[i].len() as u64;
            if len as u128 + 8 + size as u128 > u64::MAX as u128 {
                proof {
                    lemma_records_len_grows(ps, i as int);
                }
                return None;
            }
            let ghost pos0 = positions@;
            positions.push(len);
            proof {
                assert forall|k: int| 0 <= k < i + 1 implies #[trigger] positions@[k] == self.file_len + enc_records(ps.subrange(0, k)).len() by {
                    if k < i {
                        assert(positions@[k] == pos0[k]);
                    }
                }
            }
            put_u64(&mut out, size);
            let mut j: usize = 0;
            let ghost before = out@;
            while j < entries[i].len()
                invariant
                    0 <= j <= entries@[i as int]@.len(),
                    i < n,
                    n == entries@.len(),
                    out@ == before + entries@[i as int]@.subrange(0, j as int),
                decreases entries@[i as int]@.len() - j,
            {
                out.push(entries[i][j]);
                proof {
                    assert(out@ =~= before + entries@[i as int]@.subrange(0, j + 1));
                }
                j += 1;
            }
            proof {
                let p = ps.subrange(0, i + 1);
                assert(p.drop_last() =~= ps.subrange(0, i as int));
                assert(entries@[i as int]@.subrange(0, j as int) =~= ps[i as int]);
                vstd::seq_lib::lemma_concat_associative(enc_records(ps.subrange(0, i as int)), enc_u64(size), ps[i as int]);
            }
            len = len + 8 + size;
            i += 1;
        }
        proof {
            assert(ps.subrange(0, n as int) =~= ps);
        }
        if self.end_index as u128 + n as u128 > u64::MAX as u128 {
            return None;
        }
        let ghost old_positions = self.entry_positions@;
        let ghost s0 = *self;
        let mut k: usize = 0;
        while k < n
            invariant
                n == positions@.len(),
                0 <= k <= n,
                self.entry_positions@.len() == old_positions.len() + k,
                self.entry_positions@.subrange(0, old_positions.len() as int) == old_positions,
                forall|q: int| 0 <= q < self.entry_positions@.len() ==> HEADER_SIZE <= #[trigger] self.entry_positions@[q] < len,
                forall|q: int| 0 <= q < old_positions.len() ==> #[trigger] old_positions[q] < self.file_len,
                forall|q: int| 0 <= q < n ==> HEADER_SIZE <= #[trigger] positions@[q] < len,
                forall|q: int| 0 <= q < k ==> #[trigger] self.entry_positions@[old_positions.len() + q] == positions@[q],
                self.file_len <= len,
                self.start_index == s0.start_index,
                self.end_index == s0.end_index,
                self.file_len == s0.file_len,
                s0.end_index == s0.start_index + old_positions.len(),
                s0.end_index + n <= u64::MAX,
            decreases n - k,
        {
            let ghost prev = self.entry_positions@;
            self.entry_positions.push(positions[k]);
            proof {
                assert forall|q: int| 0 <= q < k + 1 implies #[trigger] self.entry_positions@[old_positions.len() + q] == positions@[q] by {
                    if q < k {
                        assert(self.entry_positions@[old_positions.len() + q] == prev[old_positions.len() + q]);
                    }
                }
                assert(self.entry_positions@.subrange(0, old_positions.len() as int) =~= prev.subrange(0, old_positions.len() as int));
            }
            k += 1;
        }
        self.end_index = self.end_index + n as u64;
        self.file_len = len;
        Some(out)
    }

    /// The payload of entry `index`, read from the file's bytes.
    pub fn read_entry(&self, file: &[u8], index: u64) -> (r: Result<Vec<u8>, SegmentError>)
        requires
            self.wf(),
        ensures
            !(self.start_index <= index < self.end_index) <==> r == Err::<Vec<u8>, SegmentError>(SegmentError::OutOfRange),
            r matches Ok(p) ==> {
                let pos = self.entry_positions@[index - self.start_index] as int;
                &&& record_fits(file@, pos)
                &&& file@.subrange(pos, pos + 8 + p@.len()) == enc_record(p@)
            },
            r == Err::<Vec<u8>, SegmentError>(SegmentError::Corrupt) ==> !record_fits(
                file@, self.entry_positions@[index - self.start_index] as int),
            self.start_index <= index < self.end_index ==> forall|p: Seq<u8>| #[trigger] holds_at(file@,
                self.entry_positions@[index - self.start_index] as int, enc_record(p)) ==> (r matches Ok(q) && q@ == p),
    {
        if index < self.start_index || index >= self.end_index {
            return Err(SegmentError::OutOfRange);
        }
        let count = self.entry_positions.len();
        assert(index - self.start_index < count);
        let k = (index - self.start_index) as usize;
        let pos = self.entry_positions[k];
        proof {
            assert(pos == self.entry_positions@[index - self.start_index]);
        }
        let flen = file.len();
        proof {
            assert forall|p: Seq<u8>| #[trigger] holds_at(file@, pos as int, enc_record(p)) implies
                holds_at(file@, pos as int, enc_u64(p.len() as u64)) && pos + 8 + p.len() <= file@.len()
                && file@.subrange(pos + 8, pos + 8 + p.len()) == p && p.len() == p.len() as u64 by {
                lemma_holds_split(file@, pos as int, enc_u64(p.len() as u64), p);
            }
        }
        if pos as u128 > file.len() as u128 {
            return Err(SegmentError::Corrupt);
        }
        let upos = pos as usize;
        assert(upos as int == pos as int);
        let (size, body) = match get_u64(file, upos) {
            Some(x) => x,
            None => {
                return Err(SegmentError::Corrupt);
            },
        };
        proof {
            lemma_get_u64_at(file@, pos as int, size);
        }
        if ((file.len() - body) as u64) < size {
            proof {
                assert(!record_fits(file@, pos as int));
            }
            return Err(SegmentError::Corrupt);
        }
        let mut p: Vec<u8> = Vec::new();
        let mut j: usize = 0;
        let end = body + size as usize;
        while j < size as usize
            invariant
                body as int + size as int == end,
                end <= file@.len(),
                0 <= j <= size,
                p@ == file@.subrange(body as int, body + j),
            decreases size - j,
        {
            p.push(file[body + j]);
            proof {
                assert(p@ =~= file@.subrange(body as int, body + j + 1));
            }
            j += 1;
        }
        proof {
            assert(file@.subrange(pos as int, pos + 8 + p@.len()) =~= file@.subrange(pos as int, pos + 8) + p@);
            assert forall|x: Seq<u8>| #[trigger] holds_at(file@, pos as int, enc_record(x)) implies p@ == x by {
                assert(holds_at(file@, pos as int, enc_u64(x.len() as u64)));
                lemma_enc_u64_injective(size, x.len() as u64);
                assert(p@ =~= x);
            }
        }
        Ok(p)
    }

    /// The first entry index of the segment.
    pub fn get_start_index(&self) -> (r: u64)
        ensures
            r == self.start_index,
    {
        self.start_index
    }

    /// One past the last entry index of the segment.
    pub fn get_end_index(&self) -> (r: u64)
        ensures
            r == self.end_index,
    {
        self.end_index
    }

    /// Whether the segment holds no entry.
    pub fn is_empty(&self) -> (r: bool)
        ensures
            r == (self.end_index <= self.start_index),
    {
        self.end_index <= self.start_index
    }
}

/// Record `k` of a batch stands in the batch's bytes after the records
/// before it.
pub proof fn lemma_record_in_batch(ps: Seq<Seq<u8>>, k: int)
    requires
        0 <= k < ps.len(),
    ensures
        holds_at(enc_records(ps), enc_records(ps.subrange(0, k)).len() as int, enc_record(ps[k])),
    decreases ps.len(),
{
    if k == ps.len() - 1 {
        assert(ps.drop_last() =~= ps.subrange(0, k));
        let a = enc_records(ps.subrange(0, k));
        assert(enc_records(ps).subrange(a.len() as int, (a.len() + enc_record(ps[k]).len()) as int) =~= enc_record(ps[k]));
    } else {
        lemma_record_in_batch(ps.drop_last(), k);
        assert(ps.drop_last().subrange(0, k) =~= ps.subrange(0, k));
        let a = enc_records(ps.drop_last());
        let off = enc_records(ps.subrange(0, k)).len() as int;
        let e = enc_record(ps[k]);
        assert(enc_records(ps).subrange(off, off + e.len()) =~= a.subrange(off, off + e.len()));
    }
}

/// What a segment appended stands in its file: the file that holds the
/// appended bytes at the old end holds record `k` where the index put it.
pub proof fn lemma_append_read_back(file: Seq<u8>, at: int, ps: Seq<Seq<u8>>, k: int)
    requires
        0 <= k < ps.len(),
        holds_at(file, at, enc_records(ps)),
    ensures
        holds_at(file, at + enc_records(ps.subrange(0, k)).len(), enc_record(ps[k])),
{
    lemma_record_in_batch(ps, k);
    let off = enc_records(ps.subrange(0, k)).len() as int;
    let e = enc_record(ps[k]);
    lemma_holds_part(file, at, enc_records(ps), off, off + e.len());
    assert(enc_records(ps).subrange(off, off + e.len()) == e);
}

proof fn lemma_records_len_grows(ps: Seq<Seq<u8>>, i: int)
    requires
        0 <= i < ps.len(),
    ensures
        enc_records(ps).len() >= enc_records(ps.subrange(0, i)).len() + 8 + ps[i].len(),
    decreases ps.len(),
{
    if i == ps.len() - 1 {
        assert(ps.drop_last() =~= ps.subrange(0, i));
    } else {
        lemma_records_len_grows(ps.drop_last(), i);
        assert(ps.drop_last().subrange(0, i) =~= ps.subrange(0, i));
    }
}

/// Walks the records that follow the header: their offsets, and the offset
/// where the chain of whole records ends.
fn rebuild_entry_positions(file: &[u8]) -> (r: (Vec<u64>, u64))
    requires
        file@.len() >= HEADER_SIZE,
    ensures
        record_chain(file@, r.0@, r.1 as int),
        !record_fits(file@, r.1 as int),
        r.0@.len() <= file@.len(),
        forall|k: int| 0 <= k < r.0@.len() ==> HEADER_SIZE <= #[trigger] r.0@[k] < file@.len(),
{
    let mut positions: Vec<u64> = Vec::new();
    let mut pos: u64 = HEADER_SIZE;
    let len = file.len();
    loop
        invariant
            len == file@.len(),
            len >= HEADER_SIZE,
            HEADER_SIZE <= pos <= len,
            record_chain(file@, positions@, pos as int),
            forall|k: int| 0 <= k < positions@.len() ==> HEADER_SIZE <= #[trigger] positions@[k] < len,
            positions@.len() * 8 + HEADER_SIZE <= pos,
        decreases len - pos,
    {
        let (size, body) = match get_u64(file, pos as usize) {
            Some(x) => x,
            None => {
                return (positions, pos);
            },
        };
        proof {
            lemma_get_u64_at(file@, pos as int, size);
        }
        if ((len - body) as u64) < size {
            return (positions, pos);
        }
        let ghost prev = positions@;
        positions.push(pos);
        proof {
            assert(record_fits(file@, pos as int));
            assert forall|k: int| 0 <= k < positions@.len() implies record_fits(file@, #[trigger] positions@[k] as int) by {
                if k < prev.len() {
                    assert(positions@[k] == prev[k]);
                }
            }
            assert forall|k: int| 0 <= k < positions@.len() - 1
                implies #[trigger] positions@[k + 1] as int == next_record(file@, positions@[k] as int) by {
                assert(positions@[k] == prev[k]);
                if k < prev.len() - 1 {
                    assert(positions@[k + 1] == prev[k + 1]);
                }
            }
            assert forall|k: int| 0 <= k < positions@.len() implies HEADER_SIZE <= #[trigger] positions@[k] < len by {
                if k < prev.len() {
                    assert(positions@[k] == prev[k]);
                }
            }
        }
        pos = (body + size as usize) as u64;
    }
}

} // verus!
