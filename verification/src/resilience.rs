//! Reading through damaged media: per-sector retries with zero padding and
//! a bad-sector map, and a reader that simulates failing ranges.

use vstd::prelude::*;
use crate::storage::{all_zero, invalid_data, reads_whole_device, unexpected_eof, StorageReader};
use crate::text::owned;

verus! {

/// A sector that could not be read after every retry.
pub struct BadSectorRecord {
    pub offset: u64,
    pub length: usize,
    pub attempts: u32,
    pub classification: String,
}

/// Wraps a reader: every read is done sector by sector, each failing sector
/// is retried up to `max_retries` times, and one that still fails is
/// zero-filled and recorded in `bad_sectors` instead of failing the read.
pub struct ResilientReader<R: StorageReader> {
    inner: R,
    pub bad_sectors: Vec<BadSectorRecord>,
    max_retries: u32,
    log: Ghost<Seq<(u64, usize)>>,
}

/// The records a resilient read of `length` bytes at `offset` adds to the
/// bad-sector map, against the bytes `out` it returned: each names a whole
/// sector of the read (sector-aligned from `offset`, `sector` bytes or the
/// rest of the read), in increasing order, tried `retries` times, whose
/// bytes in `out` are all zero.
pub open spec fn bad_records_ok(added: Seq<BadSectorRecord>, out: Seq<u8>, offset: int, length: int, sector: int, retries: u32) -> bool {
    &&& forall|i: int| 0 <= i < added.len() ==> {
        let rec = #[trigger] added[i];
        let rel = rec.offset - offset;
        &&& 0 <= rel < length
        &&& rel % sector == 0
        &&& rec.length == (if sector < length - rel { sector } else { length - rel })
        &&& rec.attempts == retries
        &&& rec.classification@ == "io_error_after_retry"@
        &&& all_zero(out.subrange(rel, rel + rec.length))
    }
    &&& forall|i: int, j: int| 0 <= i < j < added.len() ==> (#[trigger] added[i]).offset < (#[trigger] added[j]).offset
}

/// Byte position `p` lies in one of the recorded sectors.
pub open spec fn recorded(recs: Seq<BadSectorRecord>, p: int) -> bool {
    exists|k: int| 0 <= k < recs.len() && (#[trigger] recs[k]).offset <= p && p < recs[k].offset + recs[k].length
}

/// `a` and `b` hold the same bad-sector records, in the same order.
pub open spec fn same_records(a: Seq<BadSectorRecord>, b: Seq<BadSectorRecord>) -> bool {
    &&& a.len() == b.len()
    &&& forall|i: int| 0 <= i < a.len() ==> {
        &&& (#[trigger] a[i]).offset == b[i].offset
        &&& a[i].length == b[i].length
        &&& a[i].attempts == b[i].attempts
        &&& a[i].classification@ == b[i].classification@
    }
}

impl BadSectorRecord {
    /// A record with the same fields.
    pub fn copy(&self) -> (r: BadSectorRecord)
        ensures
            same_records(seq![r], seq![*self]),
    {
        BadSectorRecord {
            offset: self.offset,
            length: self.length,
            attempts: self.attempts,
            classification: owned(self.classification.as_str()),
        }
    }
}

impl<R: StorageReader> ResilientReader<R> {
    /// Whether the wrapped reader hands back the device's bytes exactly.
    pub closed spec fn inner_faithful(&self) -> bool {
        self.inner.faithful()
    }

    /// Whether the wrapped reader is reliable.
    pub closed spec fn inner_reliable(&self) -> bool {
        self.inner.reliable()
    }

    /// Whether every read of the wrapped reader inside the device succeeds
    /// with the device's bytes.
    pub closed spec fn inner_whole(&self) -> bool {
        reads_whole_device(self.inner)
    }

    /// The number of attempts per sector.
    pub closed spec fn retries(&self) -> u32 {
        self.max_retries
    }

    /// The bad-sector map.
    pub closed spec fn bad_map(&self) -> Seq<BadSectorRecord> {
        self.bad_sectors@
    }

    /// A resilient reader over `inner`, trying each sector `max_retries` times, with an empty bad-sector map.
    pub fn new(inner: R, max_retries: u32) -> (r: Self)
        ensures
            r.bad_map().len() == 0,
            r.retries() == max_retries,
            r.logs_reads(),
            r.reads().len() == 0,
            r.contents() == inner.contents(),
            r.inner_faithful() == inner.faithful(),
            r.inner_reliable() == inner.reliable(),
            r.inner_whole() == reads_whole_device(inner),
            r.exact_inside() == (reads_whole_device(inner) && max_retries >= 1),
            r.reliable() == (inner.reliable() && inner.contents().len() <= u64::MAX),
            !r.faithful(),
    {
        ResilientReader { inner, bad_sectors: Vec::new(), max_retries, log: Ghost(Seq::empty()) }
    }

    /// Up to `max_retries` attempts at one sector: the bytes of the first
    /// attempt that succeeded, or none, with the number of attempts made.
    fn read_sector(&mut self, pos: u64, len: usize) -> (r: (Option<Vec<u8>>, u32))
        ensures
            final(self).bad_sectors == old(self).bad_sectors,
            final(self).max_retries == old(self).max_retries,
            final(self).log == old(self).log,
            final(self).inner.contents() == old(self).inner.contents(),
            final(self).inner.faithful() == old(self).inner.faithful(),
            final(self).inner.reliable() == old(self).inner.reliable(),
            final(self).inner.exact_inside() == old(self).inner.exact_inside(),
            r.0 matches Some(d) ==> d@.len() == len,
            reads_whole_device(old(self).inner) && old(self).max_retries >= 1 && pos + len <= old(self).inner.contents().len()
                ==> (r.0 matches Some(d) && d@ == old(self).inner.contents().subrange(pos as int, pos + len)),
            old(self).inner.faithful() ==> (r.0 matches Some(d) ==> pos + len <= old(self).inner.contents().len()
                && d@ == old(self).inner.contents().subrange(pos as int, pos + len)),
            r.0 is None ==> r.1 == old(self).max_retries,
    {
        let mut attempts: u32 = 0;
        while attempts < self.max_retries
            invariant
                attempts <= self.max_retries,
                self.bad_sectors == old(self).bad_sectors,
                self.max_retries == old(self).max_retries,
                self.log == old(self).log,
                self.inner.contents() == old(self).inner.contents(),
                self.inner.faithful() == old(self).inner.faithful(),
                self.inner.reliable() == old(self).inner.reliable(),
                self.inner.exact_inside() == old(self).inner.exact_inside(),
                reads_whole_device(old(self).inner) && old(self).max_retries >= 1 && pos + len <= old(self).inner.contents().len()
                    ==> attempts == 0,
            decreases self.max_retries - attempts,
        {
            attempts = attempts + 1;
            match self.inner.read_range(pos, len) {
                Ok(d) => {
                    return (Some(d), attempts);
                },
                Err(_) => {},
            }
        }
        (None, attempts)
    }

    /// Reads `length` bytes at `offset`, sector by sector; never fails. Over
    /// a faithful reader, every byte outside the sectors recorded by this
    /// read is the device's byte at that position.
    pub fn read_resilient(&mut self, offset: u64, length: usize) -> (r: Vec<u8>)
        requires
            offset + length <= u64::MAX,
        ensures
            r@.len() == length,
            final(self).contents() == old(self).contents(),
            final(self).inner_faithful() == old(self).inner_faithful(),
            final(self).inner_reliable() == old(self).inner_reliable(),
            final(self).inner_whole() == old(self).inner_whole(),
            final(self).reads() == old(self).reads(),
            old(self).inner_whole() && old(self).retries() >= 1 && offset + length <= old(self).contents().len()
                ==> r@ == old(self).contents().subrange(offset as int, offset + length) && final(self).bad_map() == old(self).bad_map(),
            old(self).inner_faithful() ==> forall|i: int| 0 <= i < length ==>
                recorded(final(self).bad_map().subrange(old(self).bad_map().len() as int, final(self).bad_map().len() as int), offset + i)
                || r@[i] == old(self).contents()[offset + i],
            final(self).retries() == old(self).retries(),
            final(self).bad_map().len() >= old(self).bad_map().len(),
            final(self).bad_map().subrange(0, old(self).bad_map().len() as int) == old(self).bad_map(),
            exists|sector: int| sector > 0 && #[trigger] bad_records_ok(
                final(self).bad_map().subrange(old(self).bad_map().len() as int, final(self).bad_map().len() as int),
                r@, offset as int, length as int, sector, old(self).retries()),
    {
        let sector = self.inner.sector_size() as u64;
        let mut result: Vec<u8> = Vec::new();
        let mut pos = offset;
        let end = offset + length as u64;
        let ghost start_len = self.bad_sectors@.len();
        proof {
            vstd::arithmetic::div_mod::lemma_small_mod(0, sector as nat);
            assert((pos - offset) % (sector as int) == 0);
        }
        while pos < end
            invariant
                sector > 0,
                offset <= pos <= end,
                end == offset + length,
                result@.len() == pos - offset,
                self.max_retries == old(self).max_retries,
                self.bad_sectors@.len() >= start_len,
                start_len == old(self).bad_sectors@.len(),
                self.bad_sectors@.subrange(0, start_len as int) == old(self).bad_sectors@,
                (pos - offset) % (sector as int) == 0 || pos == end,
                bad_records_ok(self.bad_sectors@.subrange(start_len as int, self.bad_sectors@.len() as int),
                    result@, offset as int, length as int, sector as int, self.max_retries),
                forall|i: int| start_len <= i < self.bad_sectors@.len()
                    ==> (#[trigger] self.bad_sectors@[i]).offset + self.bad_sectors@[i].length <= pos,
                self.inner.contents() == old(self).inner.contents(),
                self.inner.faithful() == old(self).inner.faithful(),
                self.inner.reliable() == old(self).inner.reliable(),
                self.inner.exact_inside() == old(self).inner.exact_inside(),
                self.log == old(self).log,
                reads_whole_device(old(self).inner) && old(self).max_retries >= 1 && offset + length <= old(self).inner.contents().len()
                    ==> self.bad_sectors@.len() == start_len && result@ == old(self).inner.contents().subrange(offset as int, pos as int),
                old(self).inner.faithful() ==> forall|i: int| 0 <= i < result@.len() ==>
                    recorded(self.bad_sectors@.subrange(start_len as int, self.bad_sectors@.len() as int), offset + i)
                    || result@[i] == old(self).inner.contents()[offset + i],
            decreases end - pos,
        {
            let this_len: usize = (if sector < end - pos { sector } else { end - pos }) as usize;
            let (ok_data, attempts) = self.read_sector(pos, this_len);
            let ghost before = result@;
            let ghost recs_before = self.bad_sectors@;
            let ghost got: Option<Seq<u8>> = match &ok_data { Some(d) => Some(d@), None => None };
            match ok_data {
                Some(d) => {
                    let mut z: usize = 0;
                    while z < d.len()
                        invariant
                            z <= d@.len(),
                            result@.len() == before.len() + z,
                            result@.subrange(0, before.len() as int) == before,
                            forall|t: int| before.len() <= t < result@.len() ==> #[trigger] result@[t] == d@[t - before.len()],
                        decreases d@.len() - z,
                    {
                        result.push(d[z]);
                        z = z + 1;
                        assert(result@.subrange(0, before.len() as int) =~= before);
                    }
                },
                None => {
                    self.bad_sectors.push(BadSectorRecord {
                        offset: pos,
                        length: this_len,
                        attempts,
                        classification: owned("io_error_after_retry"),
                    });
                    let mut z: usize = 0;
                    while z < this_len
                        invariant
                            z <= this_len,
                            result@.len() == before.len() + z,
                            result@.subrange(0, before.len() as int) == before,
                            forall|t: int| before.len() <= t < result@.len() ==> #[trigger] result@[t] == 0,
                        decreases this_len - z,
                    {
                        result.push(0);
                        z = z + 1;
                        assert(result@.subrange(0, before.len() as int) =~= before);
                    }
                },
            }
            proof {
                let added = self.bad_sectors@.subrange(start_len as int, self.bad_sectors@.len() as int);
                let added0 = recs_before.subrange(start_len as int, recs_before.len() as int);
                assert(self.bad_sectors@.subrange(0, start_len as int) =~= recs_before.subrange(0, start_len as int));
                assert forall|i: int| 0 <= i < added.len() implies {
                    let rec = #[trigger] added[i];
                    let rel = rec.offset - offset;
                    &&& 0 <= rel < length
                    &&& rel % (sector as int) == 0
                    &&& rec.length == (if sector < length - rel { sector as int } else { length - rel })
                    &&& rec.attempts == self.max_retries
                    &&& rec.classification@ == "io_error_after_retry"@
                    &&& all_zero(result@.subrange(rel, rel + rec.length))
                } by {
                    if i < added0.len() {
                        assert(added[i] == added0[i]);
                        assert(added0[i] == recs_before[start_len + i]);
                        let rec = added[i];
                        let rel = rec.offset - offset;
                        assert(rel + rec.length <= before.len());
                        assert(result@.subrange(rel, rel + rec.length) =~= before.subrange(rel, rel + rec.length));
                    } else {
                        assert(added[i] == self.bad_sectors@.last());
                    }
                }
                assert forall|i: int, j: int| 0 <= i < j < added.len() implies (#[trigger] added[i]).offset < (#[trigger] added[j]).offset by {
                    if j < added0.len() {
                        assert(added[i] == added0[i] && added[j] == added0[j]);
                    } else {
                        assert(added[j].offset == pos);
                        assert(added[i] == recs_before[start_len + i]);
                        assert(added[i].length > 0);
                    }
                }
                if old(self).inner.faithful() {
                    assert forall|i: int| 0 <= i < result@.len() implies
                        recorded(added, offset + i) || result@[i] == old(self).inner.contents()[offset + i] by {
                        if i < before.len() {
                            assert(result@[i] == result@.subrange(0, before.len() as int)[i]);
                            if recorded(added0, offset + i) {
                                let k = choose|k: int| 0 <= k < added0.len() && (#[trigger] added0[k]).offset <= offset + i
                                    && offset + i < added0[k].offset + added0[k].length;
                                assert(added[k] == added0[k]);
                            }
                        } else {
                            assert(before.len() == pos - offset);
                            match got {
                                Some(dd) => {
                                    assert(dd == old(self).inner.contents().subrange(pos as int, pos + this_len));
                                    assert(result@[i] == dd[i - before.len()]);
                                    assert(result@[i] == old(self).inner.contents()[offset + i]);
                                },
                                None => {
                                    let k = added.len() - 1;
                                    assert(added[k] == self.bad_sectors@.last());
                                    assert(added[k].offset <= offset + i && offset + i < added[k].offset + added[k].length);
                                    assert(recorded(added, offset + i));
                                },
                            }
                        }
                    }
                }
            }
            proof {
                if this_len == sector {
                    vstd::arithmetic::div_mod::lemma_mod_add_multiples_vanish(pos - offset, sector as int);
                }
                assert forall|i: int| start_len <= i < self.bad_sectors@.len()
                    implies (#[trigger] self.bad_sectors@[i]).offset + self.bad_sectors@[i].length <= pos + this_len by {
                    if i < recs_before.len() {
                        assert(self.bad_sectors@[i] == recs_before[i]);
                    }
                }
            }
            proof {
                if reads_whole_device(old(self).inner) && old(self).max_retries >= 1 && offset + length <= old(self).inner.contents().len() {
                    assert(result@ =~= old(self).inner.contents().subrange(offset as int, pos + this_len));
                }
            }
            pos = pos + this_len as u64;
        }
        proof {
            if reads_whole_device(old(self).inner) && old(self).max_retries >= 1 && offset + length <= old(self).inner.contents().len() {
                assert(self.bad_sectors@ =~= old(self).bad_sectors@.subrange(0, start_len as int));
            }
            assert(bad_records_ok(self.bad_map().subrange(old(self).bad_map().len() as int, self.bad_map().len() as int),
                result@, offset as int, length as int, sector as int, old(self).retries()));
        }
        result
    }

    /// The size the underlying reader reports: over a faithful reader, the
    /// device's length.
    pub fn get_size(&mut self) -> (r: std::io::Result<u64>)
        ensures
            final(self).contents() == old(self).contents(),
            final(self).inner_faithful() == old(self).inner_faithful(),
            final(self).inner_reliable() == old(self).inner_reliable(),
            final(self).reads() == old(self).reads(),
            final(self).bad_map() == old(self).bad_map(),
            old(self).inner_faithful() ==> (r matches Ok(n) ==> n == old(self).contents().len()),
            old(self).inner_whole() ==> (r matches Ok(n) && n == old(self).contents().len()),
            old(self).inner_reliable() ==> r is Ok,
            final(self).inner_whole() == old(self).inner_whole(),
            final(self).retries() == old(self).retries(),
    {
        self.inner.get_size()
    }

    /// A copy of the bad-sector map.
    pub fn bad_sector_copies(&self) -> (r: Vec<BadSectorRecord>)
        ensures
            same_records(r@, self.bad_map()),
    {
        let mut out: Vec<BadSectorRecord> = Vec::new();
        let mut i: usize = 0;
        while i < self.bad_sectors.len()
            invariant
                i <= self.bad_sectors@.len(),
                same_records(out@, self.bad_sectors@.subrange(0, i as int)),
            decreases self.bad_sectors@.len() - i,
        {
            let c = self.bad_sectors[i].copy();
            proof {
                assert(same_records(seq![c], seq![self.bad_sectors@[i as int]]));
                assert(seq![c][0] == c);
            }
            out.push(c);
            i = i + 1;
        }
        out
    }

    /// How many sectors have been recorded as unreadable.
    pub fn bad_sector_count(&self) -> (r: usize)
        ensures
            r == self.bad_map().len(),
    {
        self.bad_sectors.len()
    }
}


impl<R: StorageReader> StorageReader for ResilientReader<R> {
    /// The wrapped reader's device.
    closed spec fn contents(&self) -> Seq<u8> {
        self.inner.contents()
    }

    /// Not faithful: an unreadable sector comes back as zeros.
    closed spec fn faithful(&self) -> bool {
        false
    }

    /// Exact inside the device when every read of the wrapped reader there
    /// succeeds with the device's bytes and each sector is tried at least
    /// once.
    closed spec fn exact_inside(&self) -> bool {
        reads_whole_device(self.inner) && self.max_retries >= 1
    }

    /// Reliable when the wrapped reader answers for the size and the device
    /// fits in 64-bit offsets: reads never fail on unreadable sectors.
    closed spec fn reliable(&self) -> bool {
        self.inner.reliable() && self.inner.contents().len() <= u64::MAX
    }

    /// Keeps the log of the reads asked of it.
    open spec fn logs_reads(&self) -> bool {
        true
    }

    /// The reads asked of this reader (not the sector reads it makes of the
    /// wrapped reader).
    closed spec fn reads(&self) -> Seq<(u64, usize)> {
        self.log@
    }

    /// Never fails on unreadable sectors: they come back zero-filled and are
    /// recorded. Only a range whose end does not fit in 64 bits is refused.
    fn read_range(&mut self, offset: u64, length: usize) -> (r: std::io::Result<Vec<u8>>)
        ensures
            offset + length <= u64::MAX ==> r is Ok,
    {
        self.log = Ghost(self.log@.push((offset, length)));
        if length as u64 > u64::MAX - offset {
            return Err(invalid_data("read range ends past the addressable end"));
        }
        Ok(self.read_resilient(offset, length))
    }

    /// The size the wrapped reader reports: over a faithful wrapped reader,
    /// the device's length.
    fn get_size(&mut self) -> (r: std::io::Result<u64>)
        ensures
            final(self).inner_faithful() == old(self).inner_faithful(),
            old(self).inner_faithful() ==> (r matches Ok(n) ==> n == old(self).contents().len()),
    {
        self.inner.get_size()
    }

    fn sector_size(&self) -> (r: u32) {
        self.inner.sector_size()
    }
}

/// A reader that fails every read touching one of its fault ranges
/// (`[start, end)` byte offsets) and passes the others through.
pub struct FaultInjectingReader<R: StorageReader> {
    inner: R,
    fault_ranges: Vec<(u64, u64)>,
    log: Ghost<Seq<(u64, usize)>>,
}

/// A read of `[offset, end)` touches one of the fault ranges.
pub open spec fn hits_fault(faults: Seq<(u64, u64)>, offset: int, end: int) -> bool {
    exists|i: int| 0 <= i < faults.len() && offset < (#[trigger] faults[i]).1 && end > faults[i].0
}

impl<R: StorageReader> FaultInjectingReader<R> {
    /// The simulated failing ranges.
    pub closed spec fn faults(&self) -> Seq<(u64, u64)> {
        self.fault_ranges@
    }

    /// A reader over `inner` that fails reads touching `fault_ranges`.
    pub fn new(inner: R, fault_ranges: Vec<(u64, u64)>) -> (r: Self)
        ensures
            r.faults() == fault_ranges@,
            r.logs_reads(),
            r.reads().len() == 0,
            r.contents() == inner.contents(),
            r.faithful() == inner.faithful(),
            fault_ranges@.len() == 0 ==> r.reliable() == inner.reliable(),
    {
        FaultInjectingReader { inner, fault_ranges, log: Ghost(Seq::empty()) }
    }
}

impl<R: StorageReader> StorageReader for FaultInjectingReader<R> {
    /// The wrapped reader's device.
    closed spec fn contents(&self) -> Seq<u8> {
        self.inner.contents()
    }

    /// Faithful when the wrapped reader is: a read it lets through is the
    /// wrapped reader's.
    closed spec fn faithful(&self) -> bool {
        self.inner.faithful()
    }

    /// Exact inside the device when the wrapped reader is.
    closed spec fn exact_inside(&self) -> bool {
        self.inner.exact_inside()
    }

    /// Reliable when the wrapped reader is and no read is made to fail.
    closed spec fn reliable(&self) -> bool {
        self.inner.reliable() && self.fault_ranges@.len() == 0
    }

    /// Keeps the log of the reads asked of it.
    closed spec fn logs_reads(&self) -> bool {
        true
    }

    /// The reads asked of this reader.
    closed spec fn reads(&self) -> Seq<(u64, usize)> {
        self.log@
    }

    /// Fails, without reading, when the range touches a fault range (its end
    /// taken as `u64::MAX` when it would not fit); otherwise reads through.
    fn read_range(&mut self, offset: u64, length: usize) -> (r: std::io::Result<Vec<u8>>)
        ensures
            hits_fault(old(self).faults(), offset as int, offset.saturating_add(length as u64) as int) ==> r is Err,
    {
        self.log = Ghost(self.log@.push((offset, length)));
        let end = offset.saturating_add(length as u64);
        let mut k: usize = 0;
        while k < self.fault_ranges.len()
            invariant
                k <= self.fault_ranges@.len(),
                self.fault_ranges@ == old(self).fault_ranges@,
                self.inner == old(self).inner,
                self.log@ == old(self).log@.push((offset, length)),
                end == offset.saturating_add(length as u64),
                forall|i: int| 0 <= i < k ==> !(offset < (#[trigger] self.fault_ranges@[i]).1 && end > self.fault_ranges@[i].0),
            decreases self.fault_ranges@.len() - k,
        {
            let (fs, fe) = self.fault_ranges[k];
            if offset < fe && end > fs {
                return Err(unexpected_eof("simulated bad sector"));
            }
            k = k + 1;
        }
        self.inner.read_range(offset, length)
    }

    fn get_size(&mut self) -> std::io::Result<u64> {
        self.inner.get_size()
    }
}

} // verus!
