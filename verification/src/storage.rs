//! The storage abstraction every parser reads through. There is no write
//! method: a source device is never written through this interface.

use vstd::prelude::*;

verus! {

#[verifier::external_type_specification]
#[verifier::external_body]
pub struct ExIoError(std::io::Error);

/// Read-only access to a device or image. A successful read of `length`
/// bytes hands back exactly `length` bytes. An implementation may say which
/// device it reads, whether its successful reads are that device's bytes,
/// whether every read inside the device succeeds, and which reads it was
/// asked for.
pub trait StorageReader {
    /// The bytes of the device this reader reads; none is known of a reader
    /// that does not say.
    closed spec fn contents(&self) -> Seq<u8> {
        Seq::empty()
    }

    /// Whether every successful read hands back exactly the device's bytes
    /// (a reader that zero-fills unreadable sectors does not); a reader that
    /// does not say is not taken to be.
    closed spec fn faithful(&self) -> bool {
        false
    }

    /// Whether every successful read that lies inside the device hands back
    /// the device's bytes there, and a reported size is the device's length
    /// (reads past the end may still be answered); a reader that does not
    /// say is not taken to be.
    closed spec fn exact_inside(&self) -> bool {
        false
    }

    /// Whether every read that lies inside the device succeeds, and asking
    /// for the size does too; a reader that does not say is not taken to.
    closed spec fn reliable(&self) -> bool {
        false
    }

    /// Whether this reader keeps the log of the reads asked of it; a reader
    /// that does not say keeps none.
    closed spec fn logs_reads(&self) -> bool {
        false
    }

    /// The reads asked of this reader so far, as `(offset, length)`, oldest
    /// first; none for a reader that keeps no log.
    closed spec fn reads(&self) -> Seq<(u64, usize)> {
        Seq::empty()
    }

    /// Reads `length` bytes at `offset`; a reader that keeps a log adds the
    /// request to it. Reading changes neither the device's bytes nor what
    /// the reader declares of itself; a faithful reader's successful read is
    /// the bytes at that range of its contents (as is an exact-inside
    /// reader's, for a range inside the device), and a reliable reader's
    /// read inside the device succeeds.
    fn read_range(&mut self, offset: u64, length: usize) -> (r: std::io::Result<Vec<u8>>)
        ensures
            r matches Ok(b) ==> b@.len() == length,
            final(self).contents() == old(self).contents(),
            final(self).faithful() == old(self).faithful(),
            final(self).exact_inside() == old(self).exact_inside(),
            final(self).reliable() == old(self).reliable(),
            final(self).logs_reads() == old(self).logs_reads(),
            old(self).logs_reads() ==> final(self).reads() == old(self).reads().push((offset, length)),
            old(self).faithful() ==> (r matches Ok(b) ==> offset + length <= old(self).contents().len()
                && b@ == old(self).contents().subrange(offset as int, offset + length)),
            old(self).exact_inside() && offset + length <= old(self).contents().len()
                ==> (r matches Ok(b) ==> b@ == old(self).contents().subrange(offset as int, offset + length)),
            old(self).reliable() && offset + length <= old(self).contents().len() ==> r is Ok,
    ;

    /// The device's size: for a faithful or exact-inside reader, the length
    /// of its contents; a reliable reader always answers. No read is logged.
    fn get_size(&mut self) -> (r: std::io::Result<u64>)
        ensures
            final(self).contents() == old(self).contents(),
            final(self).faithful() == old(self).faithful(),
            final(self).exact_inside() == old(self).exact_inside(),
            final(self).reliable() == old(self).reliable(),
            final(self).logs_reads() == old(self).logs_reads(),
            old(self).logs_reads() ==> final(self).reads() == old(self).reads(),
            old(self).faithful() || old(self).exact_inside() ==> (r matches Ok(n) ==> n == old(self).contents().len()),
            old(self).reliable() ==> r is Ok,
    ;

    /// The device's sector size, 512 bytes unless the reader says otherwise.
    fn sector_size(&self) -> (r: u32)
        ensures
            r > 0,
        default_ensures
            r == 512,
    {
        512
    }
}

/// Every read inside the device succeeds and hands back the device's bytes
/// there, and asking for the size gives its length.
pub open spec fn reads_whole_device<R: StorageReader>(r: R) -> bool {
    (r.faithful() || r.exact_inside()) && r.reliable()
}

/// `std::io::Error::new(ErrorKind::UnexpectedEof, msg)`: the error a read
/// past readable data gives. Nothing is claimed of it.
#[verifier::external_body]
pub(crate) fn unexpected_eof(msg: &str) -> std::io::Error {
    std::io::Error::new(std::io::ErrorKind::UnexpectedEof, msg)
}

/// `std::io::Error::new(ErrorKind::InvalidData, msg)`: an error value for
/// on-disk structures the library cannot use. Nothing is claimed of it.
#[verifier::external_body]
pub(crate) fn invalid_data(msg: &str) -> std::io::Error {
    std::io::Error::new(std::io::ErrorKind::InvalidData, msg)
}

/// The request sizes that materialising `runs` issues, from run `k` with
/// `done` bytes already produced and `limit` the cap: each run contributes
/// `min(len, limit - done)` bytes, and the walk ends once `limit` is reached.
pub open spec fn spec_run_wants(runs: Seq<(u64, u64)>, limit: int, k: int, done: int) -> Seq<int>
    decreases runs.len() - k,
{
    if k < 0 || k >= runs.len() || done >= limit {
        Seq::empty()
    } else {
        let want = if runs[k].1 < limit - done { runs[k].1 as int } else { limit - done };
        seq![want] + spec_run_wants(runs, limit, k + 1, done + want)
    }
}

/// Sum of the first `n` entries.
pub open spec fn prefix_sum(s: Seq<int>, n: int) -> int
    decreases n,
{
    if n <= 0 {
        0
    } else {
        prefix_sum(s, n - 1) + s[n - 1]
    }
}

/// The bytes produced by materialising runs: for some number `n` of runs
/// that were read in full (an unreadable run ends the read), the output is
/// exactly their requested sizes, and the part of every sparse run
/// (`sparse` and offset `u64::MAX`) is zero.
pub open spec fn materialised(out: Seq<u8>, runs: Seq<(u64, u64)>, limit: int, sparse: bool) -> bool {
    let w = spec_run_wants(runs, limit, 0, 0);
    exists|n: int| #![trigger prefix_sum(w, n)] 0 <= n <= w.len() && out.len() == prefix_sum(w, n) && (sparse
        ==> forall|j: int| 0 <= j < n && #[trigger] runs[j].0 == u64::MAX
        ==> all_zero(out.subrange(prefix_sum(w, j), prefix_sum(w, j) + w[j])))
}

/// For some number `n` of runs read in full, the output is exactly their
/// requested sizes and the piece of every run that was read (every run
/// but a sparse one) is the device's bytes at that run.
pub open spec fn read_from_contents(out: Seq<u8>, runs: Seq<(u64, u64)>, limit: int, sparse: bool, contents: Seq<u8>) -> bool {
    let w = spec_run_wants(runs, limit, 0, 0);
    exists|n: int| #![trigger prefix_sum(w, n)] 0 <= n <= w.len() && out.len() == prefix_sum(w, n)
        && forall|j: int| 0 <= j < n ==> #[trigger] piece_read(out, runs, w, j, sparse, contents)
}

/// Run `j` of the request sizes `w`, unless sparse, is the device's bytes
/// at that run in the output.
pub open spec fn piece_read(out: Seq<u8>, runs: Seq<(u64, u64)>, w: Seq<int>, j: int, sparse: bool, contents: Seq<u8>) -> bool {
    !(sparse && runs[j].0 == u64::MAX) ==> {
        &&& runs[j].0 + w[j] <= contents.len()
        &&& out.subrange(prefix_sum(w, j), prefix_sum(w, j) + w[j]) == contents.subrange(runs[j].0 as int, runs[j].0 + w[j])
    }
}

/// Every run a read of at most `limit` bytes would ask for, other than a
/// sparse one, lies inside a device holding `contents`.
pub open spec fn runs_inside(runs: Seq<(u64, u64)>, limit: int, sparse: bool, contents: Seq<u8>) -> bool {
    let w = spec_run_wants(runs, limit, 0, 0);
    forall|j: int| 0 <= j < w.len() && !(sparse && runs[j].0 == u64::MAX) ==> #[trigger] runs[j].0 + w[j] <= contents.len()
}

/// The output is every requested run in full, each piece read (every one
/// but a sparse one) the device's bytes at that run.
pub open spec fn read_all_from_contents(out: Seq<u8>, runs: Seq<(u64, u64)>, limit: int, sparse: bool, contents: Seq<u8>) -> bool {
    let w = spec_run_wants(runs, limit, 0, 0);
    out.len() == prefix_sum(w, w.len() as int) && forall|j: int| 0 <= j < w.len() ==> #[trigger] piece_read(out, runs, w, j, sparse, contents)
}

/// Every byte is zero.
pub open spec fn all_zero(s: Seq<u8>) -> bool {
    forall|t: int| 0 <= t < s.len() ==> #[trigger] s[t] == 0
}

/// Materialises a run list through `reader`, at most `limit` bytes; with
/// `sparse`, runs at offset `u64::MAX` are zero-filled instead of read.
/// Over a faithful reader, every piece read is the device's bytes there.
pub fn read_run_list<R: StorageReader>(reader: &mut R, runs: &[(u64, u64)], limit: usize, sparse: bool) -> (out: Vec<u8>)
    ensures
        out@.len() <= limit,
        materialised(out@, runs@, limit as int, sparse),
        final(reader).contents() == old(reader).contents(),
        final(reader).faithful() == old(reader).faithful(),
        final(reader).reliable() == old(reader).reliable(),
        final(reader).exact_inside() == old(reader).exact_inside(),
        old(reader).faithful() ==> read_from_contents(out@, runs@, limit as int, sparse, old(reader).contents()),
        reads_whole_device(*old(reader)) && runs_inside(runs@, limit as int, sparse, old(reader).contents())
            ==> read_all_from_contents(out@, runs@, limit as int, sparse, old(reader).contents()),
{
    let ghost w = spec_run_wants(runs@, limit as int, 0, 0);
    let ghost wi = reads_whole_device(*old(reader)) && runs_inside(runs@, limit as int, sparse, old(reader).contents());
    let ghost exact = old(reader).faithful() || wi;
    let mut out: Vec<u8> = Vec::new();
    let mut k: usize = 0;
    let mut stop = false;
    assert(spec_run_wants(runs@, limit as int, 0, 0) =~= w.subrange(0, w.len() as int));
    while k < runs.len() && !stop
        invariant
            k <= runs@.len(),
            w == spec_run_wants(runs@, limit as int, 0, 0),
            k <= w.len(),
            out@.len() <= limit,
            out@.len() == prefix_sum(w, k as int),
            spec_run_wants(runs@, limit as int, k as int, out@.len() as int) == w.subrange(k as int, w.len() as int),
            !stop ==> k < runs@.len() || k == w.len(),
            stop ==> true,
            forall|j: int| 0 <= j < k ==> 0 <= #[trigger] prefix_sum(w, j) <= prefix_sum(w, j) + w[j] <= out@.len(),
            sparse ==> forall|j: int| 0 <= j < k && #[trigger] runs@[j].0 == u64::MAX
                ==> all_zero(out@.subrange(prefix_sum(w, j), prefix_sum(w, j) + w[j])),
            reader.contents() == old(reader).contents(),
            reader.faithful() == old(reader).faithful(),
            reader.reliable() == old(reader).reliable(),
            reader.exact_inside() == old(reader).exact_inside(),
            wi == (reads_whole_device(*old(reader)) && runs_inside(runs@, limit as int, sparse, old(reader).contents())),
            exact == (old(reader).faithful() || wi),
            exact ==> forall|j: int| 0 <= j < k ==> #[trigger] piece_read(out@, runs@, w, j, sparse, old(reader).contents()),
            wi && stop ==> k == w.len(),
        decreases runs@.len() - k, if stop { 0int } else { 1int },
    {
        if out.len() >= limit {
            assert(w.subrange(k as int, w.len() as int).len() == 0);
            assert(k == w.len());
            stop = true;
        } else {
            let (off, len) = runs[k];
            let want: usize = if len < (limit - out.len()) as u64 { len as usize } else { limit - out.len() };
            let ghost before = out@;
            assert(spec_run_wants(runs@, limit as int, k as int, before.len() as int) == seq![want as int]
                + spec_run_wants(runs@, limit as int, k + 1, before.len() + want));
            assert(w.subrange(k as int, w.len() as int)[0] == w[k as int]);
            assert(w[k as int] == want);
            assert(w.subrange(k + 1, w.len() as int) =~= w.subrange(k as int, w.len() as int).drop_first());
            let mut got = true;
            if sparse && off == u64::MAX {
                let mut z: usize = 0;
                while z < want
                    invariant
                        z <= want,
                        out@.len() == before.len() + z,
                        out@.subrange(0, before.len() as int) == before,
                        forall|t: int| before.len() <= t < out@.len() ==> #[trigger] out@[t] == 0,
                    decreases want - z,
                {
                    out.push(0);
                    z = z + 1;
                    assert(out@.subrange(0, before.len() as int) =~= before);
                }
            } else {
                let rd = reader.read_range(off, want);
                proof {
                    if wi {
                        assert(runs@[k as int].0 + w[k as int] <= old(reader).contents().len());
                        assert(rd is Ok);
                    }
                    if exact {
                        assert(rd matches Ok(b) ==> b@ == old(reader).contents().subrange(off as int, off + want));
                    }
                }
                match rd {
                    Ok(bytes) => {
                        let mut z: usize = 0;
                        while z < bytes.len()
                            invariant
                                z <= bytes@.len(),
                                out@.len() == before.len() + z,
                                out@.subrange(0, before.len() as int) == before,
                                out@.subrange(before.len() as int, out@.len() as int) == bytes@.subrange(0, z as int),
                            decreases bytes@.len() - z,
                        {
                            out.push(bytes[z]);
                            z = z + 1;
                            assert(out@.subrange(0, before.len() as int) =~= before);
                            assert(out@.subrange(before.len() as int, out@.len() as int) =~= bytes@.subrange(0, z as int));
                        }
                        assert(bytes@.subrange(0, bytes@.len() as int) =~= bytes@);
                    },
                    Err(_) => {
                        got = false;
                    },
                }
            }
            if got {
                proof {
                    assert forall|j: int| sparse && 0 <= j < k + 1 && #[trigger] runs@[j].0 == u64::MAX
                        implies all_zero(out@.subrange(prefix_sum(w, j), prefix_sum(w, j) + w[j])) by {
                        if j < k {
                            assert(prefix_sum(w, j) + w[j] <= before.len());
                            assert(out@.subrange(prefix_sum(w, j), prefix_sum(w, j) + w[j]) =~= before.subrange(prefix_sum(w, j), prefix_sum(w, j) + w[j]));
                        } else {
                            assert(prefix_sum(w, j) == before.len());
                        }
                    }
                    assert forall|j: int| 0 <= j < k + 1 implies 0 <= #[trigger] prefix_sum(w, j) <= prefix_sum(w, j) + w[j] <= out@.len() by {
                        if j < k {
                            assert(prefix_sum(w, j) + w[j] <= before.len());
                        }
                    }
                    if exact {
                        assert forall|j: int| 0 <= j < k + 1 implies #[trigger] piece_read(out@, runs@, w, j, sparse, old(reader).contents()) by {
                            assert(piece_read(before, runs@, w, j, sparse, old(reader).contents()) || j == k);
                            if j < k {
                                assert(prefix_sum(w, j) + w[j] <= before.len());
                                assert(out@.subrange(prefix_sum(w, j), prefix_sum(w, j) + w[j]) =~= before.subrange(prefix_sum(w, j), prefix_sum(w, j) + w[j]));
                            } else {
                                assert(prefix_sum(w, j) == before.len());
                            }
                        }
                    }
                }
                k = k + 1;
            } else {
                stop = true;
            }
        }
    }
    proof {
        if wi {
            assert(k == w.len());
        }
    }
    out
}

/// A device image held in memory: every read inside it succeeds with its
/// bytes, and a read that would run past its end fails.
pub struct MemoryReader {
    data: Vec<u8>,
    log: Ghost<Seq<(u64, usize)>>,
}

impl MemoryReader {
    /// A reader over `data`, with no read made yet.
    pub fn new(data: Vec<u8>) -> (r: Self)
        ensures
            r.contents() == data@,
            r.faithful(),
            r.reliable(),
            r.logs_reads(),
            r.reads().len() == 0,
    {
        MemoryReader { data, log: Ghost(Seq::empty()) }
    }
}

impl StorageReader for MemoryReader {
    /// The bytes held.
    closed spec fn contents(&self) -> Seq<u8> {
        self.data@
    }

    /// Every successful read is the bytes held there.
    open spec fn faithful(&self) -> bool {
        true
    }

    /// Every read inside the bytes held succeeds.
    open spec fn reliable(&self) -> bool {
        true
    }

    /// Keeps the log of the reads asked of it.
    open spec fn logs_reads(&self) -> bool {
        true
    }

    /// The reads asked of this reader.
    closed spec fn reads(&self) -> Seq<(u64, usize)> {
        self.log@
    }

    /// The `length` bytes at `offset`, or an error when they run past the
    /// end of the bytes held.
    fn read_range(&mut self, offset: u64, length: usize) -> (r: std::io::Result<Vec<u8>>)
        ensures
            r is Ok <==> offset + length <= old(self).contents().len(),
    {
        self.log = Ghost(self.log@.push((offset, length)));
        let n = self.data.len();
        if offset > n as u64 || length > n - offset as usize {
            return Err(unexpected_eof("read past the end of the image"));
        }
        let start = offset as usize;
        let bytes = vstd::slice::slice_to_vec(&self.data.as_slice()[start..start + length]);
        assert(bytes@ =~= self.data@.subrange(offset as int, offset + length));
        Ok(bytes)
    }

    /// The number of bytes held.
    fn get_size(&mut self) -> (r: std::io::Result<u64>) {
        Ok(self.data.len() as u64)
    }
}

} // verus!
