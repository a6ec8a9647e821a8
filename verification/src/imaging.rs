//! Imaging a device: every byte is read through the resilient reader (bad
//! sectors retried, zero-filled and recorded), handed to a sink chunk by
//! chunk, and hashed on the way, so that the recorded SHA-256 is that of
//! exactly the bytes handed over.

use vstd::prelude::*;
use crate::digest::{hex_lower, sha256, Sha256Stream};
use crate::resilience::{recorded, same_records, BadSectorRecord, ResilientReader};
use crate::storage::StorageReader;

verus! {

/// Size of one read-and-write step while imaging.
pub const IMAGE_CHUNK: u64 = 65536;

/// Where the bytes of an image go, in order.
pub trait ImageSink {
    /// Whether this sink keeps a copy of what it accepted; a sink that does
    /// not say keeps none.
    closed spec fn keeps_copy(&self) -> bool {
        false
    }

    /// What the sink has accepted so far; none is known of a sink that
    /// keeps no copy.
    closed spec fn accepted(&self) -> Seq<u8> {
        Seq::empty()
    }

    /// Whether every write and flush of this sink succeeds; a sink that does
    /// not say is not taken to.
    closed spec fn never_fails(&self) -> bool {
        false
    }

    /// Appends `data` to the image; an error ends the imaging.
    fn write_chunk(&mut self, data: &[u8]) -> (r: std::io::Result<()>)
        ensures
            final(self).keeps_copy() == old(self).keeps_copy(),
            final(self).never_fails() == old(self).never_fails(),
            old(self).never_fails() ==> r is Ok,
            old(self).keeps_copy() && r is Ok ==> final(self).accepted() == old(self).accepted() + data@,
    ;

    /// Makes what was accepted durable; an error ends the imaging.
    fn flush(&mut self) -> (r: std::io::Result<()>)
        ensures
            final(self).keeps_copy() == old(self).keeps_copy(),
            final(self).never_fails() == old(self).never_fails(),
            old(self).never_fails() ==> r is Ok,
            old(self).keeps_copy() ==> final(self).accepted() == old(self).accepted(),
    ;
}

/// A sink that keeps the image in memory.
pub struct MemorySink {
    pub bytes: Vec<u8>,
}

impl MemorySink {
    /// An empty sink.
    pub fn new() -> (r: Self)
        ensures
            r.bytes@.len() == 0,
    {
        MemorySink { bytes: Vec::new() }
    }
}

impl ImageSink for MemorySink {
    /// Keeps everything it accepts.
    open spec fn keeps_copy(&self) -> bool {
        true
    }

    /// The bytes held.
    open spec fn accepted(&self) -> Seq<u8> {
        self.bytes@
    }

    /// Writing to memory does not fail.
    open spec fn never_fails(&self) -> bool {
        true
    }

    /// Appends `data`; never fails.
    fn write_chunk(&mut self, data: &[u8]) -> (r: std::io::Result<()>) {
        let mut i: usize = 0;
        while i < data.len()
            invariant
                i <= data@.len(),
                self.bytes@ == old(self).bytes@ + data@.subrange(0, i as int),
            decreases data@.len() - i,
        {
            self.bytes.push(data[i]);
            i = i + 1;
            assert(self.bytes@ =~= old(self).bytes@ + data@.subrange(0, i as int));
        }
        assert(data@.subrange(0, data@.len() as int) =~= data@);
        Ok(())
    }

    /// Nothing to make durable; never fails.
    fn flush(&mut self) -> (r: std::io::Result<()>) {
        Ok(())
    }
}

/// What imaging a device produced: the size reported, the bytes imaged,
/// the bad-sector map, the SHA-256 of the image and the tool's version.
pub struct ImageMetadata {
    pub source_size: u64,
    pub bytes_imaged: u64,
    pub bad_sectors: Vec<BadSectorRecord>,
    pub sha256_of_image: String,
    pub tool_version: String,
}

/// `img` is an image the metadata `m` describes: as long as the bytes
/// imaged, with `m`'s hash; over a faithful wrapped reader, as long as the
/// device, and each byte outside the sectors recorded in `new_bad` is the
/// device's byte; and a sink that keeps a copy went from `before` to
/// `before` followed by `img`.
pub open spec fn image_described(
    img: Seq<u8>,
    m: ImageMetadata,
    device: Seq<u8>,
    faithful: bool,
    new_bad: Seq<BadSectorRecord>,
    keeps_copy: bool,
    before: Seq<u8>,
    after: Seq<u8>,
) -> bool {
    &&& img.len() == m.bytes_imaged
    &&& m.sha256_of_image@ == hex_lower(sha256(img))
    &&& faithful ==> img.len() == device.len() && forall|i: int| 0 <= i < img.len() ==>
        recorded(new_bad, i) || img[i] == device[i]
    &&& keeps_copy ==> after == before + img
}

proof fn lemma_recorded_widen(s: Seq<BadSectorRecord>, a: int, b: int, c: int, d: int, p: int)
    requires
        0 <= c <= a <= b <= d <= s.len(),
        recorded(s.subrange(a, b), p),
    ensures
        recorded(s.subrange(c, d), p),
{
    let k = choose|k: int| 0 <= k < b - a && (#[trigger] s.subrange(a, b)[k]).offset <= p
        && p < s.subrange(a, b)[k].offset + s.subrange(a, b)[k].length;
    assert(s.subrange(c, d)[k + a - c] == s.subrange(a, b)[k]);
}

/// Images the device behind `reader` into `sink`, `IMAGE_CHUNK` bytes at a
/// time from offset 0 to the reported size, hashing exactly what is handed
/// to the sink, then flushes the sink. Fails with the error of the size
/// query, of a write or of the flush; over a reliable wrapped reader and a
/// sink that never fails it succeeds. On success the image is as long as
/// the reported size and its hash is recorded; over a wrapped reader that
/// reads the whole device, tried at least once per sector, the image is
/// the device itself.
pub fn image_device<R: StorageReader, S: ImageSink>(
    reader: &mut ResilientReader<R>,
    sink: &mut S,
    tool_version: &str,
) -> (r: std::io::Result<ImageMetadata>)
    ensures
        final(reader).contents() == old(reader).contents(),
        final(reader).inner_faithful() == old(reader).inner_faithful(),
        final(reader).inner_whole() == old(reader).inner_whole(),
        final(reader).retries() == old(reader).retries(),
        final(reader).bad_map().subrange(0, old(reader).bad_map().len() as int) == old(reader).bad_map(),
        final(sink).keeps_copy() == old(sink).keeps_copy(),
        old(reader).inner_reliable() && old(sink).never_fails() ==> r is Ok,
        r matches Ok(m) ==> m.bytes_imaged == m.source_size && m.tool_version@ == tool_version@,
        r matches Ok(m) ==> same_records(m.bad_sectors@, final(reader).bad_map()),
        r matches Ok(m) ==> exists|img: Seq<u8>| #[trigger] image_described(img, m, old(reader).contents(),
            old(reader).inner_faithful(),
            final(reader).bad_map().subrange(old(reader).bad_map().len() as int, final(reader).bad_map().len() as int),
            old(sink).keeps_copy(), old(sink).accepted(), final(sink).accepted()),
        old(reader).inner_whole() && old(reader).retries() >= 1 ==> (r matches Ok(m) ==> {
            &&& m.source_size == old(reader).contents().len()
            &&& m.sha256_of_image@ == hex_lower(sha256(old(reader).contents()))
            &&& final(reader).bad_map() == old(reader).bad_map()
            &&& old(sink).keeps_copy() ==> final(sink).accepted() == old(sink).accepted() + old(reader).contents()
        }),
{
    let size = match reader.get_size() {
        Ok(n) => n,
        Err(e) => return Err(e),
    };
    let ghost device = reader.contents();
    let ghost b0 = reader.bad_map().len() as int;
    let ghost mut img: Seq<u8> = Seq::empty();
    let mut hasher = Sha256Stream::new();
    let mut pos: u64 = 0;
    while pos < size
        invariant
            pos <= size,
            img.len() == pos,
            hasher.fed() == img,
            device == old(reader).contents(),
            b0 == old(reader).bad_map().len(),
            reader.contents() == device,
            reader.inner_faithful() == old(reader).inner_faithful(),
            reader.inner_whole() == old(reader).inner_whole(),
            reader.retries() == old(reader).retries(),
            reader.bad_map().len() >= b0,
            reader.bad_map().subrange(0, b0) == old(reader).bad_map(),
            sink.keeps_copy() == old(sink).keeps_copy(),
            sink.never_fails() == old(sink).never_fails(),
            reader.inner_reliable() == old(reader).inner_reliable(),
            sink.keeps_copy() ==> sink.accepted() == old(sink).accepted() + img,
            reader.inner_faithful() ==> size == device.len() && forall|i: int| 0 <= i < pos ==>
                recorded(reader.bad_map().subrange(b0, reader.bad_map().len() as int), i) || img[i] == device[i],
            reader.inner_whole() && reader.retries() >= 1 ==> size == device.len()
                && img == device.subrange(0, pos as int) && reader.bad_map() == old(reader).bad_map(),
        decreases size - pos,
    {
        let remaining = size - pos;
        let this_len: u64 = if remaining < IMAGE_CHUNK { remaining } else { IMAGE_CHUNK };
        let ghost before = reader.bad_map();
        let data = reader.read_resilient(pos, this_len as usize);
        match sink.write_chunk(data.as_slice()) {
            Ok(()) => {},
            Err(e) => return Err(e),
        }
        hasher.update(data.as_slice());
        proof {
            let after = reader.bad_map();
            let n1 = before.len() as int;
            let n2 = after.len() as int;
            if reader.inner_faithful() {
                assert forall|i: int| 0 <= i < pos + this_len implies
                    recorded(after.subrange(b0, n2), i) || (img + data@)[i] == device[i] by {
                    if i < pos {
                        if recorded(before.subrange(b0, n1), i) {
                            assert(before.subrange(b0, n1) =~= after.subrange(b0, n1));
                            lemma_recorded_widen(after, b0, n1, b0, n2, i);
                        }
                    } else {
                        let j = i - pos;
                        assert(0 <= j < this_len);
                        if recorded(after.subrange(n1, n2), pos + j) {
                            lemma_recorded_widen(after, n1, n2, b0, n2, i);
                        }
                    }
                }
            }
            assert(after.subrange(0, b0) =~= before.subrange(0, b0));
            if reader.inner_whole() && reader.retries() >= 1 {
                assert(img + data@ =~= device.subrange(0, pos + this_len));
            }
            img = img + data@;
        }
        pos = pos + this_len;
    }
    match sink.flush() {
        Ok(()) => {},
        Err(e) => return Err(e),
    }
    let sha256_of_image = hasher.finish_hex();
    let bad_sectors = reader.bad_sector_copies();
    let m = ImageMetadata {
        source_size: size,
        bytes_imaged: pos,
        bad_sectors,
        sha256_of_image,
        tool_version: crate::text::owned(tool_version),
    };
    let result: std::io::Result<ImageMetadata> = Ok(m);
    proof {
        if old(reader).inner_whole() && old(reader).retries() >= 1 {
            assert(device.subrange(0, device.len() as int) =~= device);
        }
        assert(image_described(img, result->Ok_0, device, old(reader).inner_faithful(),
            reader.bad_map().subrange(b0, reader.bad_map().len() as int),
            old(sink).keeps_copy(), old(sink).accepted(), sink.accepted()));
    }
    result
}

} // verus!
