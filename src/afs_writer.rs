//! Serialises a list of blobs into one AFS archive.
use vstd::prelude::*;

use crate::format::{
    AfsError, append_bytes, AFS_ALIGN, AFS_DATA_START, AFS_MAX_ENTRIES, align_up, archive_bytes, body_bytes,
    data_end, header_bytes, le_bytes, lemma_align_up, lemma_body_len, lemma_data_end_monotonic,
    lemma_data_end_step, lemma_table_len, magic, representable, table_bytes, u32_le_bytes, zeros,
};

verus! {

/// Collects the blobs of an archive, in order; `write` lays them out.
pub struct AfsWriter {
    files: Vec<Vec<u8>>,
}

/// The contents of each blob of a list.
pub open spec fn blob_views(files: Seq<Vec<u8>>) -> Seq<Seq<u8>> {
    files.map_values(|f: Vec<u8>| f@)
}

/// Where one blob was placed.
struct PendingEntry {
    offset: u32,
    size: u32,
}

/// Appends `n` zero bytes to `out`.
fn append_zeros(out: &mut Vec<u8>, n: usize)
    ensures
        final(out)@ == old(out)@ + zeros(n as nat),
{
    let mut i: usize = 0;
    while i < n
        invariant
            i <= n,
            out@ == old(out)@ + zeros(i as nat),
        decreases n - i,
    {
        out.push(0u8);
        i += 1;
        assert(zeros(i as nat) == zeros((i - 1) as nat).push(0u8));
    }
}

/// The next multiple of the alignment from `x` on.
fn align_up_u64(x: u64) -> (r: u64)
    requires
        x <= u32::MAX,
    ensures
        r == align_up(x as int),
{
    if x % AFS_ALIGN == 0 {
        x
    } else {
        x + (AFS_ALIGN - x % AFS_ALIGN)
    }
}

impl AfsWriter {
    /// The blobs, in the order they will be stored.
    pub closed spec fn blobs(&self) -> Seq<Seq<u8>> {
        blob_views(self.files@)
    }

    /// A writer for `files`, stored in the order given.
    pub fn new(files: Vec<Vec<u8>>) -> (r: AfsWriter)
        ensures
            r.blobs() == blob_views(files@),
    {
        AfsWriter { files }
    }

    /// Lays out every blob from `AFS_DATA_START` on, each at a multiple of
    /// `AFS_ALIGN` and followed by zero padding up to the next one, and puts
    /// the header and table of contents in front. Returns the archive's bytes.
    ///
    /// Offsets and sizes are 32-bit in the format. Blobs whose layout would
    /// not fit are refused with `TooLarge` rather than wrapped, and more
    /// entries than the table has room for before `AFS_DATA_START` with
    /// `TooManyEntries`.
    pub fn write(self) -> (r: Result<Vec<u8>, AfsError>)
        ensures
            r is Ok <==> representable(self.blobs()),
            r is Ok ==> r->Ok_0@ == archive_bytes(self.blobs()),
            self.blobs().len() > AFS_MAX_ENTRIES ==> r == Err::<Vec<u8>, AfsError>(
                AfsError::TooManyEntries,
            ),
            self.blobs().len() <= AFS_MAX_ENTRIES && !representable(self.blobs()) ==> r == Err::<
                Vec<u8>,
                AfsError,
            >(AfsError::TooLarge),
    {
        let ghost blobs = self.blobs();
        let files = self.files;
        let n = files.len();
        assert(blobs.len() == n);
        if n > AFS_MAX_ENTRIES {
            return Err(AfsError::TooManyEntries);
        }
        // Place each blob.

        let mut entries: Vec<PendingEntry> = Vec::new();
        let mut offset: u64 = AFS_DATA_START;
        let mut i: usize = 0;
        while i < n
            invariant
                n == files@.len(),
                blobs == blob_views(files@),
                blobs.len() == n,
                n <= AFS_MAX_ENTRIES,
                blobs == self.blobs(),
                i <= n,
                offset == data_end(blobs, i as nat),
                offset <= u32::MAX,
                entries@.len() == i,
                forall|j: int|
                    0 <= j < i ==> #[trigger] entries@[j].offset == data_end(blobs, j as nat)
                        && entries@[j].size == blobs[j].len(),
            decreases n - i,
        {
            let len = files[i].len();
            assert(blobs[i as int] == files@[i as int]@);
            proof {
                lemma_data_end_step(blobs, i as nat);
                lemma_data_end_monotonic(blobs, (i + 1) as nat, n as nat);
            }
            if len as u64 > u32::MAX as u64 - offset {
                return Err(AfsError::TooLarge);
            }
            let next = align_up_u64(offset + len as u64);
            if next > u32::MAX as u64 {
                return Err(AfsError::TooLarge);
            }
            entries.push(PendingEntry { offset: offset as u32, size: len as u32 });
            offset = next;
            i += 1;
        }
        // Header and table of contents.

        let mut out: Vec<u8> = Vec::new();
        out.push(0x41u8);
        out.push(0x46u8);
        out.push(0x53u8);
        out.push(0x00u8);
        append_bytes(&mut out, u32_le_bytes(n as u32).as_slice());
        assert(out@ == magic() + le_bytes(n as u32));
        let mut i: usize = 0;
        while i < n
            invariant
                n == files@.len(),
                blobs == blob_views(files@),
                blobs.len() == n,
                n <= AFS_MAX_ENTRIES,
                entries@.len() == n,
                forall|j: int|
                    0 <= j < n ==> #[trigger] entries@[j].offset == data_end(blobs, j as nat)
                        && entries@[j].size == blobs[j].len(),
                i <= n,
                out@ == magic() + le_bytes(n as u32) + table_bytes(blobs, i as nat),
            decreases n - i,
        {
            append_bytes(&mut out, u32_le_bytes(entries[i].offset).as_slice());
            append_bytes(&mut out, u32_le_bytes(entries[i].size).as_slice());
            i += 1;
        }
        assert(out@ == header_bytes(blobs));
        proof {
            lemma_table_len(blobs, n as nat);
        }
        let reserved = AFS_DATA_START as usize - out.len();
        append_zeros(&mut out, reserved);
        // Data, each blob padded to the next boundary.

        let ghost head = out@;
        assert(body_bytes(blobs, 0) == Seq::<u8>::empty());
        let mut i: usize = 0;
        while i < n
            invariant
                n == files@.len(),
                blobs == blob_views(files@),
                blobs.len() == n,
                n <= AFS_MAX_ENTRIES,
                offset == data_end(blobs, n as nat),
                offset <= u32::MAX,
                i <= n,
                head.len() == AFS_DATA_START,
                out@ == head + body_bytes(blobs, i as nat),
            decreases n - i,
        {
            proof {
                lemma_body_len(blobs, i as nat);
                lemma_data_end_step(blobs, i as nat);
                lemma_data_end_monotonic(blobs, (i + 1) as nat, n as nat);
            }
            assert(blobs[i as int] == files@[i as int]@);
            append_bytes(&mut out, files[i].as_slice());
            let end = out.len() as u64;
            let next = align_up_u64(end);
            append_zeros(&mut out, (next - end) as usize);
            i += 1;
        }
        assert(out@ == archive_bytes(blobs));
        Ok(out)
    }
}

} // verus!
