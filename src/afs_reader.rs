//! Parses an AFS archive held in memory and reads its entries.
use vstd::prelude::*;
use vstd::slice::slice_subrange;

use crate::format::{
    AfsError, append_bytes, entry_count, entry_data, entry_offset, entry_size, le_u32_at, magic, parses,
    read_u32_le, window,
};

verus! {

/// One row of the table of contents.
struct AfsFile {
    offset: u32,
    size: u32,
}

/// An archive and its parsed table of contents. Entries are addressed by
/// their index in the table.
pub struct AfsReader {
    inner: Vec<u8>,
    files: Vec<AfsFile>,
}

/// Reads the little-endian number at byte `p` of `data`.
fn u32_at(data: &[u8], p: usize) -> (r: u32)
    requires
        p + 4 <= data@.len(),
    ensures
        r == le_u32_at(data@, p as int),
{
    let _ = data.len();
    read_u32_le(slice_subrange(data, p, p + 4))
}

impl AfsReader {
    /// The bytes of the archive.
    pub closed spec fn archive(&self) -> Seq<u8> {
        self.inner@
    }

    /// The archive parses, and the table held is the one it stores.
    pub closed spec fn wf(&self) -> bool {
        &&& parses(self.inner@)
        &&& self.files@.len() == entry_count(self.inner@)
        &&& forall|i: int|
            0 <= i < self.files@.len() ==> #[trigger] self.files@[i].offset == entry_offset(
                self.inner@,
                i,
            ) && self.files@[i].size == entry_size(self.inner@, i)
    }

    /// Checks the magic, then reads the entry count and the table of
    /// contents that follows it.
    pub fn new(inner: Vec<u8>) -> (r: Result<AfsReader, AfsError>)
        ensures
            r is Ok <==> parses(inner@),
            r is Ok ==> r->Ok_0.wf() && r->Ok_0.archive() == inner@,
            inner@.len() < 4 ==> r == Err::<AfsReader, AfsError>(AfsError::Truncated),
            inner@.len() >= 4 && inner@.subrange(0, 4) != magic() ==> r == Err::<
                AfsReader,
                AfsError,
            >(AfsError::BadMagic),
            inner@.len() >= 4 && inner@.subrange(0, 4) == magic() && !parses(inner@) ==> r
                == Err::<AfsReader, AfsError>(AfsError::Truncated),
    {
        if inner.len() < 4 {
            return Err(AfsError::Truncated);
        }
        if inner[0] != 0x41u8 || inner[1] != 0x46u8 || inner[2] != 0x53u8 || inner[3] != 0x00u8 {
            assert(inner@.subrange(0, 4) != magic()) by {
                assert(inner@.subrange(0, 4)[0] == inner@[0]);
                assert(inner@.subrange(0, 4)[1] == inner@[1]);
                assert(inner@.subrange(0, 4)[2] == inner@[2]);
                assert(inner@.subrange(0, 4)[3] == inner@[3]);
            }
            return Err(AfsError::BadMagic);
        }
        assert(inner@.subrange(0, 4) =~= magic());
        if inner.len() < 8 {
            return Err(AfsError::Truncated);
        }
        let num_entries = u32_at(inner.as_slice(), 4);
        if (inner.len() as u64) < 8 + 8 * (num_entries as u64) {
            return Err(AfsError::Truncated);
        }
        let total = inner.len();
        let mut files: Vec<AfsFile> = Vec::new();
        let mut i: usize = 0;
        while i < num_entries as usize
            invariant
                parses(inner@),
                total == inner@.len(),
                num_entries == entry_count(inner@),
                i <= num_entries,
                files@.len() == i,
                forall|j: int|
                    0 <= j < i ==> #[trigger] files@[j].offset == entry_offset(inner@, j)
                        && files@[j].size == entry_size(inner@, j),
            decreases num_entries - i,
        {
            let offset = u32_at(inner.as_slice(), 8 + 8 * i);
            let size = u32_at(inner.as_slice(), 12 + 8 * i);
            files.push(AfsFile { offset, size });
            i += 1;
        }
        Ok(AfsReader { inner, files })
    }

    /// The number of entries.
    pub fn len(&self) -> (r: usize)
        requires
            self.wf(),
        ensures
            r == entry_count(self.archive()),
    {
        self.files.len()
    }

    /// A stream over entry `element`, or `None` when there is no such entry.
    pub fn open(&self, element: usize) -> (r: Option<AfsEntry<'_>>)
        requires
            self.wf(),
        ensures
            element >= entry_count(self.archive()) ==> r is None,
            element < entry_count(self.archive()) ==> r is Some && r->Some_0.source()
                == self.archive() && r->Some_0.position() == entry_offset(
                self.archive(),
                element as int,
            ) && r->Some_0.end() == entry_offset(self.archive(), element as int) + entry_size(
                self.archive(),
                element as int,
            ) && r->Some_0.remaining() == entry_data(self.archive(), element as int)
                && r->Some_0.remaining().len() <= entry_size(self.archive(), element as int),
    {
        if element >= self.files.len() {
            return None;
        }
        let file = &self.files[element];
        Some(AfsEntry::new(self.inner.as_slice(), file.offset as u64, file.size as u64))
    }
}

/// A bounded stream over `[start, start + length)` of an archive's bytes.
pub struct AfsEntry<'a> {
    file: &'a [u8],
    current: u64,
    end: u64,
}

impl<'a> AfsEntry<'a> {
    /// The bytes of the whole archive.
    pub closed spec fn source(&self) -> Seq<u8> {
        self.file@
    }

    /// The absolute offset of the next byte to read.
    pub closed spec fn position(&self) -> int {
        self.current as int
    }

    /// The absolute offset at which the entry ends.
    pub closed spec fn end(&self) -> int {
        self.end as int
    }

    /// The bytes still to be read: up to the entry's end, or the archive's
    /// if that comes first.
    pub open spec fn remaining(&self) -> Seq<u8> {
        window(self.source(), self.position(), self.end())
    }

    fn new(file: &'a [u8], start: u64, length: u64) -> (r: AfsEntry<'a>)
        requires
            start <= u32::MAX,
            length <= u32::MAX,
        ensures
            r.source() == file@,
            r.position() == start,
            r.end() == start + length,
    {
        AfsEntry { file, current: start, end: start + length }
    }

    /// Copies the next bytes of the entry into the front of `buf`, as many as
    /// fit and remain, and returns how many. Returns 0 once the entry is
    /// consumed; never reads past its end.
    pub fn read(&mut self, buf: &mut [u8]) -> (n: usize)
        ensures
            n as int == if old(buf)@.len() < old(self).remaining().len() {
                old(buf)@.len() as int
            } else {
                old(self).remaining().len() as int
            },
            final(buf)@ == old(self).remaining().subrange(0, n as int) + old(buf)@.subrange(
                n as int,
                old(buf)@.len() as int,
            ),
            final(self).source() == old(self).source(),
            final(self).end() == old(self).end(),
            final(self).position() == old(self).position() + n,
            final(self).remaining() == old(self).remaining().subrange(
                n as int,
                old(self).remaining().len() as int,
            ),
    {
        let flen = self.file.len();
        let len = flen as u64;
        if self.current >= self.end || self.current >= len {
            assert(buf@.subrange(0, buf@.len() as int) =~= buf@);
            return 0;
        }
        let stop = if self.end <= len {
            self.end
        } else {
            len
        };
        let avail = stop - self.current;
        let n: usize = if (buf.len() as u64) < avail {
            buf.len()
        } else {
            avail as usize
        };
        let start = self.current as usize;
        let ghost rem = self.remaining();
        let ghost old_buf = buf@;
        assert(rem =~= self.file@.subrange(start as int, stop as int));
        let mut i: usize = 0;
        while i < n
            invariant
                i <= n,
                n <= buf@.len(),
                n <= rem.len(),
                start + n <= self.file@.len(),
                flen == self.file@.len(),
                start <= stop <= self.file@.len(),
                n <= stop - start,
                rem == self.file@.subrange(start as int, stop as int),
                buf@.len() == old_buf.len(),
                forall|j: int| 0 <= j < i ==> #[trigger] buf@[j] == rem[j],
                forall|j: int| i <= j < buf@.len() ==> #[trigger] buf@[j] == old_buf[j],
            decreases n - i,
        {
            buf[i] = self.file[start + i];
            i += 1;
        }
        assert(buf@ =~= rem.subrange(0, n as int) + old_buf.subrange(n as int, old_buf.len() as int));
        self.current = self.current + n as u64;
        assert(self.remaining() =~= rem.subrange(n as int, rem.len() as int));
        n
    }

    /// Reads the entry to its end, in chunks, and returns what was read.
    pub fn read_to_end(&mut self) -> (r: Vec<u8>)
        ensures
            r@ == old(self).remaining(),
            final(self).remaining().len() == 0,
            final(self).source() == old(self).source(),
            final(self).end() == old(self).end(),
    {
        let mut out: Vec<u8> = Vec::new();
        let mut chunk: Vec<u8> = vec![0u8; 4096];
        loop
            invariant
                chunk@.len() == 4096,
                out@ + self.remaining() == old(self).remaining(),
                self.source() == old(self).source(),
                self.end() == old(self).end(),
            decreases self.remaining().len(),
        {
            let n = self.read(chunk.as_mut_slice());
            if n == 0 {
                assert(out@ =~= old(self).remaining());
                return out;
            }
            append_bytes(&mut out, slice_subrange(chunk.as_slice(), 0, n));
            assert(out@ + self.remaining() =~= old(self).remaining());
        }
    }
}

} // verus!
