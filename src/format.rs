//! The on-disk layout of an AFS archive, as values and as spec functions.
use vstd::prelude::*;

use byteorder::{ByteOrder, LittleEndian};

verus! {

/// Absolute offset at which the data of the first entry begins.
pub const AFS_DATA_START: u64 = 0x80000;

/// Every entry's data starts at a multiple of this many bytes.
pub const AFS_ALIGN: u64 = 0x800;

/// The most entries whose header and table fit before `AFS_DATA_START`.
pub const AFS_MAX_ENTRIES: usize = 65535;

/// The four bytes that open every archive: `"AFS\0"`.
pub open spec fn magic() -> Seq<u8> {
    seq![0x41u8, 0x46u8, 0x53u8, 0x00u8]
}

/// Why an archive could not be read or written.
#[derive(Clone, Copy, Debug, PartialEq, Eq, Structural)]
pub enum AfsError {
    /// The input does not open with `"AFS\0"`.
    BadMagic,
    /// The input ends before the header or the table of contents does.
    Truncated,
    /// The table of contents would run into the data region.
    TooManyEntries,
    /// An offset or size would not fit in the format's 32-bit fields.
    TooLarge,
}

/// The value of four bytes read as a little-endian unsigned integer.
pub open spec fn le_u32(b: Seq<u8>) -> u32 {
    (b[0] as int + 256 * b[1] as int + 65536 * b[2] as int + 16777216 * b[3] as int) as u32
}

/// The four bytes of `n` in little-endian order.
pub open spec fn le_bytes(n: u32) -> Seq<u8> {
    seq![
        (n % 256) as u8,
        ((n / 256) % 256) as u8,
        ((n / 65536) % 256) as u8,
        (n / 16777216) as u8,
    ]
}

/// Encoding a number and reading it back gives the number.
pub proof fn lemma_le_round_trip(n: u32)
    ensures
        le_bytes(n).len() == 4,
        le_u32(le_bytes(n)) == n,
{
    let b = le_bytes(n);
    let x = n as int;
    assert(b[0] as int == x % 256);
    assert(b[1] as int == (x / 256) % 256);
    assert(b[2] as int == (x / 65536) % 256);
    assert(b[3] as int == x / 16777216);
    assert(x == x % 256 + 256 * ((x / 256) % 256) + 65536 * ((x / 65536) % 256) + 16777216 * (x
        / 16777216)) by (nonlinear_arith)
        requires
            0 <= x < 0x1_0000_0000,
    {
    }
}

/// Appends `src` to `out`.
pub(crate) fn append_bytes(out: &mut Vec<u8>, src: &[u8])
    ensures
        final(out)@ == old(out)@ + src@,
{
    let mut i: usize = 0;
    while i < src.len()
        invariant
            i <= src@.len(),
            out@ == old(out)@ + src@.subrange(0, i as int),
        decreases src@.len() - i,
    {
        out.push(src[i]);
        i += 1;
    }
    assert(src@.subrange(0, src@.len() as int) == src@);
}

/// Relies on byteorder's `LittleEndian::read_u32`, which reads the first four
/// bytes of `buf` with `u32::from_le_bytes` and panics when `buf` is shorter.
#[verifier::external_body]
pub(crate) fn read_u32_le(buf: &[u8]) -> (r: u32)
    requires
        buf@.len() >= 4,
    ensures
        r == le_u32(buf@),
{
    LittleEndian::read_u32(buf)
}

/// Relies on byteorder's `LittleEndian::write_u32`, which stores
/// `n.to_le_bytes()` in the first four bytes of `buf`.
#[verifier::external_body]
pub(crate) fn u32_le_bytes(n: u32) -> (r: Vec<u8>)
    ensures
        r@ == le_bytes(n),
{
    let mut buf = vec![0u8; 4];
    LittleEndian::write_u32(&mut buf, n);
    buf
}

/// The little-endian number stored in `data` at byte `p`.
pub open spec fn le_u32_at(data: Seq<u8>, p: int) -> u32 {
    le_u32(data.subrange(p, p + 4))
}

/// `n` bytes of zero.
pub open spec fn zeros(n: nat) -> Seq<u8> {
    Seq::new(n, |i: int| 0u8)
}

/// The least multiple of the alignment that is at least `x`.
pub open spec fn align_up(x: int) -> int {
    if x % AFS_ALIGN as int == 0 {
        x
    } else {
        x + (AFS_ALIGN - x % AFS_ALIGN as int)
    }
}

// ---- The archive that the writer produces from a list of blobs ----

/// Where the data of blob `k` of `blobs` begins: the end of the first `k`
/// blobs, each followed by its padding.
pub open spec fn data_end(blobs: Seq<Seq<u8>>, k: nat) -> int
    decreases k,
{
    if k == 0 {
        AFS_DATA_START as int
    } else {
        align_up(data_end(blobs, (k - 1) as nat) + blobs[k - 1].len())
    }
}

/// The table entries of the first `k` blobs: offset, then size, each as a
/// little-endian `u32`.
pub open spec fn table_bytes(blobs: Seq<Seq<u8>>, k: nat) -> Seq<u8>
    decreases k,
{
    if k == 0 {
        Seq::empty()
    } else {
        table_bytes(blobs, (k - 1) as nat) + le_bytes(data_end(blobs, (k - 1) as nat) as u32)
            + le_bytes(blobs[k - 1].len() as u32)
    }
}

/// Magic, entry count and table of contents.
pub open spec fn header_bytes(blobs: Seq<Seq<u8>>) -> Seq<u8> {
    magic() + le_bytes(blobs.len() as u32) + table_bytes(blobs, blobs.len())
}

/// The data region after `AFS_DATA_START`: the first `k` blobs, each padded
/// with zeros to the next alignment boundary.
pub open spec fn body_bytes(blobs: Seq<Seq<u8>>, k: nat) -> Seq<u8>
    decreases k,
{
    if k == 0 {
        Seq::empty()
    } else {
        body_bytes(blobs, (k - 1) as nat) + blobs[k - 1] + zeros(
            (data_end(blobs, k) - data_end(blobs, (k - 1) as nat) - blobs[k - 1].len()) as nat,
        )
    }
}

/// The whole archive: header, zeros up to `AFS_DATA_START`, then the data.
pub open spec fn archive_bytes(blobs: Seq<Seq<u8>>) -> Seq<u8> {
    header_bytes(blobs) + zeros((AFS_DATA_START - header_bytes(blobs).len()) as nat) + body_bytes(
        blobs,
        blobs.len(),
    )
}

/// The blobs can be stored: the table fits before `AFS_DATA_START`, and every
/// offset and size, padding included, fits in 32 bits.
pub open spec fn representable(blobs: Seq<Seq<u8>>) -> bool {
    &&& blobs.len() <= AFS_MAX_ENTRIES
    &&& data_end(blobs, blobs.len()) <= u32::MAX
}

/// Facts on `align_up` for a non-negative offset.
pub proof fn lemma_align_up(x: int)
    requires
        x >= 0,
    ensures
        x <= align_up(x) < x + AFS_ALIGN,
        align_up(x) % AFS_ALIGN as int == 0,
{
}

/// The data of blob `k` ends, padding included, where that of blob `k + 1`
/// begins, at an aligned offset.
pub proof fn lemma_data_end_step(blobs: Seq<Seq<u8>>, k: nat)
    ensures
        data_end(blobs, k) >= AFS_DATA_START,
        data_end(blobs, k) % AFS_ALIGN as int == 0,
        data_end(blobs, k) + blobs[k as int].len() <= data_end(blobs, k + 1),
        data_end(blobs, k + 1) < data_end(blobs, k) + blobs[k as int].len() + AFS_ALIGN,
    decreases k,
{
    if k > 0 {
        lemma_data_end_step(blobs, (k - 1) as nat);
    }
    lemma_align_up(data_end(blobs, k) + blobs[k as int].len());
}

/// Data offsets never decrease along the list.
pub proof fn lemma_data_end_monotonic(blobs: Seq<Seq<u8>>, j: nat, k: nat)
    requires
        j <= k,
    ensures
        data_end(blobs, j) <= data_end(blobs, k),
    decreases k - j,
{
    if j < k {
        lemma_data_end_step(blobs, j);
        lemma_data_end_monotonic(blobs, j + 1, k);
    }
}

/// The table holds eight bytes per entry.
pub proof fn lemma_table_len(blobs: Seq<Seq<u8>>, k: nat)
    ensures
        table_bytes(blobs, k).len() == 8 * k,
    decreases k,
{
    if k > 0 {
        lemma_table_len(blobs, (k - 1) as nat);
    }
}

/// The data region of the first `k` blobs ends where blob `k` begins.
pub proof fn lemma_body_len(blobs: Seq<Seq<u8>>, k: nat)
    ensures
        body_bytes(blobs, k).len() == data_end(blobs, k) - AFS_DATA_START,
    decreases k,
{
    if k > 0 {
        lemma_body_len(blobs, (k - 1) as nat);
        lemma_data_end_step(blobs, (k - 1) as nat);
    }
}

// ---- What a reader finds in an archive ----

/// `data` opens with the magic, and holds the whole table that its count
/// announces.
pub open spec fn parses(data: Seq<u8>) -> bool {
    &&& data.len() >= 8
    &&& data.subrange(0, 4) == magic()
    &&& data.len() >= 8 + 8 * entry_count(data)
}

/// The entry count stored in the header.
pub open spec fn entry_count(data: Seq<u8>) -> nat {
    le_u32_at(data, 4) as nat
}

/// The stored offset of entry `i`.
pub open spec fn entry_offset(data: Seq<u8>, i: int) -> u32 {
    le_u32_at(data, 8 + 8 * i)
}

/// The stored size of entry `i`.
pub open spec fn entry_size(data: Seq<u8>, i: int) -> u32 {
    le_u32_at(data, 12 + 8 * i)
}

/// The bytes of `data` in `[start, end)`, cut short where `data` ends.
pub open spec fn window(data: Seq<u8>, start: int, end: int) -> Seq<u8> {
    if start >= end || start >= data.len() {
        Seq::empty()
    } else if end <= data.len() {
        data.subrange(start, end)
    } else {
        data.subrange(start, data.len() as int)
    }
}

/// The bytes that reading entry `i` of `data` to its end yields.
pub open spec fn entry_data(data: Seq<u8>, i: int) -> Seq<u8> {
    window(data, entry_offset(data, i) as int, entry_offset(data, i) + entry_size(data, i))
}

/// Row `i` of the table of the first `k` blobs holds blob `i`'s offset and
/// size.
pub proof fn lemma_table_row(blobs: Seq<Seq<u8>>, k: nat, i: int)
    requires
        0 <= i < k,
    ensures
        table_bytes(blobs, k).subrange(8 * i, 8 * i + 4) == le_bytes(
            data_end(blobs, i as nat) as u32,
        ),
        table_bytes(blobs, k).subrange(8 * i + 4, 8 * i + 8) == le_bytes(blobs[i].len() as u32),
    decreases k,
{
    let t = table_bytes(blobs, k);
    let prev = table_bytes(blobs, (k - 1) as nat);
    lemma_table_len(blobs, (k - 1) as nat);
    if i < k - 1 {
        lemma_table_row(blobs, (k - 1) as nat, i);
        assert(t.subrange(8 * i, 8 * i + 4) =~= prev.subrange(8 * i, 8 * i + 4));
        assert(t.subrange(8 * i + 4, 8 * i + 8) =~= prev.subrange(8 * i + 4, 8 * i + 8));
    } else {
        assert(t.subrange(8 * i, 8 * i + 4) =~= le_bytes(data_end(blobs, i as nat) as u32));
        assert(t.subrange(8 * i + 4, 8 * i + 8) =~= le_bytes(blobs[i].len() as u32));
    }
}

/// Blob `i` stands in the data region of the first `k` blobs at its offset.
pub proof fn lemma_body_holds(blobs: Seq<Seq<u8>>, k: nat, i: int)
    requires
        0 <= i < k,
    ensures
        body_bytes(blobs, k).subrange(
            data_end(blobs, i as nat) - AFS_DATA_START,
            data_end(blobs, i as nat) - AFS_DATA_START + blobs[i].len(),
        ) == blobs[i],
    decreases k,
{
    let lo = data_end(blobs, i as nat) - AFS_DATA_START;
    let hi = lo + blobs[i].len();
    let b = body_bytes(blobs, k);
    let prev = body_bytes(blobs, (k - 1) as nat);
    lemma_body_len(blobs, (k - 1) as nat);
    lemma_data_end_step(blobs, (k - 1) as nat);
    if i < k - 1 {
        lemma_body_holds(blobs, (k - 1) as nat, i);
        lemma_data_end_step(blobs, i as nat);
        lemma_data_end_monotonic(blobs, (i + 1) as nat, (k - 1) as nat);
        assert(b.subrange(lo, hi) =~= prev.subrange(lo, hi));
    } else {
        assert(b.subrange(lo, hi) =~= blobs[i]);
    }
}

/// The archive is as long as its data region reaches, and its header and
/// table come first.
pub proof fn lemma_archive_parts(blobs: Seq<Seq<u8>>)
    requires
        representable(blobs),
    ensures
        archive_bytes(blobs).len() == data_end(blobs, blobs.len()),
        header_bytes(blobs).len() == 8 + 8 * blobs.len(),
        archive_bytes(blobs).subrange(0, 8 + 8 * blobs.len() as int) == header_bytes(blobs),
        archive_bytes(blobs).subrange(AFS_DATA_START as int, data_end(blobs, blobs.len()))
            == body_bytes(blobs, blobs.len()),
{
    let n = blobs.len();
    let img = archive_bytes(blobs);
    lemma_table_len(blobs, n);
    lemma_body_len(blobs, n);
    assert(img.subrange(0, 8 + 8 * n as int) =~= header_bytes(blobs));
    assert(img.subrange(AFS_DATA_START as int, data_end(blobs, n)) =~= body_bytes(blobs, n));
}

/// A written archive opens with `"AFS\0"` followed by the number of blobs as
/// a little-endian `u32`.
pub proof fn lemma_header(blobs: Seq<Seq<u8>>)
    requires
        representable(blobs),
    ensures
        archive_bytes(blobs).subrange(0, 4) == magic(),
        archive_bytes(blobs).subrange(4, 8) == le_bytes(blobs.len() as u32),
        entry_count(archive_bytes(blobs)) == blobs.len(),
{
    let img = archive_bytes(blobs);
    let h = header_bytes(blobs);
    lemma_archive_parts(blobs);
    assert(img.subrange(0, 4) =~= h.subrange(0, 4));
    assert(img.subrange(4, 8) =~= h.subrange(4, 8));
    assert(h.subrange(0, 4) =~= magic());
    assert(h.subrange(4, 8) =~= le_bytes(blobs.len() as u32));
    lemma_le_round_trip(blobs.len() as u32);
}

/// Entry `i` of a written archive records blob `i`'s offset and size.
pub proof fn lemma_entry(blobs: Seq<Seq<u8>>, i: int)
    requires
        representable(blobs),
        0 <= i < blobs.len(),
    ensures
        entry_offset(archive_bytes(blobs), i) == data_end(blobs, i as nat),
        entry_size(archive_bytes(blobs), i) == blobs[i].len(),
{
    let n = blobs.len();
    let img = archive_bytes(blobs);
    let h = header_bytes(blobs);
    let t = table_bytes(blobs, n);
    lemma_archive_parts(blobs);
    lemma_table_row(blobs, n, i);
    lemma_data_end_step(blobs, i as nat);
    lemma_data_end_monotonic(blobs, (i + 1) as nat, n);
    assert(img.subrange(8 + 8 * i, 12 + 8 * i) =~= t.subrange(8 * i, 8 * i + 4));
    assert(img.subrange(12 + 8 * i, 16 + 8 * i) =~= t.subrange(8 * i + 4, 8 * i + 8));
    lemma_le_round_trip(data_end(blobs, i as nat) as u32);
    lemma_le_round_trip(blobs[i].len() as u32);
}

/// Every entry of a written archive starts at or after `AFS_DATA_START`, at
/// a multiple of `AFS_ALIGN`, and ends within the archive.
pub proof fn lemma_alignment(blobs: Seq<Seq<u8>>)
    requires
        representable(blobs),
    ensures
        forall|i: int|
            0 <= i < blobs.len() ==> {
                &&& #[trigger] entry_offset(archive_bytes(blobs), i) >= AFS_DATA_START
                &&& entry_offset(archive_bytes(blobs), i) as int % AFS_ALIGN as int == 0
                &&& entry_offset(archive_bytes(blobs), i) + entry_size(archive_bytes(blobs), i)
                    <= archive_bytes(blobs).len()
            },
{
    assert forall|i: int| 0 <= i < blobs.len() implies {
        &&& #[trigger] entry_offset(archive_bytes(blobs), i) >= AFS_DATA_START
        &&& entry_offset(archive_bytes(blobs), i) as int % AFS_ALIGN as int == 0
        &&& entry_offset(archive_bytes(blobs), i) + entry_size(archive_bytes(blobs), i)
            <= archive_bytes(blobs).len()
    } by {
        lemma_entry(blobs, i);
        lemma_archive_parts(blobs);
        lemma_data_end_step(blobs, i as nat);
        lemma_data_end_monotonic(blobs, (i + 1) as nat, blobs.len());
    }
}

/// Reading back a written archive gives back what was written: it parses,
/// it has one entry per blob, and entry `i` reads as blob `i`, empty blobs
/// and the empty list included.
pub proof fn lemma_round_trip(blobs: Seq<Seq<u8>>)
    requires
        representable(blobs),
    ensures
        parses(archive_bytes(blobs)),
        entry_count(archive_bytes(blobs)) == blobs.len(),
        forall|i: int| 0 <= i < blobs.len() ==> #[trigger] entry_data(archive_bytes(blobs), i) == blobs[i],
{
    let n = blobs.len();
    let img = archive_bytes(blobs);
    lemma_header(blobs);
    lemma_archive_parts(blobs);
    lemma_data_end_monotonic(blobs, 0, n);
    assert forall|i: int| 0 <= i < n implies #[trigger] entry_data(img, i) == blobs[i] by {
        lemma_entry(blobs, i);
        lemma_data_end_step(blobs, i as nat);
        lemma_data_end_monotonic(blobs, (i + 1) as nat, n);
        lemma_body_holds(blobs, n, i);
        let lo = data_end(blobs, i as nat);
        let hi = lo + blobs[i].len();
        let body = body_bytes(blobs, n);
        assert(img.subrange(lo, hi) =~= body.subrange(lo - AFS_DATA_START, hi - AFS_DATA_START));
    }
}

} // verus!
