//! The wire format of a page, stated on byte sequences.
//!
//! A page is a 27-byte fixed header, a lacing table of up to 255 values and
//! the payload those values add up to. Everything here is specification: the
//! executable scanner in [`crate::ogg`] is proved against it.
use crate::ogg::PageHeader;
use vstd::prelude::*;

verus! {

/// Length of the fixed part of a page: capture pattern, version, flags,
/// granule position, serial, sequence number, checksum and segment count.
pub const HEADER_LEN: usize = 27;

/// The lacing value that leaves a packet open.
pub const LACING_MORE: u8 = 255;

/// The two bytes at `at`, read as a little-endian number.
pub open spec fn le16(b: Seq<u8>, at: int) -> int {
    b[at] + 256 * b[at + 1]
}

/// The four bytes at `at`, read as a little-endian number.
pub open spec fn le32(b: Seq<u8>, at: int) -> int {
    b[at] + 256 * b[at + 1] + 65536 * b[at + 2] + 16777216 * b[at + 3]
}

/// The eight bytes at `at`, read as a little-endian number.
pub open spec fn le64(b: Seq<u8>, at: int) -> int {
    le32(b, at) + 4294967296 * le32(b, at + 4)
}

/// `b` begins with the four bytes of the capture pattern, `OggS`.
pub open spec fn captured(b: Seq<u8>) -> bool {
    b.len() >= 4 && b[0] == 0x4f && b[1] == 0x67 && b[2] == 0x67 && b[3] == 0x53
}

/// How many leading bytes the scanner throws away before it looks again:
/// one where the capture pattern is absent, five (pattern and version byte)
/// where the pattern is followed by a version other than zero, none where the
/// head may still turn out to be a page.
pub open spec fn junk_len(b: Seq<u8>) -> nat {
    if b.len() < 4 {
        0
    } else if !captured(b) {
        1
    } else if b.len() < 5 {
        0
    } else if b[4] != 0 {
        5
    } else {
        0
    }
}

/// The fixed fields of the page whose header stands at the head of `b`.
pub open spec fn header_of(b: Seq<u8>) -> PageHeader {
    PageHeader {
        continued: b[5] & 0x01 != 0,
        bos: b[5] & 0x02 != 0,
        eos: b[5] & 0x04 != 0,
        granule_position: le64(b, 6) as u64,
        stream_serial: le32(b, 14) as u32,
        sequence: le32(b, 18) as u32,
        checksum: le32(b, 22) as u32,
        segment_count: b[26],
    }
}

/// The lacing table of the page at the head of `b`.
pub open spec fn table_of(b: Seq<u8>) -> Seq<u8> {
    b.subrange(HEADER_LEN as int, HEADER_LEN + b[26])
}

/// Sum of the lacing values of `table`.
pub open spec fn lacing_sum(table: Seq<u8>) -> nat
    decreases table.len(),
{
    if table.len() == 0 {
        0
    } else {
        lacing_sum(table.drop_last()) + table.last() as nat
    }
}

/// Offset, from the head of `b`, of the payload of segment `k` of the page
/// that stands there; for `k` the segment count, the length of the page.
pub open spec fn payload_offset(b: Seq<u8>, k: int) -> nat {
    HEADER_LEN as nat + b[26] as nat + lacing_sum(table_of(b).take(k))
}

/// Length in bytes of the page at the head of `b`: header, table, payload.
pub open spec fn page_len(b: Seq<u8>) -> nat {
    payload_offset(b, b[26] as int)
}

/// A whole page stands at the head of `b`: capture pattern, version zero,
/// and header, lacing table and declared payload all present.
pub open spec fn framed(b: Seq<u8>) -> bool {
    &&& b.len() >= HEADER_LEN
    &&& captured(b)
    &&& b[4] == 0
    &&& b.len() >= HEADER_LEN + b[26]
    &&& b.len() >= page_len(b)
}

/// `b` is one page and nothing else.
pub open spec fn is_page(b: Seq<u8>) -> bool {
    framed(b) && b.len() == page_len(b)
}

/// The payload of the page at the head of `b`.
pub open spec fn payload_of(b: Seq<u8>) -> Seq<u8> {
    b.subrange(HEADER_LEN + b[26], page_len(b) as int)
}

/// Where the packet fragment that begins at segment `from` ends: one past the
/// first lacing value below 255 at or after `from`, or the end of the table
/// where every value from `from` on is 255.
pub open spec fn run_end(table: Seq<u8>, from: int) -> int
    decreases table.len() - from,
{
    if from < 0 || from >= table.len() {
        from
    } else if table[from] < LACING_MORE {
        from + 1
    } else {
        run_end(table, from + 1)
    }
}

/// The fragment that begins at segment `from` ends its packet: it ends on a
/// lacing value below 255.
pub open spec fn run_closes(table: Seq<u8>, from: int) -> bool {
    0 <= from < table.len() && table[run_end(table, from) - 1] < LACING_MORE
}

/// A fragment that begins inside the table is not empty and ends inside it;
/// all its lacing values but the last are 255.
pub proof fn lemma_run_end_bounds(table: Seq<u8>, from: int)
    requires
        0 <= from < table.len(),
    ensures
        from < run_end(table, from) <= table.len(),
        forall|j: int| from <= j < run_end(table, from) - 1 ==> table[j] == LACING_MORE,
    decreases table.len() - from,
{
    if table[from] >= LACING_MORE {
        if from + 1 < table.len() {
            lemma_run_end_bounds(table, from + 1);
        } else {
            assert(run_end(table, from + 1) == from + 1);
        }
    }
}

/// Taking one more lacing value adds it to the sum.
pub proof fn lemma_lacing_sum_step(table: Seq<u8>, k: int)
    requires
        0 <= k < table.len(),
    ensures
        lacing_sum(table.take(k + 1)) == lacing_sum(table.take(k)) + table[k],
{
    assert(table.take(k + 1).drop_last() =~= table.take(k));
}

/// Prefix sums of a lacing table grow with the prefix, by at most 255 a value.
pub proof fn lemma_lacing_sum_monotone(table: Seq<u8>, i: int, j: int)
    requires
        0 <= i <= j <= table.len(),
    ensures
        lacing_sum(table.take(i)) <= lacing_sum(table.take(j)) <= lacing_sum(table.take(i)) + 255
            * (j - i),
    decreases j - i,
{
    if i < j {
        lemma_lacing_sum_monotone(table, i, j - 1);
        lemma_lacing_sum_step(table, j - 1);
    }
}

/// A page is never longer than 27 + 255 + 255 * 255 bytes.
pub proof fn lemma_page_len_bound(b: Seq<u8>)
    requires
        b.len() >= HEADER_LEN + b[26],
    ensures
        HEADER_LEN + b[26] <= page_len(b) <= 65307,
        page_len(b) == HEADER_LEN + b[26] + lacing_sum(table_of(b)),
{
    let table = table_of(b);
    lemma_lacing_sum_monotone(table, 0, table.len() as int);
    assert(table.take(table.len() as int) =~= table);
    assert(table.take(0) =~= Seq::<u8>::empty());
}

/// A page at the head of `b` is the same page with more bytes behind it.
pub proof fn lemma_framed_extends(b: Seq<u8>, more: Seq<u8>)
    requires
        framed(b),
    ensures
        framed(b + more),
        header_of(b + more) == header_of(b),
        table_of(b + more) == table_of(b),
        page_len(b + more) == page_len(b),
        forall|k: int| payload_offset(b + more, k) == payload_offset(b, k),
        junk_len(b + more) == 0,
{
    assert(table_of(b + more) =~= table_of(b));
}

/// Junk at the head of `b` is the same junk with more bytes behind it.
pub proof fn lemma_junk_extends(b: Seq<u8>, more: Seq<u8>)
    requires
        junk_len(b) > 0,
    ensures
        junk_len(b + more) == junk_len(b),
        junk_len(b) <= b.len(),
        (b + more).skip(junk_len(b) as int) == b.skip(junk_len(b) as int) + more,
{
    assert((b + more).skip(junk_len(b) as int) =~= b.skip(junk_len(b) as int) + more);
}

/// A page is the same page whatever follows it: two byte sequences that
/// agree on the length of the page at the head of the first both begin with
/// that page.
pub proof fn lemma_framed_same_page(b: Seq<u8>, other: Seq<u8>)
    requires
        framed(b),
        other.len() >= page_len(b),
        other.take(page_len(b) as int) == b.take(page_len(b) as int),
    ensures
        framed(other),
        junk_len(other) == 0,
        header_of(other) == header_of(b),
        table_of(other) == table_of(b),
        page_len(other) == page_len(b),
        forall|k: int| payload_offset(other, k) == payload_offset(b, k),
        forall|from: int, to: int|
            0 <= from <= to <= page_len(b) ==> #[trigger] other.subrange(from, to) == b.subrange(
                from,
                to,
            ),
{
    let len = page_len(b) as int;
    lemma_page_len_bound(b);
    assert forall|i: int| 0 <= i < len implies other[i] == b[i] by {
        assert(other.take(len)[i] == b.take(len)[i]);
    }
    assert(table_of(other) =~= table_of(b));
    assert forall|from: int, to: int| 0 <= from <= to <= len implies #[trigger] other.subrange(
        from,
        to,
    ) == b.subrange(from, to) by {
        assert(other.subrange(from, to) =~= b.subrange(from, to));
    }
}

/// The pages of `pages`, one behind the other.
pub open spec fn chain(pages: Seq<Seq<u8>>) -> Seq<u8>
    decreases pages.len(),
{
    if pages.len() == 0 {
        Seq::empty()
    } else {
        pages[0] + chain(pages.skip(1))
    }
}

/// A page with bytes behind it is the page at the head of the whole, and
/// the bytes behind it are what is left when it is dropped.
pub proof fn lemma_page_at_head(first: Seq<u8>, behind: Seq<u8>)
    requires
        is_page(first),
    ensures
        framed(first + behind),
        header_of(first + behind) == header_of(first),
        table_of(first + behind) == table_of(first),
        page_len(first + behind) == first.len(),
        payload_of(first + behind) == payload_of(first),
        (first + behind).take(first.len() as int) == first,
        (first + behind).skip(first.len() as int) == behind,
{
    lemma_page_len_bound(first);
    lemma_framed_extends(first, behind);
    assert(payload_of(first + behind) =~= payload_of(first));
    assert((first + behind).take(first.len() as int) =~= first);
    assert((first + behind).skip(first.len() as int) =~= behind);
}

} // verus!
