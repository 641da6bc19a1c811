//! Decoded page model of a dabacon database file: index pages, session pages and
//! the file header, plus the `(refno_0, refno_1)` reference-number encoding.
use vstd::prelude::*;

verus! {

/// Size of one database page in bytes.
pub const PAGE_SIZE: u64 = 0x800;

/// Marker value of both halves of the first index entry of a page. On an inner
/// page it is the leftmost child pointer; on a leaf page it is not data.
pub const SENTINEL: u32 = 0x8000_0001;

/// A reference number packs `(refno_0, refno_1)` as `refno_0 * 2^32 + refno_1`,
/// so its integer order is the lexicographic order of the pair.
pub open spec fn spec_refno(r0: u32, r1: u32) -> u64 {
    (r0 as int * 0x1_0000_0000 + r1 as int) as u64
}

pub open spec fn spec_refno_hi(r: u64) -> u32 {
    (r as int / 0x1_0000_0000) as u32
}

pub open spec fn spec_refno_lo(r: u64) -> u32 {
    (r as int % 0x1_0000_0000) as u32
}

/// Packs the two halves of a reference number.
pub fn refno_from_two_nums(r0: u32, r1: u32) -> (r: u64)
    ensures
        r == spec_refno(r0, r1),
        r as int == r0 as int * 0x1_0000_0000 + r1 as int,
{
    r0 as u64 * 0x1_0000_0000 + r1 as u64
}

/// High half of a reference number.
pub fn refno_hi(r: u64) -> (h: u32)
    ensures
        h == spec_refno_hi(r),
        h as int == r as int / 0x1_0000_0000,
{
    (r / 0x1_0000_0000) as u32
}

/// Low half of a reference number.
pub fn refno_lo(r: u64) -> (l: u32)
    ensures
        l == spec_refno_lo(r),
        l as int == r as int % 0x1_0000_0000,
{
    (r % 0x1_0000_0000) as u32
}

/// Packing is injective and order preserving, and the halves give it back.
pub proof fn lemma_refno_pair(a0: u32, a1: u32, b0: u32, b1: u32)
    ensures
        spec_refno(a0, a1) as int == a0 as int * 0x1_0000_0000 + a1 as int,
        spec_refno_hi(spec_refno(a0, a1)) == a0,
        spec_refno_lo(spec_refno(a0, a1)) == a1,
        (spec_refno(a0, a1) == spec_refno(b0, b1)) <==> (a0 == b0 && a1 == b1),
        (spec_refno(a0, a1) < spec_refno(b0, b1)) <==> (a0 < b0 || (a0 == b0 && a1 < b1)),
{
}

/// One index entry: the key `(refno_0, refno_1)`, a page number (child page on
/// inner pages, record page on leaves), the record offset in 2-byte words, and
/// the flag field.
#[derive(Clone, Copy, Debug, PartialEq, Eq, Structural)]
pub struct RefnoDataLoc {
    pub refno_0: u32,
    pub refno_1: u32,
    pub pgno: u32,
    pub offset: u32,
    pub flag: u16,
}

impl RefnoDataLoc {
    pub open spec fn is_sentinel(self) -> bool {
        self.refno_0 == SENTINEL && self.refno_1 == SENTINEL
    }

    pub open spec fn key(self) -> u64 {
        spec_refno(self.refno_0, self.refno_1)
    }

    pub open spec fn spec_att_offset(self) -> u64 {
        (self.pgno as int * 0x800 + self.offset as int * 2) as u64
    }

    /// Whether this is the sentinel entry.
    pub fn is_start_page(&self) -> (b: bool)
        ensures
            b == self.is_sentinel(),
    {
        self.refno_0 == SENTINEL && self.refno_1 == SENTINEL
    }

    /// The reference number of the entry.
    pub fn get_refno(&self) -> (r: u64)
        ensures
            r == self.key(),
    {
        refno_from_two_nums(self.refno_0, self.refno_1)
    }

    /// Byte offset of the record the entry points at.
    pub fn get_att_offset(&self) -> (r: u64)
        ensures
            r == self.spec_att_offset(),
            r as int == self.pgno as int * 0x800 + self.offset as int * 2,
    {
        self.pgno as u64 * 0x800 + self.offset as u64 * 2
    }
}

/// A decoded index page of the copy-on-write B+ tree.
#[derive(Debug)]
pub struct IndexPageData {
    pub page_type: u32,
    pub noun: u32,
    pub level: u32,
    pub unknowns: [u32; 3],
    pub pfno: u32,
    pub refno_locs: Vec<RefnoDataLoc>,
    pub remain_zero_bytes: Vec<u8>,
}

/// A decoded session page: the session number, the page of the previous session
/// page (negative when there is none), the index root of this session and the
/// last page the session wrote.
#[derive(Clone, Copy, Debug, PartialEq, Eq, Structural)]
pub struct SessionPageData {
    pub pgno: u32,
    pub sesno: i32,
    pub last_ses_pageno: i32,
    pub index_root_pageno: u32,
    pub end_pgno: u32,
}

/// The decoded file header.
#[derive(Clone, Copy, Debug, PartialEq, Eq, Structural)]
pub struct PdmsHeader {
    pub db_num: i32,
    pub noun: u32,
    pub latest_ses_pgno: u32,
    pub page_no: u32,
}

/// Header, latest session page and file size of one database file.
#[derive(Clone, Copy, Debug, PartialEq, Eq, Structural)]
pub struct DbPageBasicInfo {
    pub pdms_header: PdmsHeader,
    pub latest_ses_pageno: u32,
    pub latest_ses_data: SessionPageData,
    pub file_size: u64,
}

/// Copies an index page entry by entry.
pub fn copy_index_page(page: &IndexPageData) -> (r: IndexPageData)
    ensures
        r.page_type == page.page_type,
        r.noun == page.noun,
        r.level == page.level,
        r.unknowns == page.unknowns,
        r.pfno == page.pfno,
        r.refno_locs@ == page.refno_locs@,
        r.remain_zero_bytes@ == page.remain_zero_bytes@,
{
    let mut locs: Vec<RefnoDataLoc> = Vec::new();
    let mut i: usize = 0;
    while i < page.refno_locs.len()
        invariant
            i <= page.refno_locs.len(),
            locs@ == page.refno_locs@.take(i as int),
        decreases page.refno_locs.len() - i,
    {
        locs.push(page.refno_locs[i]);
        i += 1;
        assert(locs@ == page.refno_locs@.take(i as int));
    }
    assert(page.refno_locs@.take(i as int) == page.refno_locs@);
    let mut bytes: Vec<u8> = Vec::new();
    let mut j: usize = 0;
    while j < page.remain_zero_bytes.len()
        invariant
            j <= page.remain_zero_bytes.len(),
            bytes@ == page.remain_zero_bytes@.take(j as int),
        decreases page.remain_zero_bytes.len() - j,
    {
        bytes.push(page.remain_zero_bytes[j]);
        j += 1;
        assert(bytes@ == page.remain_zero_bytes@.take(j as int));
    }
    assert(page.remain_zero_bytes@.take(j as int) == page.remain_zero_bytes@);
    IndexPageData {
        page_type: page.page_type,
        noun: page.noun,
        level: page.level,
        unknowns: page.unknowns,
        pfno: page.pfno,
        refno_locs: locs,
        remain_zero_bytes: bytes,
    }
}

} // verus!
