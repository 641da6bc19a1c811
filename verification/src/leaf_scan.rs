//! Finding leaf index pages in a raw file image by the marker bytes they start
//! with, and reading the newest entries straight off those pages.
use std::collections::BTreeMap;

use vstd::prelude::*;
use vstd::std_specs::iter::IteratorSpec;

use crate::defines::RefnoDataLoc;
use crate::io::{EleData, EleView, IoError, PdmsIO};
use crate::io_scan::{element_view, same_image, views};
use crate::session_index_diff::{mem_page_at, IndexPages};

verus! {

/// `needle` occurs in `haystack` at byte `p`.
pub open spec fn occurs_at(haystack: Seq<u8>, needle: Seq<u8>, p: int) -> bool {
    0 <= p && p + needle.len() <= haystack.len() && haystack.subrange(p, p + needle.len()) == needle
}

/// The positions below `k` at which `needle` occurs, the highest first.
pub open spec fn occurrences_below(haystack: Seq<u8>, needle: Seq<u8>, k: int) -> Seq<usize>
    decreases k,
{
    if k <= 0 {
        Seq::empty()
    } else if occurs_at(haystack, needle, k - 1) {
        seq![(k - 1) as usize] + occurrences_below(haystack, needle, k - 1)
    } else {
        occurrences_below(haystack, needle, k - 1)
    }
}

/// Every position at which `needle` occurs in `haystack`, the highest first.
pub open spec fn occurrences_desc(haystack: Seq<u8>, needle: Seq<u8>) -> Seq<usize> {
    occurrences_below(haystack, needle, haystack.len() as int)
}

/// The last byte of `needle` occurs nowhere else in it, so that no two of its
/// occurrences in any haystack overlap.
pub open spec fn last_byte_unique(needle: Seq<u8>) -> bool {
    &&& needle.len() > 0
    &&& forall|i: int| 0 <= i < needle.len() - 1 ==> #[trigger] needle[i] != needle[needle.len() - 1]
}

/// `memchr::memmem::rfind_iter`, collected. It yields the occurrences of `needle`
/// from the end of `haystack` backwards, each next one searched for before the
/// start of the previous, so overlapping occurrences are skipped; for a needle
/// whose last byte is unique no two occurrences overlap, and the result is every
/// occurrence, the highest first.
#[verifier::external_body]
fn rfind_all(haystack: &[u8], needle: &[u8]) -> (r: Vec<usize>)
    requires
        last_byte_unique(needle@),
    ensures
        r@ == occurrences_desc(haystack@, needle@),
{
    memchr::memmem::rfind_iter(haystack, needle).collect()
}

/// The sixteen bytes a leaf page of the reference-number index starts with.
pub open spec fn leaf_marker() -> Seq<u8> {
    seq![0x00u8, 0x00, 0x00, 0x05, 0x00, 0xCC, 0x47, 0xDF, 0x00, 0x00, 0x00, 0x00, 0x00, 0x00, 0x00, 0x02]
}

/// The leaf page marker.
pub fn refno_leaf_index_page() -> (r: Vec<u8>)
    ensures
        r@ == leaf_marker(),
{
    let r: Vec<u8> = vec![0x00u8, 0x00, 0x00, 0x05, 0x00, 0xCC, 0x47, 0xDF, 0x00, 0x00, 0x00, 0x00, 0x00, 0x00, 0x00, 0x02];
    assert(r@ =~= leaf_marker());
    r
}

/// The marker ends in the only `0x02` it holds.
pub proof fn lemma_leaf_marker_last_byte_unique()
    ensures
        last_byte_unique(leaf_marker()),
{
    let m = leaf_marker();
    assert(m.len() == 16);
    assert(m[15] == 2u8);
    assert forall|i: int| 0 <= i < m.len() - 1 implies #[trigger] m[i] != m[m.len() - 1] by {
        assert(m[i] == 0u8 || m[i] == 5u8 || m[i] == 0xCCu8 || m[i] == 0x47u8 || m[i] == 0xDFu8);
    }
}

/// Largest page number among `locs` that is at most `limit`; 0 when there is none.
pub open spec fn max_pgno_upto(locs: Seq<RefnoDataLoc>, limit: u32) -> u32
    decreases locs.len(),
{
    if locs.len() == 0 {
        0
    } else {
        let m = max_pgno_upto(locs.drop_last(), limit);
        let p = locs.last().pgno;
        if p <= limit && p > m {
            p
        } else {
            m
        }
    }
}

/// Page number of the byte position `pos`, cut to 32 bits.
pub open spec fn page_of(pos: int) -> u32 {
    (pos / 0x800) as u32
}

/// The largest record page number named by the last leaf page of the file image,
/// counting only pages inside the file; 0 when the image holds no leaf page.
pub open spec fn latest_leaf_max_pgno(io: PdmsIO, file: Seq<u8>) -> Result<u32, IoError> {
    let occ = occurrences_desc(file, leaf_marker());
    if occ.len() == 0 {
        Ok(0)
    } else {
        let pgno = page_of(occ[0] as int);
        match mem_page_at(io.index_pages@, pgno) {
            None => Err(IoError::UnreadableIndexPage { pgno }),
            Some(p) => Ok(max_pgno_upto(p.locs, page_of((file.len() as u32) as int))),
        }
    }
}

/// Largest page number among `locs` that is at most `limit`.
fn max_pgno_of(locs: &Vec<RefnoDataLoc>, limit: u32) -> (r: u32)
    ensures
        r == max_pgno_upto(locs@, limit),
{
    let mut m: u32 = 0;
    let mut i: usize = 0;
    while i < locs.len()
        invariant
            i <= locs.len(),
            m == max_pgno_upto(locs@.take(i as int), limit),
        decreases locs.len() - i,
    {
        proof {
            assert(locs@.take(i + 1).drop_last() =~= locs@.take(i as int));
        }
        let p = locs[i].pgno;
        if p <= limit && p > m {
            m = p;
        }
        i += 1;
    }
    proof {
        assert(locs@.take(i as int) =~= locs@);
    }
    m
}

impl PdmsIO {
    /// The largest record page number on the last leaf page found in the raw file
    /// image `file`, among the pages inside the file (see `latest_leaf_max_pgno`).
    pub fn get_att_latest_pgno_old(&mut self, file: &[u8]) -> (r: Result<u32, IoError>)
        ensures
            same_image(*final(self), *old(self)),
            r == latest_leaf_max_pgno(*old(self), file@),
    {
        let file_max_pgno: u32 = (file.len() as u32) / 0x800;
        let marker = refno_leaf_index_page();
        proof {
            lemma_leaf_marker_last_byte_unique();
        }
        let positions = rfind_all(file, marker.as_slice());
        if positions.len() == 0 {
            return Ok(0);
        }
        let pgno = (positions[0] / 0x800) as u32;
        let index_data = match self.read_index_data(pgno) {
            Ok(d) => d,
            Err(e) => {
                return Err(e);
            },
        };
        Ok(max_pgno_of(&index_data.refno_locs, file_max_pgno))
    }
}


/// Every occurrence lies inside the haystack, the highest first.
pub proof fn lemma_occurrences_below(haystack: Seq<u8>, needle: Seq<u8>, k: int)
    requires
        k <= usize::MAX,
    ensures
        forall|j: int| 0 <= j < occurrences_below(haystack, needle, k).len() ==> occurs_at(
            haystack,
            needle,
            #[trigger] occurrences_below(haystack, needle, k)[j] as int,
        ) && occurrences_below(haystack, needle, k)[j] < k,
    decreases k,
{
    if k > 0 {
        lemma_occurrences_below(haystack, needle, k - 1);
        let o = occurrences_below(haystack, needle, k);
        let p = occurrences_below(haystack, needle, k - 1);
        if occurs_at(haystack, needle, k - 1) {
            assert forall|j: int| 0 <= j < o.len() implies occurs_at(haystack, needle, #[trigger] o[j] as int) && o[j] < k by {
                if j > 0 {
                    assert(o[j] == p[j - 1]);
                } else {
                    assert(o[0] == (k - 1) as usize);
                }
            }
        }
    }
}

/// The image from the first byte of page `till` on; empty when the file ends first.
pub open spec fn tail_from(file: Seq<u8>, till: u32) -> Seq<u8> {
    if till as int * 0x800 < file.len() {
        file.skip(till as int * 0x800)
    } else {
        Seq::empty()
    }
}

/// Adds the entries of a leaf page in order: entries on pages below `till` are
/// skipped, and a key already present keeps its record offset.
pub open spec fn add_leaf_locs(locs: Seq<RefnoDataLoc>, till: u32, acc: Map<u64, u64>) -> Map<u64, u64>
    decreases locs.len(),
{
    if locs.len() == 0 {
        acc
    } else {
        let m = add_leaf_locs(locs.drop_last(), till, acc);
        let l = locs.last();
        if l.pgno < till || m.contains_key(l.key()) {
            m
        } else {
            m.insert(l.key(), l.spec_att_offset())
        }
    }
}

/// Record offsets by key from the leaf pages at the marker positions `occ` (taken
/// relative to byte `start`), in the order given; fails on the first page that
/// cannot be read.
pub open spec fn old_offsets(io: PdmsIO, occ: Seq<usize>, start: int, till: u32, acc: Map<u64, u64>) -> Result<Map<u64, u64>, IoError>
    decreases occ.len(),
{
    if occ.len() == 0 {
        Ok(acc)
    } else {
        let pgno = page_of(occ[0] + start);
        match mem_page_at(io.index_pages@, pgno) {
            None => Err(IoError::UnreadableIndexPage { pgno }),
            Some(p) => old_offsets(io, occ.drop_first(), start, till, add_leaf_locs(p.locs, till, acc)),
        }
    }
}

pub open spec fn strictly_increasing(q: Seq<u64>) -> bool {
    forall|i: int, j: int| 0 <= i < j < q.len() ==> q[i] < q[j]
}

/// The members of a finite set of keys in ascending order.
pub open spec fn ascending_keys(s: Set<u64>) -> Seq<u64> {
    choose|q: Seq<u64>| strictly_increasing(q) && q.to_set() == s
}

/// Two ascending sequences of the same keys are equal.
pub proof fn lemma_ascending_unique(a: Seq<u64>, b: Seq<u64>)
    requires
        strictly_increasing(a),
        strictly_increasing(b),
        a.to_set() == b.to_set(),
    ensures
        a == b,
    decreases a.len(),
{
    if a.len() == 0 {
        if b.len() > 0 {
            assert(b.to_set().contains(b[0]));
            assert(a.to_set().contains(b[0]));
        }
        assert(a =~= b);
    } else if b.len() == 0 {
        assert(a.to_set().contains(a[0]));
        assert(b.to_set().contains(a[0]));
    } else {
        let x = a.last();
        let y = b.last();
        assert(a.to_set().contains(x));
        assert(b.to_set().contains(x));
        let j = choose|j: int| 0 <= j < b.len() && b[j] == x;
        assert(b.to_set().contains(y));
        assert(a.to_set().contains(y));
        let i = choose|i: int| 0 <= i < a.len() && a[i] == y;
        assert(x == y);
        assert forall|v: u64| a.drop_last().to_set().contains(v) <==> b.drop_last().to_set().contains(v) by {
            if a.drop_last().to_set().contains(v) {
                let k = choose|k: int| 0 <= k < a.drop_last().len() && a.drop_last()[k] == v;
                assert(a[k] == v && v < x);
                assert(a.to_set().contains(v));
                assert(b.to_set().contains(v));
                let m = choose|m: int| 0 <= m < b.len() && b[m] == v;
                assert(m != b.len() - 1);
                assert(b.drop_last()[m] == v);
            }
            if b.drop_last().to_set().contains(v) {
                let k = choose|k: int| 0 <= k < b.drop_last().len() && b.drop_last()[k] == v;
                assert(b[k] == v && v < y);
                assert(b.to_set().contains(v));
                assert(a.to_set().contains(v));
                let m = choose|m: int| 0 <= m < a.len() && a[m] == v;
                assert(m != a.len() - 1);
                assert(a.drop_last()[m] == v);
            }
        }
        assert(a.drop_last().to_set() =~= b.drop_last().to_set());
        lemma_ascending_unique(a.drop_last(), b.drop_last());
        assert(a =~= a.drop_last().push(x));
        assert(b =~= b.drop_last().push(y));
    }
}

/// Elements decoded from the offsets of `keys` taken in order: each one that
/// decodes is filed under its own reference number, a later one replacing an
/// earlier one; those that do not decode are passed over.
pub open spec fn old_elements(io: PdmsIO, keys: Seq<u64>, offsets: Map<u64, u64>) -> Map<u64, EleView>
    decreases keys.len(),
{
    if keys.len() == 0 {
        Map::empty()
    } else {
        let m = old_elements(io, keys.drop_last(), offsets);
        match element_view(io, offsets[keys.last()]) {
            Some(v) => m.insert(v.refno, v),
            None => m,
        }
    }
}

impl PdmsIO {
    /// The elements named by the leaf pages found in the raw file image from page
    /// `till_pageno` on. The leaf pages are taken from the last one back; an entry
    /// pointing below `till_pageno` is skipped and the first entry of a key wins.
    /// The records are then decoded in key order; one that does not decode is
    /// passed over.
    pub fn collect_increment_eles_old(&mut self, file: &[u8], till_pageno: u32) -> (r: Result<BTreeMap<u64, EleData>, IoError>)
        ensures
            same_image(*final(self), *old(self)),
            match old_offsets(
                *old(self),
                occurrences_desc(tail_from(file@, till_pageno), leaf_marker()),
                till_pageno as int * 0x800,
                till_pageno,
                Map::empty(),
            ) {
                Err(e) => r == Err::<BTreeMap<u64, EleData>, IoError>(e),
                Ok(offs) => r matches Ok(m) && views(m@) == old_elements(*old(self), ascending_keys(offs.dom()), offs),
            },
    {
        broadcast use crate::order::group_key_order;

        let ghost io0 = *self;
        let start: u64 = till_pageno as u64 * 0x800;
        let tail: &[u8] = if start < file.len() as u64 {
            vstd::slice::slice_subrange(file, start as usize, file.len())
        } else {
            vstd::slice::slice_subrange(file, file.len(), file.len())
        };
        proof {
            assert(tail@ =~= tail_from(file@, till_pageno));
        }
        let marker = refno_leaf_index_page();
        proof {
            lemma_leaf_marker_last_byte_unique();
        }
        let positions = rfind_all(tail, marker.as_slice());
        let ghost occ = positions@;
        proof {
            assert(tail@.len() == tail.len());
            assert(file@.len() == file.len());
            lemma_occurrences_below(tail@, leaf_marker(), tail@.len() as int);
            assert(occ.skip(0) =~= occ);
        }
        let mut offsets: BTreeMap<u64, u64> = BTreeMap::new();
        let mut i: usize = 0;
        while i < positions.len()
            invariant
                i <= positions.len(),
                occ == positions@,
                occ == occurrences_desc(tail@, leaf_marker()),
                forall|j: int| 0 <= j < occ.len() ==> #[trigger] occ[j] < tail@.len(),
                tail@.len() == 0 || start as int + tail@.len() == file@.len(),
                file@.len() <= usize::MAX,
                start as int == till_pageno as int * 0x800,
                tail@ == tail_from(file@, till_pageno),
                io0 == *old(self),
                same_image(*self, io0),
                old_offsets(io0, occ, start as int, till_pageno, Map::empty()) == old_offsets(
                    io0,
                    occ.skip(i as int),
                    start as int,
                    till_pageno,
                    offsets@,
                ),
            decreases positions.len() - i,
        {
            proof {
                assert(occ.skip(i as int).drop_first() =~= occ.skip(i + 1));
                assert(occ.skip(i as int)[0] == occ[i as int]);
            }
            proof {
                assert(occ[i as int] < tail@.len());
                assert(tail@.len() > 0);
                assert(start as int + tail@.len() == file@.len());
                assert(file@.len() <= usize::MAX);
            }
            let pos = positions[i] + start as usize;
            let pgno = (pos / 0x800) as u32;
            proof {
                assert(self.page_at(pgno) == mem_page_at(io0.index_pages@, pgno));
                assert(pgno == page_of(occ.skip(i as int)[0] + start as int));
            }
            let index_data = match self.read_index_data(pgno) {
                Ok(d) => d,
                Err(e) => {
                    return Err(e);
                },
            };
            let ghost acc0 = offsets@;
            let locs = &index_data.refno_locs;
            let mut k: usize = 0;
            while k < locs.len()
                invariant
                    k <= locs.len(),
                    offsets@ == add_leaf_locs(locs@.take(k as int), till_pageno, acc0),
                decreases locs.len() - k,
            {
                proof {
                    assert(locs@.take(k + 1).drop_last() =~= locs@.take(k as int));
                }
                let x = locs[k];
                if x.pgno >= till_pageno {
                    let key = x.get_refno();
                    if !offsets.contains_key(&key) {
                        offsets.insert(key, x.get_att_offset());
                    }
                }
                k += 1;
            }
            proof {
                assert(locs@.take(k as int) =~= locs@);
            }
            i += 1;
        }
        proof {
            assert(occ.skip(i as int) =~= Seq::<usize>::empty());
        }
        let ghost offs = offsets@;
        let mut eles_map: BTreeMap<u64, EleData> = BTreeMap::new();
        let iter = offsets.iter();
        let ghost s0 = iter.remaining();
        let ghost keys = s0.map_values(|kv: (&u64, &u64)| *kv.0);
        proof {
            crate::order::lemma_increasing_u64_keys(s0);
            assert(views(eles_map@) =~= old_elements(io0, keys.take(0), offs));
        }
        for kv in it: iter
            invariant
                it.seq() == s0,
                keys == s0.map_values(|kv: (&u64, &u64)| *kv.0),
                offs == offsets@,
                forall|j: int| 0 <= j < s0.len() ==> offs.contains_key(*(#[trigger] s0[j]).0) && offs[*s0[j].0] == *s0[j].1,
                same_image(*self, io0),
                views(eles_map@) == old_elements(io0, keys.take(it.index() as int), offs),
        {
            let ghost idx = it.index();
            let (_refno, offset) = kv;
            proof {
                assert(s0[idx as int] == kv);
                assert(keys.take(idx + 1).drop_last() =~= keys.take(idx as int));
                assert(keys.take(idx + 1).last() == keys[idx as int]);
                assert(element_view(*self, *offset) == element_view(io0, *offset));
            }
            match self.get_element(*offset) {
                Ok(ele) => {
                    let ghost before = eles_map@;
                    let ghost v = ele@;
                    eles_map.insert(ele.refno, ele);
                    proof {
                        assert(views(eles_map@) =~= views(before).insert(v.refno, v));
                    }
                },
                Err(_) => {},
            }
        }
        proof {
            assert(keys.take(s0.len() as int) =~= keys);
            assert forall|x: u64| keys.to_set().contains(x) <==> offs.dom().contains(x) by {
                if keys.to_set().contains(x) {
                    let j = choose|j: int| 0 <= j < keys.len() && keys[j] == x;
                    assert(offs.contains_key(*s0[j].0));
                }
                if offs.dom().contains(x) {
                    assert(s0.contains((&x, &offs[x])));
                    let j = choose|j: int| 0 <= j < s0.len() && s0[j] == (&x, &offs[x]);
                    assert(keys[j] == x);
                }
            }
            assert(keys.to_set() =~= offs.dom());
            assert(strictly_increasing(keys));
            lemma_ascending_unique(ascending_keys(offs.dom()), keys);
        }
        Ok(eles_map)
    }
}


proof fn lemma_max_pgno_upto_bound(locs: Seq<RefnoDataLoc>, limit: u32)
    ensures
        max_pgno_upto(locs, limit) <= limit,
    decreases locs.len(),
{
    if locs.len() > 0 {
        lemma_max_pgno_upto_bound(locs.drop_last(), limit);
    }
}

/// The record page that the last leaf page names lies inside the file: it is at
/// most the number of whole pages of the image.
pub proof fn law_latest_leaf_page_inside_file(io: PdmsIO, file: Seq<u8>)
    ensures
        latest_leaf_max_pgno(io, file) matches Ok(p) ==> p <= page_of((file.len() as u32) as int),
{
    let occ = occurrences_desc(file, leaf_marker());
    if occ.len() > 0 {
        match mem_page_at(io.index_pages@, page_of(occ[0] as int)) {
            None => {},
            Some(pg) => {
                lemma_max_pgno_upto_bound(pg.locs, page_of((file.len() as u32) as int));
            },
        }
    }
}

proof fn lemma_add_leaf_locs_from_till(locs: Seq<RefnoDataLoc>, till: u32, acc: Map<u64, u64>)
    requires
        forall|k: u64| #[trigger] acc.contains_key(k) ==> acc[k] >= till as int * 0x800,
    ensures
        forall|k: u64| #[trigger] add_leaf_locs(locs, till, acc).contains_key(k) ==> add_leaf_locs(locs, till, acc)[k] >= till as int * 0x800,
    decreases locs.len(),
{
    if locs.len() > 0 {
        lemma_add_leaf_locs_from_till(locs.drop_last(), till, acc);
        let l = locs.last();
        assert(l.pgno as int * 0x800 + l.offset as int * 2 < 0x1_0000_0000_0000_0000);
        assert(l.spec_att_offset() == l.pgno as int * 0x800 + l.offset as int * 2);
        let m = add_leaf_locs(locs.drop_last(), till, acc);
        let r = add_leaf_locs(locs, till, acc);
        assert forall|k: u64| #[trigger] r.contains_key(k) implies r[k] >= till as int * 0x800 by {
            if !(l.pgno < till || m.contains_key(l.key())) && k == l.key() {
                assert(l.pgno as int * 0x800 >= till as int * 0x800);
                assert(r[k] == l.spec_att_offset());
            } else {
                assert(m.contains_key(k));
            }
        }
    }
}

proof fn lemma_old_offsets_from_till(io: PdmsIO, occ: Seq<usize>, start: int, till: u32, acc: Map<u64, u64>)
    requires
        forall|k: u64| #[trigger] acc.contains_key(k) ==> acc[k] >= till as int * 0x800,
    ensures
        old_offsets(io, occ, start, till, acc) matches Ok(m) ==> forall|k: u64| #[trigger] m.contains_key(k) ==> m[k] >= till as int
            * 0x800,
    decreases occ.len(),
{
    if occ.len() > 0 {
        match mem_page_at(io.index_pages@, page_of(occ[0] + start)) {
            None => {},
            Some(p) => {
                lemma_add_leaf_locs_from_till(p.locs, till, acc);
                lemma_old_offsets_from_till(io, occ.drop_first(), start, till, add_leaf_locs(p.locs, till, acc));
            },
        }
    }
}

/// The old increment scan reads only records from page `till` on: every record
/// offset it gathers lies at or after the first byte of that page.
pub proof fn law_old_scan_reads_from_till(io: PdmsIO, file: Seq<u8>, till: u32)
    ensures
        old_offsets(io, occurrences_desc(tail_from(file, till), leaf_marker()), till as int * 0x800, till, Map::empty()) matches Ok(m)
            ==> forall|k: u64| #[trigger] m.contains_key(k) ==> m[k] >= till as int * 0x800,
{
    lemma_old_offsets_from_till(io, occurrences_desc(tail_from(file, till), leaf_marker()), till as int * 0x800, till, Map::empty());
}

} // verus!
