//! Scans of the file image: the index entries a session wrote, the records they
//! point at, point searches by reference number, and the history of record
//! locations along the session chain.
use std::collections::{BTreeMap, BTreeSet};

use vstd::prelude::*;

use crate::defines::{refno_hi, refno_lo, spec_refno_hi, spec_refno_lo, DbPageBasicInfo, IndexPageData, RefnoDataLoc};
use crate::io::{copy_ele, has_session_of, is_least_session_of, record_at, ses_page_at, EleData, EleView, IoError, PdmsIO};
use crate::session_index_diff::{find_index_page, mem_page_at, IndexPageView, IndexPages};

verus! {

/// An index entry written by the session between the two end pages: its page lies
/// strictly between them and its flag is 1.
pub open spec fn passes(e: RefnoDataLoc, last_end: u32, cur_end: u32) -> bool {
    e.pgno > last_end && e.pgno < cur_end && e.flag == 1
}

/// The entries of `locs` that pass, in order.
pub open spec fn filtered(locs: Seq<RefnoDataLoc>, last_end: u32, cur_end: u32) -> Seq<RefnoDataLoc>
    decreases locs.len(),
{
    if locs.len() == 0 {
        Seq::empty()
    } else if passes(locs.last(), last_end, cur_end) {
        filtered(locs.drop_last(), last_end, cur_end).push(locs.last())
    } else {
        filtered(locs.drop_last(), last_end, cur_end)
    }
}

/// Filtering never lengthens.
pub proof fn lemma_filtered_len(locs: Seq<RefnoDataLoc>, last_end: u32, cur_end: u32)
    ensures
        filtered(locs, last_end, cur_end).len() <= locs.len(),
    decreases locs.len(),
{
    if locs.len() > 0 {
        lemma_filtered_len(locs.drop_last(), last_end, cur_end);
    }
}

/// Entries collected from a page of the given level: on level 0 the passing
/// entries; above, the entries collected from the child pages of the passing
/// entries that are readable and lie on a strictly lower level.
pub open spec fn page_locs(
    pages: Seq<(u32, IndexPageData)>,
    locs: Seq<RefnoDataLoc>,
    last_end: u32,
    cur_end: u32,
    level: i32,
) -> Seq<RefnoDataLoc>
    decreases level - i32::MIN, locs.len() + 1,
{
    if level == 0 {
        filtered(locs, last_end, cur_end)
    } else {
        proof {
            lemma_filtered_len(locs, last_end, cur_end);
        }
        children_locs(pages, filtered(locs, last_end, cur_end), last_end, cur_end, level)
    }
}

/// Entries collected from the child pages of the given entries.
pub open spec fn children_locs(
    pages: Seq<(u32, IndexPageData)>,
    entries: Seq<RefnoDataLoc>,
    last_end: u32,
    cur_end: u32,
    level: i32,
) -> Seq<RefnoDataLoc>
    decreases level - i32::MIN, entries.len(),
{
    if entries.len() == 0 {
        Seq::empty()
    } else {
        children_locs(pages, entries.drop_last(), last_end, cur_end, level) + child_locs(
            pages,
            entries.last(),
            last_end,
            cur_end,
            level,
        )
    }
}

/// Entries collected from the child page of one entry.
pub open spec fn child_locs(pages: Seq<(u32, IndexPageData)>, e: RefnoDataLoc, last_end: u32, cur_end: u32, level: i32) -> Seq<
    RefnoDataLoc,
>
    decreases level - i32::MIN, 0int,
{
    match mem_page_at(pages, e.pgno) {
        None => Seq::empty(),
        Some(child) => if (child.level as i32) < level {
            page_locs(pages, child.locs, last_end, cur_end, child.level as i32)
        } else {
            Seq::empty()
        },
    }
}

/// Every filtered entry passes, and is an entry of the list.
proof fn lemma_filtered_pass(locs: Seq<RefnoDataLoc>, last_end: u32, cur_end: u32)
    ensures
        forall|i: int| 0 <= i < filtered(locs, last_end, cur_end).len() ==> passes(
            #[trigger] filtered(locs, last_end, cur_end)[i],
            last_end,
            cur_end,
        ) && locs.contains(filtered(locs, last_end, cur_end)[i]),
    decreases locs.len(),
{
    if locs.len() > 0 {
        let init = locs.drop_last();
        lemma_filtered_pass(init, last_end, cur_end);
        let f = filtered(locs, last_end, cur_end);
        let f0 = filtered(init, last_end, cur_end);
        assert forall|i: int| 0 <= i < f.len() implies passes(#[trigger] f[i], last_end, cur_end) && locs.contains(f[i]) by {
            if i < f0.len() {
                assert(f[i] == f0[i]);
                let j = choose|j: int| 0 <= j < init.len() && init[j] == f0[i];
                assert(locs[j] == init[j]);
            } else {
                assert(f[i] == locs.last());
                assert(locs[locs.len() - 1] == locs.last());
            }
        }
    }
}

/// Every entry collected from a page of any level passes: it was written by the
/// session (page strictly between the two end pages, flag 1).
pub proof fn law_page_locs_pass(pages: Seq<(u32, IndexPageData)>, locs: Seq<RefnoDataLoc>, last_end: u32, cur_end: u32, level: i32)
    ensures
        forall|i: int| 0 <= i < page_locs(pages, locs, last_end, cur_end, level).len() ==> passes(
            #[trigger] page_locs(pages, locs, last_end, cur_end, level)[i],
            last_end,
            cur_end,
        ),
    decreases level - i32::MIN, locs.len() + 1,
{
    lemma_filtered_pass(locs, last_end, cur_end);
    if level != 0 {
        lemma_filtered_len(locs, last_end, cur_end);
        lemma_children_locs_pass(pages, filtered(locs, last_end, cur_end), last_end, cur_end, level);
        assert(page_locs(pages, locs, last_end, cur_end, level) == children_locs(
            pages,
            filtered(locs, last_end, cur_end),
            last_end,
            cur_end,
            level,
        ));
    } else {
        assert(page_locs(pages, locs, last_end, cur_end, level) == filtered(locs, last_end, cur_end));
    }
}

proof fn lemma_children_locs_pass(pages: Seq<(u32, IndexPageData)>, entries: Seq<RefnoDataLoc>, last_end: u32, cur_end: u32, level: i32)
    ensures
        forall|i: int| 0 <= i < children_locs(pages, entries, last_end, cur_end, level).len() ==> passes(
            #[trigger] children_locs(pages, entries, last_end, cur_end, level)[i],
            last_end,
            cur_end,
        ),
    decreases level - i32::MIN, entries.len(),
{
    if entries.len() > 0 {
        let a = children_locs(pages, entries.drop_last(), last_end, cur_end, level);
        let b = child_locs(pages, entries.last(), last_end, cur_end, level);
        lemma_children_locs_pass(pages, entries.drop_last(), last_end, cur_end, level);
        match mem_page_at(pages, entries.last().pgno) {
            None => {
                assert(b.len() == 0);
            },
            Some(child) => {
                if (child.level as i32) < level {
                    law_page_locs_pass(pages, child.locs, last_end, cur_end, child.level as i32);
                    assert(b == page_locs(pages, child.locs, last_end, cur_end, child.level as i32));
                } else {
                    assert(b.len() == 0);
                }
            },
        }
        let all = children_locs(pages, entries, last_end, cur_end, level);
        assert(all == a + b);
        assert forall|i: int| 0 <= i < all.len() implies passes(#[trigger] all[i], last_end, cur_end) by {
            if i < a.len() {
                assert(all[i] == a[i]);
            } else {
                assert(all[i] == b[i - a.len()]);
            }
        }
    }
}

/// One more entry on a page adds exactly its own contribution after the others':
/// on a leaf the entry itself when it passes; on an inner page, when it passes,
/// the entries collected from its child page (readable and on a strictly lower
/// level), else nothing. So an inner page collects from the children of all its
/// passing entries, in order.
pub proof fn law_page_locs_appends_each_entry(
    pages: Seq<(u32, IndexPageData)>,
    locs: Seq<RefnoDataLoc>,
    e: RefnoDataLoc,
    last_end: u32,
    cur_end: u32,
    level: i32,
)
    ensures
        page_locs(pages, locs.push(e), last_end, cur_end, level) == page_locs(pages, locs, last_end, cur_end, level) + if !passes(
            e,
            last_end,
            cur_end,
        ) {
            Seq::<RefnoDataLoc>::empty()
        } else if level == 0 {
            seq![e]
        } else {
            match mem_page_at(pages, e.pgno) {
                Some(child) => if (child.level as i32) < level {
                    page_locs(pages, child.locs, last_end, cur_end, child.level as i32)
                } else {
                    Seq::<RefnoDataLoc>::empty()
                },
                None => Seq::<RefnoDataLoc>::empty(),
            }
        },
{
    let whole = locs.push(e);
    assert(whole.drop_last() =~= locs);
    assert(whole.last() == e);
    let f = filtered(locs, last_end, cur_end);
    if passes(e, last_end, cur_end) {
        assert(filtered(whole, last_end, cur_end) == f.push(e));
        if level == 0 {
            assert(f.push(e) =~= f + seq![e]);
        } else {
            let fe = f.push(e);
            assert(fe.drop_last() =~= f);
            assert(fe.last() == e);
            assert(children_locs(pages, fe, last_end, cur_end, level) == children_locs(pages, f, last_end, cur_end, level)
                + child_locs(pages, e, last_end, cur_end, level));
        }
    } else {
        assert(filtered(whole, last_end, cur_end) == f);
        assert(page_locs(pages, locs, last_end, cur_end, level) =~= page_locs(pages, locs, last_end, cur_end, level)
            + Seq::<RefnoDataLoc>::empty());
    }
}

/// Some entry of the page passes.
pub open spec fn any_passes(locs: Seq<RefnoDataLoc>, last_end: u32, cur_end: u32) -> bool {
    exists|i: int| 0 <= i < locs.len() && passes(#[trigger] locs[i], last_end, cur_end)
}

/// The image parts that reading pages leaves as they are.
pub open spec fn same_image(a: PdmsIO, b: PdmsIO) -> bool {
    &&& a.index_pages@ == b.index_pages@
    &&& a.session_pages@ == b.session_pages@
    &&& a.records@ == b.records@
    &&& a.sesno_pgno_map@ == b.sesno_pgno_map@
    &&& a.ses_range_map@ == b.ses_range_map@
    &&& a.header == b.header
}

/// The entries that the session between `prev` and `cur` end pages wrote, from
/// the index tree rooted at page `root`.
pub open spec fn session_locs(io: PdmsIO, ses_pgno: u32) -> Seq<RefnoDataLoc> {
    let cur = ses_page_at(io.session_pages@, ses_pgno)->0;
    let prev = ses_page_at(io.session_pages@, cur.last_ses_pageno as u32)->0;
    let root = mem_page_at(io.index_pages@, cur.index_root_pageno)->0;
    page_locs(io.index_pages@, root.locs, prev.end_pgno, cur.end_pgno, root.level as i32)
}

/// The session page, its predecessor page and its index root are all readable.
pub open spec fn session_readable(io: PdmsIO, ses_pgno: u32) -> bool {
    &&& ses_page_at(io.session_pages@, ses_pgno) is Some
    &&& ses_page_at(io.session_pages@, ses_page_at(io.session_pages@, ses_pgno)->0.last_ses_pageno as u32) is Some
    &&& mem_page_at(io.index_pages@, ses_page_at(io.session_pages@, ses_pgno)->0.index_root_pageno) is Some
}

impl PdmsIO {
    /// Collects the entries an index page leads to for the session between the two
    /// end pages: on level 0 the entries written by the session (page strictly
    /// between the end pages, flag 1); above, recursively from the child pages of
    /// such entries that are readable and lie on a strictly lower level. `None`
    /// when the page holds no entry or no entry passes.
    pub fn filter_index_data(
        &mut self,
        index_data: &IndexPageData,
        result_locs: &mut Vec<RefnoDataLoc>,
        last_end_pgno: u32,
        cur_end_pgno: u32,
        level: &mut i32,
    ) -> (r: Option<bool>)
        ensures
            same_image(*final(self), *old(self)),
            *final(level) == *old(level),
            final(result_locs)@ == old(result_locs)@ + page_locs(
                old(self).index_pages@,
                index_data.refno_locs@,
                last_end_pgno,
                cur_end_pgno,
                *old(level),
            ),
            r == (if any_passes(index_data.refno_locs@, last_end_pgno, cur_end_pgno) {
                Some(true)
            } else {
                None::<bool>
            }),
        decreases *old(level) - i32::MIN,
    {
        let ghost pages = self.index_pages@;
        let ghost start = result_locs@;
        let locs = &index_data.refno_locs;
        let mut cur_locs: Vec<RefnoDataLoc> = Vec::new();
        let mut i: usize = 0;
        while i < locs.len()
            invariant
                i <= locs.len(),
                cur_locs@ == filtered(locs@.take(i as int), last_end_pgno, cur_end_pgno),
                cur_locs@.len() == 0 <==> !any_passes(locs@.take(i as int), last_end_pgno, cur_end_pgno),
            decreases locs.len() - i,
        {
            let e = locs[i];
            proof {
                assert(locs@.take(i + 1).drop_last() =~= locs@.take(i as int));
                assert(locs@.take(i + 1).last() == e);
                lemma_filtered_len(locs@.take(i as int), last_end_pgno, cur_end_pgno);
                if any_passes(locs@.take(i as int), last_end_pgno, cur_end_pgno) {
                    let j = choose|j: int| 0 <= j < i && passes(#[trigger] locs@.take(i as int)[j], last_end_pgno, cur_end_pgno);
                    assert(locs@.take(i + 1)[j] == locs@.take(i as int)[j]);
                }
                if passes(e, last_end_pgno, cur_end_pgno) {
                    assert(locs@.take(i + 1)[i as int] == e);
                }
                if any_passes(locs@.take(i + 1), last_end_pgno, cur_end_pgno) && !passes(e, last_end_pgno, cur_end_pgno) {
                    let j = choose|j: int| 0 <= j < i + 1 && passes(#[trigger] locs@.take(i + 1)[j], last_end_pgno, cur_end_pgno);
                    assert(locs@.take(i as int)[j] == locs@.take(i + 1)[j]);
                }
            }
            if e.pgno > last_end_pgno && e.pgno < cur_end_pgno && e.flag == 1 {
                cur_locs.push(e);
            }
            i += 1;
        }
        proof {
            assert(locs@.take(i as int) =~= locs@);
        }
        if cur_locs.len() == 0 {
            proof {
                lemma_children_of_nothing(pages, cur_locs@, last_end_pgno, cur_end_pgno, *level);
            }
            return None;
        }
        if *level == 0 {
            let mut k: usize = 0;
            while k < cur_locs.len()
                invariant
                    k <= cur_locs.len(),
                    result_locs@ == start + cur_locs@.take(k as int),
                decreases cur_locs.len() - k,
            {
                result_locs.push(cur_locs[k]);
                k += 1;
                proof {
                    assert(cur_locs@.take(k as int) =~= cur_locs@.take(k - 1).push(cur_locs@[k - 1]));
                }
            }
            proof {
                assert(cur_locs@.take(k as int) =~= cur_locs@);
            }
        } else {
            let mut k: usize = 0;
            while k < cur_locs.len()
                invariant
                    k <= cur_locs.len(),
                    *level != 0,
                    same_image(*self, *old(self)),
                    pages == old(self).index_pages@,
                    *level == *old(level),
                    result_locs@ == start + children_locs(pages, cur_locs@.take(k as int), last_end_pgno, cur_end_pgno, *level),
                decreases cur_locs.len() - k,
            {
                let l = cur_locs[k];
                let ghost before = result_locs@;
                proof {
                    assert(cur_locs@.take(k + 1).drop_last() =~= cur_locs@.take(k as int));
                    assert(cur_locs@.take(k + 1).last() == l);
                }
                match self.read_index_data(l.pgno) {
                    Ok(next_index_data) => {
                        let mut next_level: i32 = next_index_data.level as i32;
                        if next_level >= *level {
                            proof {
                                assert(result_locs@ =~= before + child_locs(pages, l, last_end_pgno, cur_end_pgno, *level));
                            }
                        } else {
                            self.filter_index_data(&next_index_data, result_locs, last_end_pgno, cur_end_pgno, &mut next_level);
                            proof {
                                assert(result_locs@ =~= before + child_locs(pages, l, last_end_pgno, cur_end_pgno, *level));
                            }
                        }
                    },
                    Err(_) => {
                        proof {
                            assert(result_locs@ =~= before + child_locs(pages, l, last_end_pgno, cur_end_pgno, *level));
                        }
                    },
                }
                k += 1;
            }
            proof {
                assert(cur_locs@.take(k as int) =~= cur_locs@);
            }
        }
        Some(true)
    }
}

proof fn lemma_children_of_nothing(
    pages: Seq<(u32, IndexPageData)>,
    f: Seq<RefnoDataLoc>,
    last_end: u32,
    cur_end: u32,
    level: i32,
)
    requires
        f.len() == 0,
    ensures
        children_locs(pages, f, last_end, cur_end, level) == Seq::<RefnoDataLoc>::empty(),
{
}

/// The least session whose page range holds `pgno`, 0 when none does.
pub open spec fn page_session(io: PdmsIO, pgno: u32) -> i32 {
    if has_session_of(io.ses_range_map@, pgno) {
        choose|t: i32| is_least_session_of(io.ses_range_map@, pgno, t)
    } else {
        0
    }
}

/// The least session of a page is unique.
pub proof fn lemma_least_session_unique(ranges: Map<i32, (u32, u32)>, pgno: u32, a: i32, b: i32)
    requires
        is_least_session_of(ranges, pgno, a),
        is_least_session_of(ranges, pgno, b),
    ensures
        a == b,
{
    if a < b {
        assert(ranges.contains_key(a) && a < b);
    } else if b < a {
        assert(ranges.contains_key(b) && b < a);
    }
}

/// The element at a byte offset, tagged with the session of its page.
pub open spec fn element_view(io: PdmsIO, offset: u64) -> Option<EleView> {
    match record_at(io.records@, offset) {
        None => None,
        Some(v) => Some(EleView { sesno: page_session(io, (offset / 0x800) as u32), ..v }),
    }
}

impl PdmsIO {
    /// Nothing to read here: the latest session page is read where it is needed.
    pub fn read_latest_ses_page(&mut self)
        ensures
            *final(self) == *old(self),
    {
    }

    /// The history of an element: not collected from the file image.
    pub fn collect_ele_history(&self, refno: u64) -> (r: Vec<EleData>)
        ensures
            r@.len() == 0,
    {
        Vec::new()
    }

    /// The session owning a page, 0 when none does.
    fn page_sesno(&self, pgno: u32) -> (r: i32)
        ensures
            r == page_session(*self, pgno),
    {
        match self.get_sesno(pgno) {
            Some(s) => {
                proof {
                    let t = choose|t: i32| is_least_session_of(self.ses_range_map@, pgno, t) && s == t as u32;
                    assert((t as u32) as i32 == t) by (bit_vector);
                    let u = choose|t: i32| is_least_session_of(self.ses_range_map@, pgno, t);
                    lemma_least_session_unique(self.ses_range_map@, pgno, t, u);
                }
                s as i32
            },
            None => 0,
        }
    }

    /// The element record at a byte offset, tagged with the session that owns its
    /// page (0 when no session does).
    pub fn get_element(&self, refno_offset: u64) -> (r: Result<EleData, IoError>)
        ensures
            match element_view(*self, refno_offset) {
                Some(v) => r matches Ok(e) && e@ == v,
                None => r == Err::<EleData, IoError>(IoError::UnreadableRecord { offset: refno_offset }),
            },
    {
        let mut ele = match self.parse_raw_element(refno_offset) {
            Ok(e) => e,
            Err(e) => {
                return Err(e);
            },
        };
        let pgno = (refno_offset / 0x800) as u32;
        ele.sesno = self.page_sesno(pgno);
        Ok(ele)
    }

    /// The entries the session of the session page `ses_pgno` wrote: those of its
    /// index tree lying strictly between the previous session's end page and its
    /// own, with flag 1.
    pub fn collect_refno_locs_in_session(&mut self, ses_pgno: u32) -> (r: Vec<RefnoDataLoc>)
        requires
            session_readable(*old(self), ses_pgno),
        ensures
            same_image(*final(self), *old(self)),
            r@ == session_locs(*old(self), ses_pgno),
    {
        let cur = match self.read_ses_data(ses_pgno) {
            Ok(d) => d,
            Err(_) => {
                return Vec::new();
            },
        };
        let prev = match self.read_ses_data(cur.last_ses_pageno as u32) {
            Ok(d) => d,
            Err(_) => {
                return Vec::new();
            },
        };
        let index_data = match self.read_index_data(cur.index_root_pageno) {
            Ok(d) => d,
            Err(_) => {
                return Vec::new();
            },
        };
        let mut final_locs: Vec<RefnoDataLoc> = Vec::new();
        let mut level: i32 = index_data.level as i32;
        let _ = self.filter_index_data(&index_data, &mut final_locs, prev.end_pgno, cur.end_pgno, &mut level);
        proof {
            assert(final_locs@ =~= session_locs(*old(self), ses_pgno));
        }
        final_locs
    }

    /// The entries a session wrote, by session number; none when the file has no
    /// such session.
    pub fn collect_refno_locs(&mut self, sesno: i32) -> (r: Vec<RefnoDataLoc>)
        requires
            old(self).sesno_pgno_map@.contains_key(sesno) ==> session_readable(*old(self), old(self).sesno_pgno_map@[sesno]),
        ensures
            same_image(*final(self), *old(self)),
            r@ == sesno_locs(*old(self), sesno),
    {
        match self.get_ses_pageno(sesno) {
            Some(ses_pgno) => self.collect_refno_locs_in_session(ses_pgno),
            None => Vec::new(),
        }
    }

    /// The highest record page among the entries the latest session wrote, 0 when
    /// it wrote none.
    pub fn get_latest_att_pgno(&mut self) -> (r: Result<u32, IoError>)
        requires
            old(self).header matches Some(h) ==> session_readable(*old(self), h.latest_ses_pgno),
        ensures
            same_image(*final(self), *old(self)),
            old(self).header is None ==> r == Err::<u32, IoError>(IoError::NoHeader),
            old(self).header matches Some(h) ==> r == Ok::<u32, IoError>(max_pgno(session_locs(*old(self), h.latest_ses_pgno))),
    {
        let header = match self.read_pdms_header() {
            Ok(h) => h,
            Err(e) => {
                return Err(e);
            },
        };
        let all_locs = self.collect_refno_locs_in_session(header.latest_ses_pgno);
        let mut max: u32 = 0;
        let mut i: usize = 0;
        while i < all_locs.len()
            invariant
                i <= all_locs.len(),
                max == max_pgno(all_locs@.take(i as int)),
            decreases all_locs.len() - i,
        {
            proof {
                assert(all_locs@.take(i + 1).drop_last() =~= all_locs@.take(i as int));
            }
            if all_locs[i].pgno > max {
                max = all_locs[i].pgno;
            }
            i += 1;
        }
        proof {
            assert(all_locs@.take(i as int) =~= all_locs@);
        }
        Ok(max)
    }

    /// The elements at the entries the session of a session page wrote, in order.
    pub fn collect_eles_in_session(&mut self, ses_pgno: u32) -> (r: Vec<EleData>)
        requires
            session_readable(*old(self), ses_pgno),
            forall|i: int| 0 <= i < session_locs(*old(self), ses_pgno).len() ==> element_view(
                *old(self),
                (#[trigger] session_locs(*old(self), ses_pgno)[i]).spec_att_offset(),
            ) is Some,
        ensures
            same_image(*final(self), *old(self)),
            r@.len() == session_locs(*old(self), ses_pgno).len(),
            forall|i: int| 0 <= i < r@.len() ==> Some((#[trigger] r@[i])@) == element_view(
                *old(self),
                session_locs(*old(self), ses_pgno)[i].spec_att_offset(),
            ),
    {
        let ghost io0 = *self;
        let final_locs = self.collect_refno_locs_in_session(ses_pgno);
        let mut eles: Vec<EleData> = Vec::new();
        let mut i: usize = 0;
        while i < final_locs.len()
            invariant
                i <= final_locs.len(),
                same_image(*self, io0),
                final_locs@ == session_locs(io0, ses_pgno),
                forall|k: int| 0 <= k < final_locs@.len() ==> element_view(io0, (#[trigger] final_locs@[k]).spec_att_offset()) is Some,
                eles@.len() == i,
                forall|k: int| 0 <= k < i ==> Some((#[trigger] eles@[k])@) == element_view(io0, final_locs@[k].spec_att_offset()),
            decreases final_locs.len() - i,
        {
            let offset = final_locs[i].get_att_offset();
            proof {
                assert(element_view(*self, offset) == element_view(io0, offset));
            }
            match self.get_element(offset) {
                Ok(e) => {
                    eles.push(e);
                },
                Err(_) => {
                    proof {
                        assert(element_view(io0, final_locs@[i as int].spec_att_offset()) is Some);
                    }
                    return eles;
                },
            }
            i += 1;
        }
        eles
    }

    /// Header, latest session page and file size.
    pub fn get_page_basic_info(&self) -> (r: Result<DbPageBasicInfo, IoError>)
        ensures
            match self.header {
                None => r == Err::<DbPageBasicInfo, IoError>(IoError::NoHeader),
                Some(h) => match ses_page_at(self.session_pages@, h.latest_ses_pgno) {
                    None => r == Err::<DbPageBasicInfo, IoError>(IoError::UnreadableSessionPage { pgno: h.latest_ses_pgno }),
                    Some(p) => r == Ok::<DbPageBasicInfo, IoError>(
                        DbPageBasicInfo { pdms_header: h, latest_ses_pageno: h.latest_ses_pgno, latest_ses_data: p, file_size: self.file_len },
                    ),
                },
            },
    {
        let pdms_header = match self.read_pdms_header() {
            Ok(h) => h,
            Err(e) => {
                return Err(e);
            },
        };
        let latest_ses_pageno = pdms_header.latest_ses_pgno;
        let latest_ses_data = match self.read_ses_data(latest_ses_pageno) {
            Ok(d) => d,
            Err(e) => {
                return Err(e);
            },
        };
        Ok(DbPageBasicInfo { pdms_header, latest_ses_pageno, latest_ses_data, file_size: self.file_len })
    }
}

/// The entries a session wrote, by session number.
pub open spec fn sesno_locs(io: PdmsIO, sesno: i32) -> Seq<RefnoDataLoc> {
    if io.sesno_pgno_map@.contains_key(sesno) {
        session_locs(io, io.sesno_pgno_map@[sesno])
    } else {
        Seq::empty()
    }
}

/// The highest page number among the entries, 0 for none.
pub open spec fn max_pgno(locs: Seq<RefnoDataLoc>) -> u32
    decreases locs.len(),
{
    if locs.len() == 0 {
        0
    } else if locs.last().pgno > max_pgno(locs.drop_last()) {
        locs.last().pgno
    } else {
        max_pgno(locs.drop_last())
    }
}

/// The entries written by the sessions `lo..=hi`, the newest session first.
pub open spec fn incr_locs(io: PdmsIO, lo: int, hi: int) -> Seq<RefnoDataLoc>
    decreases hi - lo + 1,
{
    if hi < lo {
        Seq::empty()
    } else {
        incr_locs(io, lo + 1, hi) + sesno_locs(io, lo as i32)
    }
}

/// Elements by reference number from entries taken in order: an entry whose key is
/// already present adds nothing, any other adds its element under the element's
/// own reference number; `None` when such an element does not decode.
pub open spec fn incr_fold(io: PdmsIO, locs: Seq<RefnoDataLoc>) -> Result<Map<u64, EleView>, IoError>
    decreases locs.len(),
{
    if locs.len() == 0 {
        Ok(Map::empty())
    } else {
        match incr_fold(io, locs.drop_last()) {
            Err(e) => Err(e),
            Ok(m) => if m.contains_key(locs.last().key()) {
                Ok(m)
            } else {
                match element_view(io, locs.last().spec_att_offset()) {
                    None => Err(IoError::UnreadableRecord { offset: locs.last().spec_att_offset() }),
                    Some(v) => Ok(m.insert(v.refno, v)),
                }
            },
        }
    }
}

/// The views of a map's elements.
pub open spec fn views(m: Map<u64, EleData>) -> Map<u64, EleView> {
    m.map_values(|e: EleData| e@)
}

impl PdmsIO {
    /// The newest version of every element the sessions of the range wrote: the
    /// sessions are taken from the newest down, and within a session its entries in
    /// order; an element is decoded once, at its first entry.
    pub fn collect_increment_eles(&mut self, sesno_range: std::ops::RangeInclusive<i32>) -> (r: Result<BTreeMap<u64, EleData>, IoError>)
        requires
            !sesno_range@.exhausted,
            forall|s: i32| sesno_range@.start <= s <= sesno_range@.end && #[trigger] old(self).sesno_pgno_map@.contains_key(s)
                ==> session_readable(*old(self), old(self).sesno_pgno_map@[s]),
        ensures
            same_image(*final(self), *old(self)),
            match incr_fold(*old(self), incr_locs(*old(self), sesno_range@.start as int, sesno_range@.end as int)) {
                Err(e) => r == Err::<BTreeMap<u64, EleData>, IoError>(e),
                Ok(m) => r matches Ok(x) && views(x@) == m,
            },
    {
        broadcast use crate::order::group_key_order;

        let ghost io0 = *self;
        let start = *sesno_range.start();
        let end = *sesno_range.end();
        let mut eles_map: BTreeMap<u64, EleData> = BTreeMap::new();
        if start > end {
            proof {
                assert(views(eles_map@) =~= Map::<u64, EleView>::empty());
            }
            return Ok(eles_map);
        }
        let ghost mut done: Seq<RefnoDataLoc> = Seq::empty();
        let mut s: i64 = end as i64;
        proof {
            assert(incr_locs(io0, s + 1, end as int) == Seq::<RefnoDataLoc>::empty());
            assert(views(eles_map@) =~= Map::<u64, EleView>::empty());
        }
        while s >= start as i64
            invariant
                start == sesno_range@.start,
                end == sesno_range@.end,
                start as int - 1 <= s <= end,
                io0 == *old(self),
                same_image(*self, io0),
                forall|x: i32| start <= x <= end && #[trigger] io0.sesno_pgno_map@.contains_key(x) ==> session_readable(io0, io0.sesno_pgno_map@[x]),
                done == incr_locs(io0, s + 1, end as int),
                incr_fold(io0, done) == Ok::<Map<u64, EleView>, IoError>(views(eles_map@)),
            decreases s - start as i64 + 1,
        {
            let sesno = s as i32;
            let ghost self_before = *self;
            proof {
                assert(self.sesno_pgno_map@ == io0.sesno_pgno_map@);
                if self.sesno_pgno_map@.contains_key(sesno) {
                    assert(session_readable(io0, io0.sesno_pgno_map@[sesno]));
                }
            }
            let final_locs = self.collect_refno_locs(sesno);
            proof {
                assert(sesno_locs(self_before, sesno) == sesno_locs(io0, sesno));
                assert(incr_locs(io0, s as int, end as int) == incr_locs(io0, s + 1, end as int) + sesno_locs(io0, sesno));
            }
            let ghost done0 = done;
            let mut k: usize = 0;
            while k < final_locs.len()
                invariant
                    k <= final_locs.len(),
                    io0 == *old(self),
                    start <= s <= end,
                    start == sesno_range@.start,
                    end == sesno_range@.end,
                    same_image(*self, io0),
                    final_locs@ == sesno_locs(io0, sesno),
                    done0 + final_locs@ == incr_locs(io0, s as int, end as int),
                    done == done0 + final_locs@.take(k as int),
                    incr_fold(io0, done) == Ok::<Map<u64, EleView>, IoError>(views(eles_map@)),
                decreases final_locs.len() - k,
            {
                let l = final_locs[k];
                let ghost d1 = done.push(l);
                proof {
                    assert(d1.drop_last() =~= done);
                    assert(final_locs@.take(k + 1) =~= final_locs@.take(k as int).push(l));
                }
                let key = l.get_refno();
                if !eles_map.contains_key(&key) {
                    let offset = l.get_att_offset();
                    proof {
                        assert(element_view(*self, offset) == element_view(io0, offset));
                    }
                    match self.get_element(offset) {
                        Ok(ele) => {
                            let ghost before = eles_map@;
                            let ghost v = ele@;
                            eles_map.insert(ele.refno, ele);
                            proof {
                                assert(views(eles_map@) =~= views(before).insert(v.refno, v));
                            }
                        },
                        Err(e) => {
                            proof {
                                assert(incr_fold(io0, d1) == Err::<Map<u64, EleView>, IoError>(e));
                                let whole = incr_locs(io0, start as int, end as int);
                                let part = incr_locs(io0, s as int, end as int);
                                lemma_incr_prefix(io0, start as int, s as int, end as int);
                                assert(d1 =~= part.take(d1.len() as int));
                                assert(whole.take(d1.len() as int) =~= d1);
                                lemma_fold_stays_failed(io0, d1, whole, e);
                            }
                            return Err(e);
                        },
                    }
                }
                proof {
                    done = d1;
                }
                k += 1;
            }
            proof {
                assert(final_locs@.take(k as int) =~= final_locs@);
            }
            s -= 1;
        }
        proof {
            assert(s + 1 == start as int);
        }
        Ok(eles_map)
    }
}

/// The entries of the newer sessions come first.
proof fn lemma_incr_prefix(io: PdmsIO, lo: int, m: int, hi: int)
    requires
        lo <= m <= hi + 1,
    ensures
        incr_locs(io, m, hi).len() <= incr_locs(io, lo, hi).len(),
        incr_locs(io, lo, hi).take(incr_locs(io, m, hi).len() as int) == incr_locs(io, m, hi),
    decreases m - lo,
{
    if m > lo {
        lemma_incr_prefix(io, lo + 1, m, hi);
        let a = incr_locs(io, m, hi);
        let b = incr_locs(io, lo + 1, hi);
        assert(incr_locs(io, lo, hi) == b + sesno_locs(io, lo as i32));
        assert((b + sesno_locs(io, lo as i32)).take(a.len() as int) =~= b.take(a.len() as int));
    } else {
        assert(incr_locs(io, lo, hi).take(incr_locs(io, lo, hi).len() as int) =~= incr_locs(io, lo, hi));
    }
}

/// A fold that failed on a prefix fails on the whole.
proof fn lemma_fold_stays_failed(io: PdmsIO, prefix: Seq<RefnoDataLoc>, whole: Seq<RefnoDataLoc>, e: IoError)
    requires
        incr_fold(io, prefix) == Err::<Map<u64, EleView>, IoError>(e),
        prefix.len() <= whole.len(),
        whole.take(prefix.len() as int) == prefix,
    ensures
        incr_fold(io, whole) == Err::<Map<u64, EleView>, IoError>(e),
    decreases whole.len(),
{
    if whole.len() > prefix.len() {
        assert(whole.drop_last().take(prefix.len() as int) =~= prefix);
        lemma_fold_stays_failed(io, prefix, whole.drop_last(), e);
    } else {
        assert(whole =~= prefix);
    }
}

/// Routing test of the page-number search on the entry pair at `i`, `i + 1`.
pub open spec fn window_hit(locs: Seq<RefnoDataLoc>, i: int, r0: u32, r1: u32) -> bool {
    let x0 = locs[i];
    let x1 = locs[i + 1];
    ||| x1.refno_0 > r0 && x0.refno_0 <= r0
    ||| (r0 >= x0.refno_0 && r1 >= x0.refno_1) && (r0 <= x1.refno_0 && r1 < x1.refno_1)
}

/// First entry pair from `i` on that the routing test accepts.
pub open spec fn first_window(locs: Seq<RefnoDataLoc>, i: int, r0: u32, r1: u32) -> Option<int>
    decreases locs.len() - i,
{
    if i < 0 || i + 1 >= locs.len() {
        None
    } else if window_hit(locs, i, r0, r1) {
        Some(i)
    } else {
        first_window(locs, i + 1, r0, r1)
    }
}

/// First entry carrying the key halves `(r0, r1)`.
pub open spec fn exact_entry(locs: Seq<RefnoDataLoc>, r0: u32, r1: u32) -> Option<RefnoDataLoc>
    decreases locs.len(),
{
    if locs.len() == 0 {
        None
    } else if locs[0].refno_0 == r0 && locs[0].refno_1 == r1 {
        Some(locs[0])
    } else {
        exact_entry(locs.drop_first(), r0, r1)
    }
}

/// The page-number search from `page`, counting `level` down by one per step: on
/// level 0 the exact entry, above it the entry of the first accepted pair (the last
/// entry when none is accepted) leads to the next page. `None` when a page without
/// entries must route, where the search has no entry to take.
pub open spec fn pgno_descent(
    pages: Seq<(u32, IndexPageData)>,
    page: IndexPageView,
    refno: u64,
    level: int,
) -> Option<Result<RefnoDataLoc, IoError>>
    decreases level,
{
    let r0 = spec_refno_hi(refno);
    let r1 = spec_refno_lo(refno);
    if level < 0 {
        Some(Err(IoError::NotFound { refno }))
    } else if level == 0 {
        match exact_entry(page.locs, r0, r1) {
            Some(e) => Some(Ok(e)),
            None => Some(Err(IoError::NotFound { refno })),
        }
    } else {
        let idx = match first_window(page.locs, 0, r0, r1) {
            Some(i) => i,
            None => page.locs.len() - 1,
        };
        if idx < 0 {
            None
        } else {
            match mem_page_at(pages, page.locs[idx].pgno) {
                None => Some(Err(IoError::UnreadableIndexPage { pgno: page.locs[idx].pgno })),
                Some(child) => pgno_descent(pages, child, refno, level - 1),
            }
        }
    }
}

/// The page-number search from the latest session's index root; `None` when it
/// must route through a page without entries.
pub open spec fn pgno_search(io: PdmsIO, refno: u64) -> Option<Result<RefnoDataLoc, IoError>> {
    match io.header {
        None => Some(Err(IoError::NoHeader)),
        Some(h) => match ses_page_at(io.session_pages@, h.latest_ses_pgno) {
            None => Some(Err(IoError::UnreadableSessionPage { pgno: h.latest_ses_pgno })),
            Some(sp) => match mem_page_at(io.index_pages@, sp.index_root_pageno) {
                None => Some(Err(IoError::UnreadableIndexPage { pgno: sp.index_root_pageno })),
                Some(root) => pgno_descent(io.index_pages@, root, refno, root.level as i32 as int),
            },
        },
    }
}

/// The element the page-number search finds for `refno`.
pub open spec fn auto_element(io: PdmsIO, refno: u64) -> Result<EleView, IoError> {
    match pgno_search(io, refno) {
        Some(Ok(loc)) => match element_view(io, loc.spec_att_offset()) {
            Some(v) => Ok(v),
            None => Err(IoError::UnreadableRecord { offset: loc.spec_att_offset() }),
        },
        Some(Err(e)) => Err(e),
        None => Err(IoError::NotFound { refno }),
    }
}

/// No entry pair from `i` on accepts a key that is at least every entry's key
/// (halves compared in order).
proof fn lemma_no_window_above_all(locs: Seq<RefnoDataLoc>, i: int, r0: u32, r1: u32)
    requires
        forall|j: int| 0 <= j < locs.len() ==> (#[trigger] locs[j]).refno_0 < r0 || (locs[j].refno_0 == r0 && locs[j].refno_1 <= r1),
    ensures
        first_window(locs, i, r0, r1) is None,
    decreases locs.len() - i,
{
    if !(i < 0 || i + 1 >= locs.len()) {
        let x1 = locs[i + 1];
        assert(x1.refno_0 < r0 || (x1.refno_0 == r0 && x1.refno_1 <= r1));
        assert(!window_hit(locs, i, r0, r1));
        lemma_no_window_above_all(locs, i + 1, r0, r1);
    }
}

/// On an inner page where no entry pair accepts the key, the page-number search
/// goes on in the child of the last entry.
pub proof fn law_search_falls_to_last_child(pages: Seq<(u32, IndexPageData)>, page: IndexPageView, refno: u64, level: int)
    requires
        level > 0,
        page.locs.len() > 0,
        first_window(page.locs, 0, spec_refno_hi(refno), spec_refno_lo(refno)) is None,
    ensures
        pgno_descent(pages, page, refno, level) == match mem_page_at(pages, page.locs.last().pgno) {
            None => Some(Err(IoError::UnreadableIndexPage { pgno: page.locs.last().pgno })),
            Some(child) => pgno_descent(pages, child, refno, level - 1),
        },
{
}

/// A key at least every separator of an inner page is searched in the subtree of
/// the page's last entry: the rightmost subtree.
pub proof fn law_search_above_separators_goes_right(pages: Seq<(u32, IndexPageData)>, page: IndexPageView, refno: u64, level: int)
    requires
        level > 0,
        page.locs.len() > 0,
        forall|j: int| 0 <= j < page.locs.len() ==> (#[trigger] page.locs[j]).refno_0 < spec_refno_hi(refno) || (page.locs[j].refno_0
            == spec_refno_hi(refno) && page.locs[j].refno_1 <= spec_refno_lo(refno)),
    ensures
        pgno_descent(pages, page, refno, level) == match mem_page_at(pages, page.locs.last().pgno) {
            None => Some(Err(IoError::UnreadableIndexPage { pgno: page.locs.last().pgno })),
            Some(child) => pgno_descent(pages, child, refno, level - 1),
        },
{
    lemma_no_window_above_all(page.locs, 0, spec_refno_hi(refno), spec_refno_lo(refno));
    law_search_falls_to_last_child(pages, page, refno, level);
}

/// The first accepted pair is the least index from `i` whose pair the routing test
/// accepts.
proof fn lemma_first_window_least(locs: Seq<RefnoDataLoc>, i: int, r0: u32, r1: u32, w: int)
    requires
        0 <= i <= w,
        w + 1 < locs.len(),
        window_hit(locs, w, r0, r1),
        forall|j: int| i <= j < w ==> !#[trigger] window_hit(locs, j, r0, r1),
    ensures
        first_window(locs, i, r0, r1) == Some(w),
    decreases w - i,
{
    if i < w {
        lemma_first_window_least(locs, i + 1, r0, r1, w);
    }
}

/// The entry found on a leaf for the key halves: the first entry carrying them.
proof fn lemma_exact_entry_first(locs: Seq<RefnoDataLoc>, r0: u32, r1: u32)
    ensures
        exact_entry(locs, r0, r1) matches Some(e) ==> exists|i: int| 0 <= i < locs.len() && locs[i] == e && e.refno_0 == r0
            && e.refno_1 == r1 && forall|j: int| 0 <= j < i ==> !(#[trigger] locs[j].refno_0 == r0 && locs[j].refno_1 == r1),
        exact_entry(locs, r0, r1) is None <==> forall|j: int| 0 <= j < locs.len() ==> !(#[trigger] locs[j].refno_0 == r0
            && locs[j].refno_1 == r1),
    decreases locs.len(),
{
    if locs.len() > 0 {
        let rest = locs.drop_first();
        lemma_exact_entry_first(rest, r0, r1);
        if !(locs[0].refno_0 == r0 && locs[0].refno_1 == r1) {
            if let Some(e) = exact_entry(rest, r0, r1) {
                let i = choose|i: int| 0 <= i < rest.len() && rest[i] == e && e.refno_0 == r0 && e.refno_1 == r1 && forall|j: int|
                    0 <= j < i ==> !(#[trigger] rest[j].refno_0 == r0 && rest[j].refno_1 == r1);
                assert(locs[i + 1] == e);
                assert forall|j: int| 0 <= j < i + 1 implies !(#[trigger] locs[j].refno_0 == r0 && locs[j].refno_1 == r1) by {
                    if j > 0 {
                        assert(locs[j] == rest[j - 1]);
                    }
                }
            }
            assert forall|j: int| 0 <= j < locs.len() && exact_entry(rest, r0, r1) is None implies !(#[trigger] locs[j].refno_0 == r0
                && locs[j].refno_1 == r1) by {
                if j > 0 {
                    assert(locs[j] == rest[j - 1]);
                }
            }
            if exact_entry(rest, r0, r1) is Some {
                let e = exact_entry(rest, r0, r1)->0;
                let i = choose|i: int| 0 <= i < rest.len() && rest[i] == e && e.refno_0 == r0 && e.refno_1 == r1 && forall|j: int|
                    0 <= j < i ==> !(#[trigger] rest[j].refno_0 == r0 && rest[j].refno_1 == r1);
                assert(locs[i + 1] == e);
            }
        }
    }
}

/// On a leaf the page-number search finds the first entry that carries the key's
/// halves, and fails with `NotFound` when none does.
pub proof fn law_search_leaf_finds_first_match(pages: Seq<(u32, IndexPageData)>, page: IndexPageView, refno: u64)
    ensures
        ({
            let r0 = spec_refno_hi(refno);
            let r1 = spec_refno_lo(refno);
            &&& pgno_descent(pages, page, refno, 0) matches Some(Ok(e)) ==> exists|i: int| 0 <= i < page.locs.len() && page.locs[i]
                == e && e.refno_0 == r0 && e.refno_1 == r1 && forall|j: int| 0 <= j < i ==> !(#[trigger] page.locs[j].refno_0 == r0
                && page.locs[j].refno_1 == r1)
            &&& pgno_descent(pages, page, refno, 0) == Some(Err::<RefnoDataLoc, IoError>(IoError::NotFound { refno })) <==> forall|j: int|
                0 <= j < page.locs.len() ==> !(#[trigger] page.locs[j].refno_0 == r0 && page.locs[j].refno_1 == r1)
            &&& pgno_descent(pages, page, refno, 0) is Some
        }),
{
    lemma_exact_entry_first(page.locs, spec_refno_hi(refno), spec_refno_lo(refno));
}

/// On an inner page the page-number search goes on in the child of the first entry
/// of the least pair that the routing test accepts.
pub proof fn law_search_takes_first_accepted_pair(pages: Seq<(u32, IndexPageData)>, page: IndexPageView, refno: u64, level: int, w: int)
    requires
        level > 0,
        0 <= w,
        w + 1 < page.locs.len(),
        window_hit(page.locs, w, spec_refno_hi(refno), spec_refno_lo(refno)),
        forall|j: int| 0 <= j < w ==> !#[trigger] window_hit(page.locs, j, spec_refno_hi(refno), spec_refno_lo(refno)),
    ensures
        pgno_descent(pages, page, refno, level) == match mem_page_at(pages, page.locs[w].pgno) {
            None => Some(Err(IoError::UnreadableIndexPage { pgno: page.locs[w].pgno })),
            Some(child) => pgno_descent(pages, child, refno, level - 1),
        },
{
    lemma_first_window_least(page.locs, 0, spec_refno_hi(refno), spec_refno_lo(refno), w);
}

fn exact_entry_of(locs: &Vec<RefnoDataLoc>, r0: u32, r1: u32) -> (r: Option<RefnoDataLoc>)
    ensures
        r == exact_entry(locs@, r0, r1),
{
    let mut i: usize = 0;
    assert(locs@.skip(0) == locs@);
    while i < locs.len()
        invariant
            i <= locs.len(),
            exact_entry(locs@, r0, r1) == exact_entry(locs@.skip(i as int), r0, r1),
        decreases locs.len() - i,
    {
        assert(locs@.skip(i as int).drop_first() == locs@.skip(i + 1));
        assert(locs@.skip(i as int)[0] == locs@[i as int]);
        if locs[i].refno_0 == r0 && locs[i].refno_1 == r1 {
            return Some(locs[i]);
        }
        i += 1;
    }
    None
}

proof fn lemma_first_window_bounds(locs: Seq<RefnoDataLoc>, j: int, r0: u32, r1: u32)
    ensures
        first_window(locs, j, r0, r1) matches Some(i) ==> 0 <= j <= i && i + 1 < locs.len(),
    decreases locs.len() - j,
{
    if !(j < 0 || j + 1 >= locs.len()) && !window_hit(locs, j, r0, r1) {
        lemma_first_window_bounds(locs, j + 1, r0, r1);
    }
}

fn first_window_of(locs: &Vec<RefnoDataLoc>, r0: u32, r1: u32) -> (r: Option<usize>)
    ensures
        match first_window(locs@, 0, r0, r1) {
            Some(i) => r == Some(i as usize),
            None => r is None,
        },
{
    let mut i: usize = 0;
    while i < locs.len()
        invariant
            i <= locs.len(),
            first_window(locs@, 0, r0, r1) == first_window(locs@, i as int, r0, r1),
        decreases locs.len() - i,
    {
        if i + 1 >= locs.len() {
            return None;
        }
        let x0 = locs[i];
        let x1 = locs[i + 1];
        if (x1.refno_0 > r0 && x0.refno_0 <= r0) || ((r0 >= x0.refno_0 && r1 >= x0.refno_1) && (r0 <= x1.refno_0 && r1 < x1.refno_1)) {
            return Some(i);
        }
        i += 1;
    }
    None
}


impl PdmsIO {
    /// Index entry of `refno` in the latest session's index tree, by the
    /// page-number search (see `pgno_descent`).
    pub fn search_refno_pgno(&mut self, refno: u64) -> (r: Result<RefnoDataLoc, IoError>)
        requires
            pgno_search(*old(self), refno) is Some,
        ensures
            same_image(*final(self), *old(self)),
            r == pgno_search(*old(self), refno)->0,
    {
        let ghost io0 = *self;
        let basic_info = match self.get_page_basic_info() {
            Ok(b) => b,
            Err(e) => {
                return Err(e);
            },
        };
        let latest_index_pgno = basic_info.latest_ses_data.index_root_pageno;
        let mut index_data = match self.read_index_data(latest_index_pgno) {
            Ok(d) => d,
            Err(e) => {
                return Err(e);
            },
        };
        let mut level: i32 = index_data.level as i32;
        let r0 = refno_hi(refno);
        let r1 = refno_lo(refno);
        while level >= 0
            invariant
                io0 == *old(self),
                same_image(*self, io0),
                pgno_search(io0, refno) == pgno_descent(io0.index_pages@, index_data@, refno, level as int),
                pgno_search(io0, refno) is Some,
                r0 == spec_refno_hi(refno),
                r1 == spec_refno_lo(refno),
            decreases level,
        {
            if level == 0 {
                return match exact_entry_of(&index_data.refno_locs, r0, r1) {
                    Some(d) => Ok(d),
                    None => Err(IoError::NotFound { refno }),
                };
            }
            let found = first_window_of(&index_data.refno_locs, r0, r1);
            proof {
                lemma_first_window_bounds(index_data.refno_locs@, 0, r0, r1);
                if found is None {
                    assert(index_data.refno_locs@.len() > 0);
                }
            }
            let idx = match found {
                Some(i) => i,
                None => index_data.refno_locs.len() - 1,
            };
            let d = index_data.refno_locs[idx];
            index_data = match self.read_index_data(d.pgno) {
                Ok(next) => next,
                Err(e) => {
                    return Err(e);
                },
            };
            level -= 1;
        }
        Err(IoError::NotFound { refno })
    }

    /// The element the page-number search finds for `refno`.
    pub fn auto_get_element(&mut self, refno: u64) -> (r: Result<EleData, IoError>)
        requires
            pgno_search(*old(self), refno) is Some,
        ensures
            same_image(*final(self), *old(self)),
            match auto_element(*old(self), refno) {
                Ok(v) => r matches Ok(e) && e@ == v,
                Err(e) => r == Err::<EleData, IoError>(e),
            },
    {
        let ghost io0 = *self;
        let loc = match self.search_refno_pgno(refno) {
            Ok(l) => l,
            Err(e) => {
                return Err(e);
            },
        };
        proof {
            assert(element_view(*self, loc.spec_att_offset()) == element_view(io0, loc.spec_att_offset()));
        }
        self.get_element(loc.get_att_offset())
    }
}

/// `m` is the member tree below `root` by the page-number search: it holds the root,
/// every key's element as the search finds it, and every member of every element;
/// every key other than the root is a member of an element of lower rank.
pub open spec fn deep_closure(io: PdmsIO, root: u64, m: Map<u64, EleView>) -> bool {
    exists|rank: Map<u64, nat>| #[trigger] deep_ranked(io, root, m, rank)
}

pub open spec fn deep_ranked(io: PdmsIO, root: u64, m: Map<u64, EleView>, rank: Map<u64, nat>) -> bool {
    &&& m.contains_key(root)
    &&& rank.dom() == m.dom()
    &&& forall|k: u64| #[trigger] m.contains_key(k) ==> auto_element(io, k) == Ok::<EleView, IoError>(m[k])
    &&& forall|k: u64, c: u64| #[trigger] m.contains_key(k) && m[k].children.contains(c) ==> #[trigger] m.contains_key(c)
    &&& forall|k: u64| #[trigger] m.contains_key(k) && k != root ==> exists|p: u64| #[trigger] m.contains_key(p) && rank[p] < rank[k]
        && m[p].children.contains(k)
}

/// `s.len() < 2^64` for a finite set of `u64` missing some value.
proof fn lemma_u64_room(s: Set<u64>, x: u64)
    requires
        s.finite(),
        !s.contains(x),
    ensures
        s.len() < 0x1_0000_0000_0000_0000,
{
    let t = s.insert(x);
    let f = |v: u64| v as int;
    vstd::set_lib::lemma_int_range(0, 0x1_0000_0000_0000_0000);
    assert(vstd::relations::injective_on(f, t));
    vstd::set_lib::lemma_map_size(t, t.map(f), f);
    assert(t.map(f).subset_of(vstd::set_lib::set_int_range(0, 0x1_0000_0000_0000_0000)));
    vstd::set_lib::lemma_len_subset(t.map(f), vstd::set_lib::set_int_range(0, 0x1_0000_0000_0000_0000));
}

/// `m` holds elements found by the page-number search, each other than the root a
/// member of an element of lower rank.
pub open spec fn reached_from(io: PdmsIO, root: u64, m: Map<u64, EleView>, rank: Map<u64, nat>) -> bool {
    &&& rank.dom() == m.dom()
    &&& forall|k: u64| #[trigger] m.contains_key(k) ==> auto_element(io, k) == Ok::<EleView, IoError>(m[k])
    &&& forall|k: u64| #[trigger] m.contains_key(k) && k != root ==> exists|p: u64| #[trigger] m.contains_key(p) && rank[p] < rank[k]
        && m[p].children.contains(k)
}

/// The page-number search is defined (meets no empty inner page) for every
/// reference number met below `root`: the root, and each member of an element
/// reached from it through found elements.
pub open spec fn search_defined_below(io: PdmsIO, root: u64) -> bool {
    forall|m: Map<u64, EleView>, rank: Map<u64, nat>, k: u64|
        #![trigger reached_from(io, root, m, rank), pgno_search(io, k)]
        reached_from(io, root, m, rank) && (k == root || exists|p: u64| #[trigger] m.contains_key(p) && m[p].children.contains(k))
            ==> pgno_search(io, k) is Some
}

/// The lookup of a reference number met below `root` fails with `e`: the root
/// itself, or a member of an element reached from the root through found elements.
pub open spec fn reached_failure(io: PdmsIO, root: u64, e: IoError) -> bool {
    exists|m: Map<u64, EleView>, rank: Map<u64, nat>, k: u64|
        #![trigger reached_from(io, root, m, rank), auto_element(io, k)]
        reached_from(io, root, m, rank) && (k == root || exists|p: u64| #[trigger] m.contains_key(p) && m[p].children.contains(k))
            && auto_element(io, k) == Err::<EleView, IoError>(e)
}

impl PdmsIO {
    /// The element of `refno` and, breadth first, the elements of all its members
    /// below it, each looked up by the page-number search once.
    pub fn auto_get_elements_deep(&mut self, refno: u64) -> (r: Result<BTreeMap<u64, EleData>, IoError>)
        requires
            search_defined_below(*old(self), refno),
        ensures
            same_image(*final(self), *old(self)),
            r matches Ok(m) ==> deep_closure(*old(self), refno, views(m@)),
            r matches Err(e) ==> reached_failure(*old(self), refno, e),
    {
        broadcast use crate::order::group_key_order;

        let ghost io0 = *self;
        let mut map: BTreeMap<u64, EleData> = BTreeMap::new();
        let mut pendings: Vec<u64> = Vec::new();
        pendings.push(refno);
        let mut head: usize = 0;
        let ghost mut rank: Map<u64, nat> = Map::empty();
        loop
            invariant
                io0 == *old(self),
                same_image(*self, io0),
                search_defined_below(io0, refno),
                head <= pendings@.len(),
                pendings@.len() >= 1,
                pendings@[0] == refno,
                head == 0 ==> map@.dom().is_empty(),
                head > 0 ==> map@.contains_key(refno),
                map@.dom().finite(),
                map@.dom().len() <= 0x1_0000_0000_0000_0000,
                rank.dom() == map@.dom(),
                forall|k: u64| #[trigger] map@.contains_key(k) ==> rank[k] < map@.dom().len(),
                forall|k: u64| #[trigger] map@.contains_key(k) ==> auto_element(io0, k) == Ok::<EleView, IoError>(map@[k]@),
                forall|k: u64, c: u64| #[trigger] map@.contains_key(k) && map@[k]@.children.contains(c) ==> #[trigger] map@.contains_key(c)
                    || exists|j: int| head <= j < pendings@.len() && pendings@[j] == c,
                forall|k: u64| #[trigger] map@.contains_key(k) && k != refno ==> exists|p: u64| #[trigger] map@.contains_key(p) && rank[p] < rank[k]
                    && map@[p]@.children.contains(k),
                forall|j: int| 1 <= j < pendings@.len() ==> exists|p: u64| #[trigger] map@.contains_key(p) && map@[p]@.children.contains(
                    #[trigger] pendings@[j],
                ),
            ensures
                head == pendings@.len(),
            decreases 0x1_0000_0000_0000_0000 - map@.dom().len(), pendings@.len() - head,
        {
            if head >= pendings.len() {
                break;
            }
            let current = pendings[head];
            let ghost h0 = head as int;
            let ghost p0 = pendings@;
            head += 1;
            if map.contains_key(&current) {
                proof {
                    assert forall|k: u64, c: u64| #[trigger] map@.contains_key(k) && map@[k]@.children.contains(c) implies #[trigger] map@.contains_key(c)
                        || exists|j: int| head <= j < pendings@.len() && pendings@[j] == c by {
                        if !map@.contains_key(c) {
                            let j = choose|j: int| h0 <= j < p0.len() && p0[j] == c;
                            assert(j != h0);
                        }
                    }
                }
                continue;
            }
            proof {
                assert(pgno_search(*self, current) == pgno_search(io0, current));
                let vm = views(map@);
                assert(vm.dom() =~= map@.dom());
                assert(forall|k: u64| #[trigger] vm.contains_key(k) ==> vm[k] == map@[k]@);
                assert(reached_from(io0, refno, vm, rank)) by {
                    assert forall|k: u64| #[trigger] vm.contains_key(k) && k != refno implies exists|p: u64| #[trigger] vm.contains_key(p) && rank[p]
                        < rank[k] && vm[p].children.contains(k) by {
                        assert(map@.contains_key(k));
                        let p = choose|p: u64| #[trigger] map@.contains_key(p) && rank[p] < rank[k] && map@[p]@.children.contains(k);
                        assert(vm.contains_key(p));
                    }
                }
                if h0 >= 1 {
                    let p = choose|p: u64| #[trigger] map@.contains_key(p) && map@[p]@.children.contains(p0[h0]);
                    assert(vm.contains_key(p) && vm[p].children.contains(current));
                }
                assert(pgno_search(io0, current) is Some);
            }
            let ghost before_lookup = *self;
            let ele = match self.auto_get_element(current) {
                Ok(e) => e,
                Err(e) => {
                    proof {
                        assert(auto_element(before_lookup, current) == auto_element(io0, current));
                        assert(auto_element(io0, current) == Err::<EleView, IoError>(e));
                        let vm = views(map@);
                        assert(vm.dom() =~= map@.dom());
                        assert(forall|k: u64| #[trigger] vm.contains_key(k) ==> vm[k] == map@[k]@);
                        assert(reached_from(io0, refno, vm, rank)) by {
                            assert forall|k: u64| #[trigger] vm.contains_key(k) && k != refno implies exists|p: u64| #[trigger] vm.contains_key(p) && rank[p]
                                < rank[k] && vm[p].children.contains(k) by {
                                assert(map@.contains_key(k));
                                let p = choose|p: u64| #[trigger] map@.contains_key(p) && rank[p] < rank[k] && map@[p]@.children.contains(k);
                                assert(vm.contains_key(p));
                            }
                        }
                        if h0 >= 1 {
                            let p = choose|p: u64| #[trigger] map@.contains_key(p) && map@[p]@.children.contains(p0[h0]);
                            assert(vm.contains_key(p) && vm[p].children.contains(current));
                        }
                        assert(reached_failure(io0, refno, e));
                    }
                    return Err(e);
                },
            };
            let ghost m0 = map@;
            let ghost rank0 = rank;
            proof {
                lemma_u64_room(map@.dom(), current);
                rank = rank.insert(current, map@.dom().len());
            }
            let mut c: usize = 0;
            while c < ele.children.len()
                invariant
                    c <= ele.children.len(),
                    pendings@.len() >= p0.len(),
                    forall|j: int| 0 <= j < p0.len() ==> #[trigger] pendings@[j] == p0[j],
                    forall|j: int| p0.len() <= j < pendings@.len() ==> ele.children@.contains(#[trigger] pendings@[j]),
                    forall|i: int| 0 <= i < c ==> exists|j: int| p0.len() <= j < pendings@.len() && pendings@[j] == #[trigger] ele.children@[i],
                decreases ele.children.len() - c,
            {
                let ghost pb = pendings@;
                pendings.push(ele.children[c]);
                proof {
                    assert(pendings@[pendings@.len() - 1] == ele.children@[c as int]);
                    assert forall|i: int| 0 <= i < c + 1 implies exists|j: int| p0.len() <= j < pendings@.len() && pendings@[j] == #[trigger] ele.children@[i] by {
                        if i < c {
                            let j = choose|j: int| p0.len() <= j < pb.len() && pb[j] == ele.children@[i];
                            assert(pendings@[j] == pb[j]);
                        } else {
                            assert(pendings@[pendings@.len() - 1] == ele.children@[i]);
                        }
                    }
                    assert forall|j: int| 0 <= j < p0.len() implies #[trigger] pendings@[j] == p0[j] by {
                        assert(pendings@[j] == pb[j]);
                    }
                    assert forall|j: int| p0.len() <= j < pendings@.len() implies ele.children@.contains(#[trigger] pendings@[j]) by {
                        if j < pb.len() {
                            assert(pendings@[j] == pb[j]);
                        }
                    }
                }
                c += 1;
            }
            let ghost v = ele@;
            map.insert(current, ele);
            proof {
                assert(map@.dom() =~= m0.dom().insert(current));
                assert(map@[current]@ == v);
                if current != refno {
                    assert(h0 >= 1);
                    let p = choose|p: u64| #[trigger] m0.contains_key(p) && m0[p]@.children.contains(p0[h0]);
                    assert(map@.contains_key(p) && rank[p] < rank[current] && map@[p]@.children.contains(current));
                }
                assert forall|k: u64| #[trigger] map@.contains_key(k) && k != refno implies exists|p: u64| #[trigger] map@.contains_key(p) && rank[p]
                    < rank[k] && map@[p]@.children.contains(k) by {
                    if k != current {
                        let p = choose|p: u64| #[trigger] m0.contains_key(p) && rank0[p] < rank0[k] && m0[p]@.children.contains(k);
                        assert(map@.contains_key(p) && rank[p] < rank[k] && map@[p]@.children.contains(k));
                    }
                }
                assert forall|k: u64| #[trigger] map@.contains_key(k) implies auto_element(io0, k) == Ok::<EleView, IoError>(map@[k]@) by {
                    if k != current {
                        assert(map@[k] == m0[k]);
                    }
                }
                assert forall|j: int| 1 <= j < pendings@.len() implies exists|p: u64| #[trigger] map@.contains_key(p) && map@[p]@.children.contains(
                    #[trigger] pendings@[j],
                ) by {
                    if j < p0.len() {
                        assert(pendings@[j] == p0[j]);
                        let p = choose|p: u64| #[trigger] m0.contains_key(p) && m0[p]@.children.contains(p0[j]);
                        assert(map@.contains_key(p) && map@[p]@.children.contains(pendings@[j]));
                    } else {
                        assert(map@.contains_key(current) && map@[current]@.children.contains(pendings@[j]));
                    }
                }
                assert forall|k: u64, cc: u64| #[trigger] map@.contains_key(k) && map@[k]@.children.contains(cc) implies #[trigger] map@.contains_key(cc)
                    || exists|j: int| head <= j < pendings@.len() && pendings@[j] == cc by {
                    if k == current {
                        let i = choose|i: int| 0 <= i < v.children.len() && v.children[i] == cc;
                        let j = choose|j: int| p0.len() <= j < pendings@.len() && pendings@[j] == ele.children@[i];
                    } else if !map@.contains_key(cc) {
                        assert(m0[k]@.children.contains(cc));
                        let j = choose|j: int| h0 <= j < p0.len() && p0[j] == cc;
                        assert(j != h0);
                        assert(pendings@[j] == p0[j]);
                    }
                }
                assert forall|k: u64| #[trigger] map@.contains_key(k) implies rank[k] < map@.dom().len() by {
                    if k != current {
                        assert(m0.contains_key(k));
                    }
                }
            }
        }
        proof {
            assert(views(map@).dom() =~= map@.dom());
            assert(head > 0);
            assert(forall|k: u64| #[trigger] views(map@).contains_key(k) ==> views(map@)[k] == map@[k]@);
            assert(deep_ranked(io0, refno, views(map@), rank)) by {
                assert forall|k: u64| #[trigger] views(map@).contains_key(k) implies auto_element(io0, k) == Ok::<EleView, IoError>(views(map@)[k]) by {
                    assert(map@.contains_key(k));
                }
                assert forall|k: u64, cc: u64| #[trigger] views(map@).contains_key(k) && views(map@)[k].children.contains(cc) implies #[trigger] views(map@).contains_key(cc) by {
                    assert(map@.contains_key(k) && map@[k]@.children.contains(cc));
                    assert(map@.contains_key(cc) || exists|j: int| head <= j < pendings@.len() && pendings@[j] == cc);
                }
                assert forall|k: u64| #[trigger] views(map@).contains_key(k) && k != refno implies exists|p: u64| #[trigger] views(map@).contains_key(p) && rank[p]
                    < rank[k] && views(map@)[p].children.contains(k) by {
                    assert(map@.contains_key(k));
                    let p = choose|p: u64| #[trigger] map@.contains_key(p) && rank[p] < rank[k] && map@[p]@.children.contains(k);
                    assert(views(map@).contains_key(p));
                }
            }
        }
        Ok(map)
    }
}

} // verus!
