//! Point search of one reference number in a session's index tree.
//!
//! From the root down, an inner page routes by its entries: sentinel entries are
//! set aside (the first one is the fallback branch), and only entries whose key
//! rises above every key before them take part (a key seen twice keeps its first
//! entry; an entry out of key order is never routed to). Among those, in page
//! order, the search takes the entry equal to the key, or else the entry just
//! before the first one greater than the key (the sentinel when there is none
//! before it), or else the last one. A child must sit on a strictly lower level.
//! On the leaf the first entry with the exact key is the hit.
use vstd::prelude::*;

use crate::defines::{refno_from_two_nums, RefnoDataLoc, SessionPageData};
use crate::io::{has_session_of, is_least_session_of, ses_page_at, PdmsIO};
use crate::session_index_diff::{
    absorb_leaf, diff_touched, find_index_page, kept_frames, leaf_loc, lemma_u32_set_room, mem_page_at, narrow,
    offer_child, route_keys, route_page, spec_contains, walk_result, walk_run, walk_start, walk_step, IndexPageView,
    KeyBounds, RecordLoc, WalkView,
};

verus! {

/// First sentinel entry of a page.
pub open spec fn first_sentinel(locs: Seq<RefnoDataLoc>) -> Option<RefnoDataLoc>
    decreases locs.len(),
{
    if locs.len() == 0 {
        None
    } else if locs[0].is_sentinel() {
        Some(locs[0])
    } else {
        first_sentinel(locs.drop_first())
    }
}

/// First entry carrying exactly `key`.
pub open spec fn leaf_hit(locs: Seq<RefnoDataLoc>, key: u64) -> Option<RefnoDataLoc>
    decreases locs.len(),
{
    if locs.len() == 0 {
        None
    } else if locs[0].key() == key {
        Some(locs[0])
    } else {
        leaf_hit(locs.drop_first(), key)
    }
}

/// An entry that does not take part in routing after `prev`: a sentinel, or a key
/// not above the last taken one.
pub open spec fn passed_over(e: RefnoDataLoc, prev: Option<RefnoDataLoc>) -> bool {
    e.is_sentinel() || (prev is Some && e.key() <= prev->0.key())
}

/// Routing scan of an inner page from entry `i`, with the last entry taken part
/// and the fallback sentinel.
pub open spec fn route_scan(
    locs: Seq<RefnoDataLoc>,
    i: int,
    key: u64,
    prev: Option<RefnoDataLoc>,
    sentinel: Option<RefnoDataLoc>,
) -> Option<RefnoDataLoc>
    decreases locs.len() - i,
{
    if i >= locs.len() || i < 0 {
        if prev is Some {
            prev
        } else {
            sentinel
        }
    } else if passed_over(locs[i], prev) {
        route_scan(locs, i + 1, key, prev, sentinel)
    } else if key < locs[i].key() {
        if prev is Some {
            prev
        } else {
            sentinel
        }
    } else if key == locs[i].key() {
        Some(locs[i])
    } else {
        route_scan(locs, i + 1, key, Some(locs[i]), sentinel)
    }
}

/// The entry an inner page routes `key` through.
pub open spec fn route(locs: Seq<RefnoDataLoc>, key: u64) -> Option<RefnoDataLoc> {
    route_scan(locs, 0, key, None, first_sentinel(locs))
}

/// Leaf entry of `key` reached from `page`.
pub open spec fn descend_from(pages: Seq<(u32, crate::defines::IndexPageData)>, page: IndexPageView, key: u64) -> Option<RefnoDataLoc>
    decreases page.level,
{
    if page.level == 0 {
        leaf_hit(page.locs, key)
    } else {
        match route(page.locs, key) {
            None => None,
            Some(e) => match mem_page_at(pages, e.pgno) {
                None => None,
                Some(child) => if child.level < page.level {
                    descend_from(pages, child, key)
                } else {
                    None
                },
            },
        }
    }
}

/// Leaf entry of `key` in the tree rooted at page `root`.
pub open spec fn point_loc_from(pages: Seq<(u32, crate::defines::IndexPageData)>, root: u32, key: u64) -> Option<RefnoDataLoc> {
    match mem_page_at(pages, root) {
        None => None,
        Some(p) => descend_from(pages, p, key),
    }
}

/// Index root of the session searched: the given one, or the latest one.
pub open spec fn search_root(io: PdmsIO, sesno: Option<u32>) -> Option<u32> {
    let pgno: Option<u32> = match sesno {
        Some(s) => if s <= i32::MAX && io.sesno_pgno_map@.contains_key(s as i32) {
            Some(io.sesno_pgno_map@[s as i32])
        } else {
            None
        },
        None => match io.header {
            Some(h) => Some(h.latest_ses_pgno),
            None => None,
        },
    };
    match pgno {
        None => None,
        Some(p) => match ses_page_at(io.session_pages@, p) {
            None => None,
            Some(sp) => Some(sp.index_root_pageno),
        },
    }
}

/// Leaf entry of `refno` in the index tree of the session searched.
pub open spec fn point_loc(io: PdmsIO, refno: u64, sesno: Option<u32>) -> Option<RefnoDataLoc> {
    match search_root(io, sesno) {
        None => None,
        Some(root) => point_loc_from(io.index_pages@, root, refno),
    }
}

fn first_sentinel_of(locs: &Vec<RefnoDataLoc>) -> (r: Option<RefnoDataLoc>)
    ensures
        r == first_sentinel(locs@),
{
    let mut i: usize = 0;
    assert(locs@.skip(0) == locs@);
    while i < locs.len()
        invariant
            i <= locs.len(),
            first_sentinel(locs@) == first_sentinel(locs@.skip(i as int)),
        decreases locs.len() - i,
    {
        assert(locs@.skip(i as int).drop_first() == locs@.skip(i + 1));
        assert(locs@.skip(i as int)[0] == locs@[i as int]);
        if locs[i].is_start_page() {
            return Some(locs[i]);
        }
        i += 1;
    }
    None
}

fn leaf_find(locs: &Vec<RefnoDataLoc>, key: u64) -> (r: Option<RefnoDataLoc>)
    ensures
        r == leaf_hit(locs@, key),
{
    let mut i: usize = 0;
    assert(locs@.skip(0) == locs@);
    while i < locs.len()
        invariant
            i <= locs.len(),
            leaf_hit(locs@, key) == leaf_hit(locs@.skip(i as int), key),
        decreases locs.len() - i,
    {
        assert(locs@.skip(i as int).drop_first() == locs@.skip(i + 1));
        assert(locs@.skip(i as int)[0] == locs@[i as int]);
        if locs[i].get_refno() == key {
            return Some(locs[i]);
        }
        i += 1;
    }
    None
}

fn route_child(locs: &Vec<RefnoDataLoc>, key: u64) -> (r: Option<RefnoDataLoc>)
    ensures
        r == route(locs@, key),
{
    broadcast use crate::order::group_key_order;

    let sentinel = first_sentinel_of(locs);
    let mut prev: Option<RefnoDataLoc> = None;
    let mut i: usize = 0;
    while i < locs.len()
        invariant
            i <= locs.len(),
            sentinel == first_sentinel(locs@),
            route(locs@, key) == route_scan(locs@, i as int, key, prev, sentinel),
        decreases locs.len() - i,
    {
        let e = locs[i];
        let k = e.get_refno();
        let out_of_order = match prev {
            Some(p) => k <= p.get_refno(),
            None => false,
        };
        if e.is_start_page() || out_of_order {
            i += 1;
        } else if key < k {
            return if prev.is_some() {
                prev
            } else {
                sentinel
            };
        } else if key == k {
            return Some(e);
        } else {
            prev = Some(e);
            i += 1;
        }
    }
    if prev.is_some() {
        prev
    } else {
        sentinel
    }
}

/// Point search from the page `root` of `pages`.
pub fn point_search(pages: &Vec<(u32, crate::defines::IndexPageData)>, root: u32, key: u64) -> (r: Option<RefnoDataLoc>)
    ensures
        r == point_loc_from(pages@, root, key),
{
    let mut page = match find_index_page(pages, root) {
        None => {
            return None;
        },
        Some(p) => p,
    };
    while page.level > 0
        invariant
            point_loc_from(pages@, root, key) == descend_from(pages@, page@, key),
        decreases page.level,
    {
        let entry = match route_child(&page.refno_locs, key) {
            None => {
                return None;
            },
            Some(e) => e,
        };
        let child = match find_index_page(pages, entry.pgno) {
            None => {
                return None;
            },
            Some(c) => c,
        };
        if child.level >= page.level {
            return None;
        }
        page = child;
    }
    leaf_find(&page.refno_locs, key)
}

impl PdmsIO {
    /// Finds the latest record of `refno` as seen by a session's index tree (the
    /// given session, or the latest one): the session whose page range holds the
    /// record's page (0 when none does) and the record's byte offset.
    pub fn search_latest_refno(&self, refno: u64, sesno: Option<u32>) -> (r: Option<(u32, u64)>)
        ensures
            r is Some <==> point_loc(*self, refno, sesno) is Some,
            r matches Some(p) ==> {
                let loc = point_loc(*self, refno, sesno)->0;
                &&& p.1 == loc.spec_att_offset()
                &&& has_session_of(self.ses_range_map@, loc.pgno) ==> exists|t: i32|
                    is_least_session_of(self.ses_range_map@, loc.pgno, t) && p.0 == t as u32
                &&& !has_session_of(self.ses_range_map@, loc.pgno) ==> p.0 == 0
            },
    {
        let ses_pgno: u32 = match sesno {
            Some(s) => {
                if s > 0x7fff_ffff {
                    return None;
                }
                match self.get_ses_pageno(s as i32) {
                    None => {
                        return None;
                    },
                    Some(p) => p,
                }
            },
            None => match self.header {
                None => {
                    return None;
                },
                Some(h) => h.latest_ses_pgno,
            },
        };
        let ses_page: SessionPageData = match self.read_ses_data(ses_pgno) {
            Err(_) => {
                return None;
            },
            Ok(p) => p,
        };
        let loc = match point_search(&self.index_pages, ses_page.index_root_pageno, refno) {
            None => {
                return None;
            },
            Some(l) => l,
        };
        let session = match self.get_sesno(loc.pgno) {
            Some(s) => s,
            None => 0,
        };
        Some((session, loc.get_att_offset()))
    }
}


/// `leaf_hit` seen from the end: the hit of the shorter page, else the last entry
/// when it carries the key.
proof fn lemma_leaf_hit_last(locs: Seq<RefnoDataLoc>, key: u64)
    requires
        locs.len() > 0,
    ensures
        leaf_hit(locs, key) == (if leaf_hit(locs.drop_last(), key) is Some {
            leaf_hit(locs.drop_last(), key)
        } else if locs.last().key() == key {
            Some(locs.last())
        } else {
            None
        }),
    decreases locs.len(),
{
    if locs.len() > 1 {
        lemma_leaf_hit_last(locs.drop_first(), key);
        assert(locs.drop_first().drop_last() =~= locs.drop_last().drop_first());
        assert(locs.drop_last()[0] == locs[0]);
        assert(locs.drop_first().last() == locs.last());
    } else {
        assert(locs.drop_first().len() == 0);
        assert(leaf_hit(locs.drop_first(), key) is None);
        assert(locs.drop_last().len() == 0);
        assert(leaf_hit(locs.drop_last(), key) is None);
        assert(locs.last() == locs[0]);
    }
}

/// On a tree that is one leaf, the diff and the point search agree: for any key but
/// the sentinel's, the diff holds the key exactly when the point search hits it, at
/// the position of that hit.
pub proof fn law_leaf_diff_matches_point_search(locs: Seq<RefnoDataLoc>, key: u64)
    requires
        key != crate::defines::spec_refno(crate::defines::SENTINEL, crate::defines::SENTINEL),
    ensures
        absorb_leaf(Map::empty(), locs, KeyBounds::unbounded()).contains_key(key) <==> leaf_hit(locs, key) is Some,
        leaf_hit(locs, key) matches Some(e) ==> absorb_leaf(Map::empty(), locs, KeyBounds::unbounded())[key] == leaf_loc(e),
    decreases locs.len(),
{
    if locs.len() > 0 {
        law_leaf_diff_matches_point_search(locs.drop_last(), key);
        lemma_leaf_hit_last(locs, key);
        let e = locs.last();
        if e.is_sentinel() {
            crate::defines::lemma_refno_pair(e.refno_0, e.refno_1, crate::defines::SENTINEL, crate::defines::SENTINEL);
        }
    }
}


/// The sentinel's reference number.
pub open spec fn sentinel_key() -> u64 {
    crate::defines::spec_refno(crate::defines::SENTINEL, crate::defines::SENTINEL)
}

/// Absorbing a leaf page keeps the old keys; a new key inside the interval is taken
/// exactly when the leaf has an entry for it, at its first such entry.
proof fn lemma_absorb_leaf_hit(m: Map<u64, RecordLoc>, locs: Seq<RefnoDataLoc>, b: KeyBounds, k: u64)
    requires
        k != sentinel_key(),
    ensures
        m.contains_key(k) ==> absorb_leaf(m, locs, b).contains_key(k) && absorb_leaf(m, locs, b)[k] == m[k],
        !m.contains_key(k) && !spec_contains(b, k) ==> !absorb_leaf(m, locs, b).contains_key(k),
        !m.contains_key(k) && spec_contains(b, k) ==> (absorb_leaf(m, locs, b).contains_key(k) <==> leaf_hit(locs, k) is Some),
        !m.contains_key(k) && spec_contains(b, k) ==> (leaf_hit(locs, k) matches Some(e) ==> absorb_leaf(m, locs, b)[k] == leaf_loc(e)),
    decreases locs.len(),
{
    if locs.len() > 0 {
        lemma_absorb_leaf_hit(m, locs.drop_last(), b, k);
        lemma_leaf_hit_last(locs, k);
        let e = locs.last();
        if e.is_sentinel() {
            crate::defines::lemma_refno_pair(e.refno_0, e.refno_1, crate::defines::SENTINEL, crate::defines::SENTINEL);
        }
    }
}

/// The kept keys of an inner page rise strictly, and every key met is at most the
/// last kept one.
proof fn lemma_route_keys_shape(locs: Seq<RefnoDataLoc>)
    ensures
        forall|i: int, j: int| 0 <= i < j < route_keys(locs).1.len() ==> route_keys(locs).1[i].0 < route_keys(locs).1[j].0,
        forall|x: u64| #[trigger] route_keys(locs).2.contains(x) ==> route_keys(locs).1.len() > 0 && x <= route_keys(locs).1.last().0,
    decreases locs.len(),
{
    if locs.len() > 0 {
        lemma_route_keys_shape(locs.drop_last());
        let (sc, kept, seen) = route_keys(locs.drop_last());
        let loc = locs.last();
        if !loc.is_sentinel() && !seen.contains(loc.key()) && !(kept.len() > 0 && loc.key() <= kept.last().0) {
            let nk = kept.push((loc.key(), loc.pgno));
            assert(route_keys(locs).1 == nk);
            assert forall|i: int, j: int| 0 <= i < j < nk.len() implies nk[i].0 < nk[j].0 by {
                if j == nk.len() - 1 && i < kept.len() - 1 {
                    assert(kept[i].0 < kept[kept.len() - 1].0);
                }
            }
        }
    }
}

/// The kept pairs of a prefix of the page are a prefix of the page's kept pairs.
proof fn lemma_kept_prefix(locs: Seq<RefnoDataLoc>, i: int)
    requires
        0 <= i <= locs.len(),
    ensures
        route_keys(locs.take(i)).1.len() <= route_keys(locs).1.len(),
        route_keys(locs).1.take(route_keys(locs.take(i)).1.len() as int) == route_keys(locs.take(i)).1,
    decreases locs.len(),
{
    if i == locs.len() {
        assert(locs.take(i) =~= locs);
        assert(route_keys(locs).1.take(route_keys(locs).1.len() as int) =~= route_keys(locs).1);
    } else {
        lemma_kept_prefix(locs.drop_last(), i);
        assert(locs.drop_last().take(i) =~= locs.take(i));
        let a = route_keys(locs.drop_last()).1;
        let b = route_keys(locs).1;
        let n = route_keys(locs.take(i)).1.len() as int;
        assert(b.take(n) =~= a.take(n));
    }
}

/// `first_sentinel` seen from the end.
proof fn lemma_first_sentinel_last(locs: Seq<RefnoDataLoc>)
    requires
        locs.len() > 0,
    ensures
        first_sentinel(locs) == (if first_sentinel(locs.drop_last()) is Some {
            first_sentinel(locs.drop_last())
        } else if locs.last().is_sentinel() {
            Some(locs.last())
        } else {
            None
        }),
    decreases locs.len(),
{
    if locs.len() > 1 {
        lemma_first_sentinel_last(locs.drop_first());
        assert(locs.drop_first().drop_last() =~= locs.drop_last().drop_first());
        assert(locs.drop_last()[0] == locs[0]);
        assert(locs.drop_first().last() == locs.last());
    } else {
        assert(locs.drop_first().len() == 0);
        assert(first_sentinel(locs.drop_first()) is None);
        assert(locs.drop_last().len() == 0);
        assert(first_sentinel(locs.drop_last()) is None);
        assert(locs.last() == locs[0]);
    }
}

/// Page number of an entry, if any.
pub open spec fn entry_pgno(e: Option<RefnoDataLoc>) -> Option<u32> {
    match e {
        Some(x) => Some(x.pgno),
        None => None,
    }
}

/// The first sentinel is the one the walk takes as the leftmost child.
proof fn lemma_first_sentinel_child(locs: Seq<RefnoDataLoc>)
    ensures
        entry_pgno(first_sentinel(locs)) == route_keys(locs).0,
    decreases locs.len(),
{
    if locs.len() > 0 {
        lemma_first_sentinel_child(locs.drop_last());
        lemma_first_sentinel_last(locs);
    }
}

/// The child that the kept pairs route `key` to: the last kept pair whose key is at
/// most `key`, else the sentinel child.
pub open spec fn route_target(kept: Seq<(u64, u32)>, key: u64, sc: Option<u32>) -> Option<u32>
    decreases kept.len(),
{
    if kept.len() == 0 {
        sc
    } else if kept.last().0 <= key {
        Some(kept.last().1)
    } else {
        route_target(kept.drop_last(), key, sc)
    }
}

/// With rising keys, the route target of `key` is the pair just before the first
/// pair above `key`.
proof fn lemma_route_target_at(kept: Seq<(u64, u32)>, key: u64, sc: Option<u32>, m: int)
    requires
        forall|i: int, j: int| 0 <= i < j < kept.len() ==> kept[i].0 < kept[j].0,
        0 <= m <= kept.len(),
        m > 0 ==> kept[m - 1].0 <= key,
        m < kept.len() ==> kept[m].0 > key,
    ensures
        route_target(kept, key, sc) == (if m > 0 {
            Some(kept[m - 1].1)
        } else {
            sc
        }),
    decreases kept.len(),
{
    if kept.len() > m {
        assert(kept.last().0 > key) by {
            if m < kept.len() - 1 {
                assert(kept[m].0 < kept[kept.len() - 1].0);
            }
        }
        lemma_route_target_at(kept.drop_last(), key, sc, m);
    }
}

/// The routing scan of a page agrees with the walk's kept pairs: from any point
/// where the scan has taken part exactly the kept pairs of the prefix, all at most
/// `key`, it ends at the route target of the whole page.
proof fn lemma_route_scan_target(locs: Seq<RefnoDataLoc>, i: int, key: u64, prev: Option<RefnoDataLoc>)
    requires
        0 <= i <= locs.len(),
        (prev is None) == (route_keys(locs.take(i)).1.len() == 0),
        prev matches Some(p) ==> (p.key(), p.pgno) == route_keys(locs.take(i)).1.last(),
        route_keys(locs.take(i)).1.len() > 0 ==> route_keys(locs.take(i)).1.last().0 <= key,
    ensures
        entry_pgno(route_scan(locs, i, key, prev, first_sentinel(locs))) == route_target(
            route_keys(locs).1,
            key,
            route_keys(locs).0,
        ),
    decreases locs.len() - i,
{
    let kept = route_keys(locs).1;
    let ki = route_keys(locs.take(i)).1;
    lemma_route_keys_shape(locs);
    lemma_first_sentinel_child(locs);
    lemma_kept_prefix(locs, i);
    assert(kept.take(ki.len() as int) == ki);
    if i == locs.len() {
        assert(locs.take(i) =~= locs);
        if ki.len() > 0 {
            lemma_route_target_at(kept, key, route_keys(locs).0, ki.len() as int);
        }
    } else {
        let e = locs[i];
        assert(locs.take(i + 1).drop_last() =~= locs.take(i));
        assert(locs.take(i + 1).last() == e);
        lemma_route_keys_shape(locs.take(i));
        let ki1 = route_keys(locs.take(i + 1)).1;
        lemma_kept_prefix(locs, i + 1);
        if passed_over(e, prev) {
            assert(ki1 == ki);
            lemma_route_scan_target(locs, i + 1, key, prev);
        } else {
            assert(!route_keys(locs.take(i)).2.contains(e.key()));
            assert(ki1 == ki.push((e.key(), e.pgno)));
            assert(kept[ki.len() as int] == ki1[ki.len() as int]);
            if key < e.key() {
                lemma_route_target_at(kept, key, route_keys(locs).0, ki.len() as int);
            } else if key == e.key() {
                lemma_route_target_at(kept, key, route_keys(locs).0, ki.len() + 1int);
            } else {
                lemma_route_scan_target(locs, i + 1, key, Some(e));
            }
        }
    }
}

/// The entry an inner page routes `key` through leads to the walk's route target.
proof fn lemma_route_is_target(locs: Seq<RefnoDataLoc>, key: u64)
    ensures
        entry_pgno(route(locs, key)) == route_target(route_keys(locs).1, key, route_keys(locs).0),
{
    assert(locs.take(0) =~= Seq::<RefnoDataLoc>::empty());
    lemma_route_scan_target(locs, 0, key, None);
}


/// A pushed frame answers for keys of its parent's interval that the page routes to
/// its child.
pub open spec fn frame_routes(locs: Seq<RefnoDataLoc>, level: u32, b: KeyBounds, fr: (u32, u32, KeyBounds)) -> bool {
    &&& fr.1 == level
    &&& forall|k: u64| #[trigger] spec_contains(fr.2, k) ==> spec_contains(b, k) && route_target(
        route_keys(locs).1,
        k,
        route_keys(locs).0,
    ) == Some(fr.0)
}

proof fn lemma_kept_frames_route(
    locs: Seq<RefnoDataLoc>,
    j: int,
    level: u32,
    b: KeyBounds,
    limit: Option<u32>,
    acc: (Seq<(u32, u32, KeyBounds)>, Set<u32>),
)
    requires
        0 <= j <= route_keys(locs).1.len(),
        forall|i: int| 0 <= i < acc.0.len() ==> #[trigger] frame_routes(locs, level, b, acc.0[i]),
    ensures
        forall|i: int|
            0 <= i < kept_frames(route_keys(locs).1, j, level, b, limit, acc).0.len() ==> #[trigger] frame_routes(
                locs,
                level,
                b,
                kept_frames(route_keys(locs).1, j, level, b, limit, acc).0[i],
            ),
    decreases j,
{
    if j > 0 {
        let kept = route_keys(locs).1;
        lemma_kept_frames_route(locs, j - 1, level, b, limit, acc);
        lemma_route_keys_shape(locs);
        let prev = kept_frames(kept, j - 1, level, b, limit, acc);
        let next = if j < kept.len() {
            Some(kept[j].0)
        } else {
            None
        };
        let cb = narrow(b, Some(kept[j - 1].0), next);
        let fr = (kept[j - 1].1, level, cb);
        assert(frame_routes(locs, level, b, fr)) by {
            assert forall|k: u64| #[trigger] spec_contains(cb, k) implies spec_contains(b, k) && route_target(
                kept,
                k,
                route_keys(locs).0,
            ) == Some(kept[j - 1].1) by {
                lemma_route_target_at(kept, k, route_keys(locs).0, j);
            }
        }
        let out = offer_child(prev, kept[j - 1].1, level, cb, limit);
        assert forall|i: int| 0 <= i < out.0.len() implies #[trigger] frame_routes(locs, level, b, out.0[i]) by {
            if i < prev.0.len() {
                assert(out.0[i] == prev.0[i]);
            }
        }
    }
}

/// Every frame an inner page pushes answers for the keys the page routes to it.
proof fn lemma_route_page_frames(locs: Seq<RefnoDataLoc>, level: u32, b: KeyBounds, limit: Option<u32>, shared: Set<u32>)
    ensures
        forall|i: int|
            0 <= i < route_page(locs, level, b, limit, shared).0.len() ==> #[trigger] frame_routes(
                locs,
                level,
                b,
                route_page(locs, level, b, limit, shared).0[i],
            ),
{
    let (sc, kept, _seen) = route_keys(locs);
    lemma_route_keys_shape(locs);
    let first = if kept.len() > 0 {
        Some(kept[0].0)
    } else {
        None
    };
    let start = match sc {
        Some(child) => offer_child((Seq::empty(), shared), child, level, narrow(b, None, first), limit),
        None => (Seq::empty(), shared),
    };
    if sc is Some {
        let cb = narrow(b, None, first);
        assert forall|k: u64| #[trigger] spec_contains(cb, k) implies spec_contains(b, k) && route_target(kept, k, sc) == sc by {
            lemma_route_target_at(kept, k, sc, 0);
        }
        assert(frame_routes(locs, level, b, (sc->0, level, cb)));
    }
    assert forall|i: int| 0 <= i < start.0.len() implies #[trigger] frame_routes(locs, level, b, start.0[i]) by {}
    lemma_kept_frames_route(locs, kept.len() as int, level, b, limit, start);
}

/// The page source of a list of pages.
pub open spec fn mem_pf(pages: Seq<(u32, crate::defines::IndexPageData)>) -> spec_fn(u32) -> Option<IndexPageView> {
    |q: u32| mem_page_at(pages, q)
}

/// The point search continued at the child `c` of a page on level `lvl`.
pub open spec fn descend_tail(pages: Seq<(u32, crate::defines::IndexPageData)>, c: u32, lvl: u32, key: u64) -> Option<RefnoDataLoc> {
    match mem_page_at(pages, c) {
        None => None,
        Some(p) => if p.level < lvl {
            descend_from(pages, p, key)
        } else {
            None
        },
    }
}

/// A walk state agrees with the point search from `root`: every pending frame
/// continues the search of the keys of its interval, and every entry collected is
/// the search's hit.
pub open spec fn walk_agrees(pages: Seq<(u32, crate::defines::IndexPageData)>, root: u32, st: WalkView) -> bool {
    &&& forall|i: int, k: u64|
        0 <= i < st.stack.len() && #[trigger] spec_contains(st.stack[i].2, k) ==> point_loc_from(pages, root, k)
            == descend_tail(pages, st.stack[i].0, st.stack[i].1, k)
    &&& forall|k: u64| #[trigger]
        st.touched.contains_key(k) ==> k != sentinel_key() && (point_loc_from(pages, root, k) matches Some(e) && leaf_loc(e)
            == st.touched[k])
}

/// Absorbing never brings in the sentinel's key.
proof fn lemma_absorb_no_sentinel(m: Map<u64, RecordLoc>, locs: Seq<RefnoDataLoc>, b: KeyBounds)
    ensures
        absorb_leaf(m, locs, b).contains_key(sentinel_key()) ==> m.contains_key(sentinel_key()),
    decreases locs.len(),
{
    if locs.len() > 0 {
        lemma_absorb_no_sentinel(m, locs.drop_last(), b);
        let e = locs.last();
        crate::defines::lemma_refno_pair(e.refno_0, e.refno_1, crate::defines::SENTINEL, crate::defines::SENTINEL);
    }
}

/// The frames an inner page pushes continue the point search of their keys.
proof fn lemma_pushed_frames_agree(
    pages: Seq<(u32, crate::defines::IndexPageData)>,
    root: u32,
    page: IndexPageView,
    b: KeyBounds,
    limit: Option<u32>,
    shared: Set<u32>,
)
    requires
        page.level > 0,
        forall|k: u64| #[trigger] spec_contains(b, k) ==> point_loc_from(pages, root, k) == descend_from(pages, page, k),
    ensures
        forall|i: int, k: u64|
            0 <= i < route_page(page.locs, page.level, b, limit, shared).0.len() && #[trigger] spec_contains(
                route_page(page.locs, page.level, b, limit, shared).0[i].2,
                k,
            ) ==> point_loc_from(pages, root, k) == descend_tail(
                pages,
                route_page(page.locs, page.level, b, limit, shared).0[i].0,
                route_page(page.locs, page.level, b, limit, shared).0[i].1,
                k,
            ),
{
    let fr = route_page(page.locs, page.level, b, limit, shared).0;
    lemma_route_page_frames(page.locs, page.level, b, limit, shared);
    assert forall|i: int, k: u64| 0 <= i < fr.len() && #[trigger] spec_contains(fr[i].2, k) implies point_loc_from(pages, root, k)
        == descend_tail(pages, fr[i].0, fr[i].1, k) by {
        assert(frame_routes(page.locs, page.level, b, fr[i]));
        lemma_route_is_target(page.locs, k);
    }
}

#[verifier::spinoff_prover]
proof fn lemma_walk_step_agrees(pages: Seq<(u32, crate::defines::IndexPageData)>, root: u32, st: WalkView, limit: Option<u32>)
    requires
        walk_agrees(pages, root, st),
        st.stack.len() > 0,
    ensures
        walk_agrees(pages, root, walk_step(mem_pf(pages), st, limit)),
{
    let pf = mem_pf(pages);
    let f = st.stack.last();
    let rest = st.stack.drop_last();
    let nx = walk_step(pf, st, limit);
    assert forall|i: int, k: u64| 0 <= i < rest.len() && #[trigger] spec_contains(rest[i].2, k) implies point_loc_from(pages, root, k)
        == descend_tail(pages, rest[i].0, rest[i].1, k) by {
        assert(rest[i] == st.stack[i]);
    }
    assert forall|k: u64| spec_contains(f.2, k) implies point_loc_from(pages, root, k) == descend_tail(pages, f.0, f.1, k) by {
        assert(spec_contains(st.stack[st.stack.len() - 1].2, k));
    }
    if !st.visited.contains(f.0) {
        if let Some(page) = pf(f.0) {
            if page.level < f.1 {
                assert forall|k: u64| #[trigger] spec_contains(f.2, k) implies point_loc_from(pages, root, k) == descend_from(pages, page, k) by {
                    assert(spec_contains(f.2, k));
                }
                if page.level == 0 {
                    lemma_absorb_no_sentinel(st.touched, page.locs, f.2);
                    assert forall|k: u64| #[trigger] nx.touched.contains_key(k) implies k != sentinel_key() && (point_loc_from(pages, root, k) matches Some(e)
                        && leaf_loc(e) == nx.touched[k]) by {
                        if k != sentinel_key() {
                            lemma_absorb_leaf_hit(st.touched, page.locs, f.2, k);
                        }
                    }
                    assert(nx.stack == rest);
                } else {
                    lemma_pushed_frames_agree(pages, root, page, f.2, limit, st.shared);
                    let fr = route_page(page.locs, page.level, f.2, limit, st.shared).0;
                    assert(nx.stack == rest + fr);
                    assert forall|i: int, k: u64| 0 <= i < nx.stack.len() && #[trigger] spec_contains(nx.stack[i].2, k) implies point_loc_from(
                        pages,
                        root,
                        k,
                    ) == descend_tail(pages, nx.stack[i].0, nx.stack[i].1, k) by {
                        if i < rest.len() {
                            assert(nx.stack[i] == rest[i]);
                            assert(spec_contains(rest[i].2, k));
                        } else {
                            assert(nx.stack[i] == fr[i - rest.len()]);
                            assert(spec_contains(fr[i - rest.len()].2, k));
                        }
                    }
                }
            }
        }
    }
}

proof fn lemma_walk_run_agrees(pages: Seq<(u32, crate::defines::IndexPageData)>, root: u32, st: WalkView, limit: Option<u32>)
    requires
        walk_agrees(pages, root, st),
        st.visited.finite(),
        st.visited.len() <= 0x1_0000_0000,
    ensures
        walk_agrees(pages, root, walk_run(mem_pf(pages), st, limit)),
    decreases 0x1_0000_0000 - st.visited.len(), st.stack.len(),
{
    if st.stack.len() > 0 {
        if !st.visited.contains(st.stack.last().0) {
            lemma_u32_set_room(st.visited, st.stack.last().0);
        }
        lemma_walk_step_agrees(pages, root, st, limit);
        lemma_walk_run_agrees(pages, root, walk_step(mem_pf(pages), st, limit), limit);
    }
}

proof fn lemma_walk_start_agrees(pages: Seq<(u32, crate::defines::IndexPageData)>, root: u32, limit: Option<u32>, shared: Set<u32>)
    ensures
        walk_start(mem_pf(pages), root, limit, shared) matches Some(st) ==> walk_agrees(pages, root, st),
{
    let pf = mem_pf(pages);
    if let Some(page) = pf(root) {
        let st = walk_start(pf, root, limit, shared)->0;
        let ub = KeyBounds::unbounded();
        assert forall|k: u64| #[trigger] spec_contains(ub, k) implies point_loc_from(pages, root, k) == descend_from(pages, page, k) by {}
        if page.level == u32::MAX {
        } else if page.level == 0 {
            lemma_absorb_no_sentinel(Map::empty(), page.locs, ub);
            assert forall|k: u64| #[trigger] st.touched.contains_key(k) implies k != sentinel_key() && (point_loc_from(pages, root, k) matches Some(e)
                && leaf_loc(e) == st.touched[k]) by {
                if k != sentinel_key() {
                    lemma_absorb_leaf_hit(Map::empty(), page.locs, ub, k);
                }
            }
        } else {
            lemma_pushed_frames_agree(pages, root, page, ub, limit, shared);
        }
    }
}

/// Every leaf entry a walk of the tree at `root` collects is the point search's hit
/// for its key, at the same record: a walk, pruned or not, never reports a key the
/// point search does not reach, nor another record for it.
pub proof fn law_walk_entries_are_point_hits(
    pages: Seq<(u32, crate::defines::IndexPageData)>,
    root: u32,
    limit: Option<u32>,
    shared: Set<u32>,
    key: u64,
)
    ensures
        walk_result(mem_pf(pages), root, limit, shared) matches Some(w) ==> (w.touched.contains_key(key) ==> (point_loc_from(
            pages,
            root,
            key,
        ) matches Some(e) && leaf_loc(e) == w.touched[key])),
{
    lemma_walk_start_agrees(pages, root, limit, shared);
    if let Some(st) = walk_start(mem_pf(pages), root, limit, shared) {
        lemma_walk_run_agrees(pages, root, st, limit);
    }
}

/// Every entry of a two-root diff is a point-search hit: each target entry (added
/// or modified) is the target tree's hit for its key, and each base entry (deleted,
/// or the old side of a modification) the base tree's hit, at the same record.
pub proof fn law_diff_entries_are_point_hits(
    pages: Seq<(u32, crate::defines::IndexPageData)>,
    base_root: Option<u32>,
    base_end_pgno: u32,
    target_root: u32,
    key: u64,
)
    requires
        mem_page_at(pages, target_root) is Some,
        base_root matches Some(b) ==> mem_page_at(pages, b) is Some,
    ensures
        ({
            let t = diff_touched(mem_pf(pages), base_root, base_end_pgno, target_root).1;
            t.contains_key(key) ==> (point_loc_from(pages, target_root, key) matches Some(e) && leaf_loc(e) == t[key])
        }),
        ({
            let b = diff_touched(mem_pf(pages), base_root, base_end_pgno, target_root).0;
            base_root matches Some(br) ==> (b.contains_key(key) ==> (point_loc_from(pages, br, key) matches Some(e) && leaf_loc(e)
                == b[key]))
        }),
{
    let pf = mem_pf(pages);
    assert(pf(target_root) is Some);
    law_walk_entries_are_point_hits(pages, target_root, Some(base_end_pgno), Set::empty(), key);
    let tw = walk_result(pf, target_root, Some(base_end_pgno), Set::empty())->0;
    if let Some(br) = base_root {
        assert(pf(br) is Some);
        law_walk_entries_are_point_hits(pages, br, None, tw.shared, key);
    }
}


/// The children an inner page routes to: the first sentinel's child, then the kept
/// children in key order.
pub open spec fn routed_children(locs: Seq<RefnoDataLoc>) -> Seq<u32> {
    let (sc, kept, _seen) = route_keys(locs);
    (match sc {
        Some(c) => seq![c],
        None => Seq::empty(),
    }) + kept.map_values(|p: (u64, u32)| p.1)
}

/// The interval the kept child `m` answers for within `b`.
pub open spec fn kept_bounds(kept: Seq<(u64, u32)>, m: int, b: KeyBounds) -> KeyBounds {
    narrow(b, Some(kept[m].0), if m + 1 < kept.len() {
        Some(kept[m + 1].0)
    } else {
        None
    })
}

/// Every page of `cs` lies above the pruning limit, if there is one.
pub open spec fn above_limit(cs: Seq<u32>, limit: Option<u32>) -> bool {
    forall|i: int| 0 <= i < cs.len() ==> (limit matches Some(e) ==> #[trigger] cs[i] > e)
}

/// No page number occurs twice.
pub open spec fn distinct_pages(s: Seq<u32>) -> bool {
    forall|i: int, j: int| 0 <= i < j < s.len() ==> s[i] != s[j]
}

/// The pages of the frames are pairwise different.
pub open spec fn distinct_frames(fr: Seq<(u32, u32, KeyBounds)>) -> bool {
    forall|i: int, j: int| 0 <= i < j < fr.len() ==> fr[i].0 != fr[j].0
}

/// Without pruning, the kept children offered so far are pushed as distinct frames
/// among the routed children, and every key the page routes to one of them within
/// the parent's interval lies in its frame.
proof fn lemma_kept_frames_complete(
    locs: Seq<RefnoDataLoc>,
    j: int,
    level: u32,
    b: KeyBounds,
    limit: Option<u32>,
    acc: (Seq<(u32, u32, KeyBounds)>, Set<u32>),
)
    requires
        0 <= j <= route_keys(locs).1.len(),
        acc.1 == Set::<u32>::empty(),
        distinct_pages(routed_children(locs)),
        above_limit(routed_children(locs), limit),
        distinct_frames(acc.0),
        forall|i: int| 0 <= i < acc.0.len() ==> route_keys(locs).0 == Some(#[trigger] acc.0[i].0),
    ensures
        ({
            let out = kept_frames(route_keys(locs).1, j, level, b, limit, acc);
            &&& out.1 == Set::<u32>::empty()
            &&& distinct_frames(out.0)
            &&& acc.0.len() <= out.0.len()
            &&& forall|i: int| 0 <= i < acc.0.len() ==> out.0[i] == acc.0[i]
            &&& forall|i: int| 0 <= i < out.0.len() ==> route_keys(locs).0 == Some(#[trigger] out.0[i].0) || exists|m: int|
                0 <= m < j && route_keys(locs).1[m].1 == out.0[i].0
            &&& forall|m: int, k: u64| 0 <= m < j && #[trigger] spec_contains(kept_bounds(route_keys(locs).1, m, b), k) ==> exists|i: int| 0 <= i < out.0.len() && out.0[i].0 == route_keys(locs).1[m].1 && spec_contains(out.0[i].2, k)
        }),
    decreases j,
{
    let (sc, kept, _seen) = route_keys(locs);
    let rc = routed_children(locs);
    let off: int = if sc is Some {
        1
    } else {
        0
    };
    assert forall|m: int| 0 <= m < kept.len() implies rc[off + m] == (#[trigger] kept[m]).1 by {}
    if j > 0 {
        lemma_kept_frames_complete(locs, j - 1, level, b, limit, acc);
        let prev = kept_frames(kept, j - 1, level, b, limit, acc);
        let next = if j < kept.len() {
            Some(kept[j].0)
        } else {
            None
        };
        let cb = narrow(b, Some(kept[j - 1].0), next);
        let out = kept_frames(kept, j, level, b, limit, acc);
        assert(out == offer_child(prev, kept[j - 1].1, level, cb, limit));
        assert(rc[off + j - 1] == kept[j - 1].1);
        if !crate::session_index_diff::bounds_empty(cb) {
            assert(out.0 == prev.0.push((kept[j - 1].1, level, cb)));
            assert forall|i: int| 0 <= i < prev.0.len() implies prev.0[i].0 != kept[j - 1].1 by {
                if sc == Some(prev.0[i].0) {
                    assert(rc[0] == prev.0[i].0);
                    assert(rc[off + j - 1] == kept[j - 1].1);
                } else {
                    let m = choose|m: int| 0 <= m < j - 1 && kept[m].1 == prev.0[i].0;
                    assert(rc[off + m] == kept[m].1);
                    assert(rc[off + j - 1] == kept[j - 1].1);
                }
            }
            assert forall|m: int, k: u64| 0 <= m < j && #[trigger] spec_contains(kept_bounds(kept, m, b), k) implies exists|i: int| 0 <= i < out.0.len() && out.0[i].0 == kept[m].1 && spec_contains(out.0[i].2, k) by {
                if m == j - 1 {
                    assert(out.0[prev.0.len() as int].0 == kept[m].1);
                } else {
                    let i = choose|i: int| 0 <= i < prev.0.len() && prev.0[i].0 == kept[m].1 && spec_contains(prev.0[i].2, k);
                    assert(out.0[i] == prev.0[i]);
                }
            }
            assert forall|i: int| 0 <= i < out.0.len() implies route_keys(locs).0 == Some(#[trigger] out.0[i].0) || exists|m: int|
                0 <= m < j && kept[m].1 == out.0[i].0 by {
                if i < prev.0.len() {
                    assert(out.0[i] == prev.0[i]);
                } else {
                    assert(kept[j - 1].1 == out.0[i].0);
                }
            }
        } else {
            assert forall|m: int, k: u64| 0 <= m < j && #[trigger] spec_contains(kept_bounds(kept, m, b), k) implies exists|i: int| 0 <= i < out.0.len() && out.0[i].0 == kept[m].1 && spec_contains(out.0[i].2, k) by {
                if m == j - 1 {
                    assert(!crate::session_index_diff::bounds_empty(cb));
                }
            }
        }
    }
}


/// The route target is the child of the last kept key at most `key`, or the
/// sentinel child when no kept key is at most `key`.
proof fn lemma_route_target_cases(kept: Seq<(u64, u32)>, key: u64, sc: Option<u32>)
    requires
        forall|i: int, j: int| 0 <= i < j < kept.len() ==> kept[i].0 < kept[j].0,
    ensures
        route_target(kept, key, sc) == sc && (kept.len() == 0 || kept[0].0 > key) || exists|m: int|
            0 <= m < kept.len() && kept[m].0 <= key && (m + 1 < kept.len() ==> kept[m + 1].0 > key)
                && route_target(kept, key, sc) == Some(kept[m].1),
    decreases kept.len(),
{
    if kept.len() > 0 {
        if kept.last().0 <= key {
            let m = kept.len() - 1;
            assert(kept[m].0 <= key);
        } else {
            lemma_route_target_cases(kept.drop_last(), key, sc);
            if exists|m: int|
                0 <= m < kept.drop_last().len() && kept.drop_last()[m].0 <= key && (m + 1 < kept.drop_last().len()
                    ==> kept.drop_last()[m + 1].0 > key) && route_target(kept.drop_last(), key, sc) == Some(kept.drop_last()[m].1) {
                let m = choose|m: int|
                    0 <= m < kept.drop_last().len() && kept.drop_last()[m].0 <= key && (m + 1 < kept.drop_last().len()
                        ==> kept.drop_last()[m + 1].0 > key) && route_target(kept.drop_last(), key, sc) == Some(kept.drop_last()[m].1);
                assert(kept[m] == kept.drop_last()[m]);
                if m + 1 < kept.len() {
                    if m + 1 == kept.len() - 1 {
                        assert(kept[m + 1].0 > key);
                    } else {
                        assert(kept[m + 1] == kept.drop_last()[m + 1]);
                    }
                }
            } else {
                if kept.len() > 1 {
                    assert(kept[0] == kept.drop_last()[0]);
                }
            }
        }
    }
}

/// Without pruning, an inner page pushes distinct frames of routed children, and
/// every key of the interval that the page routes somewhere lies in the frame of
/// that child.
proof fn lemma_route_page_complete(locs: Seq<RefnoDataLoc>, level: u32, b: KeyBounds, limit: Option<u32>)
    requires
        distinct_pages(routed_children(locs)),
        above_limit(routed_children(locs), limit),
    ensures
        route_page(locs, level, b, limit, Set::empty()).1 == Set::<u32>::empty(),
        distinct_frames(route_page(locs, level, b, limit, Set::empty()).0),
        forall|i: int|
            0 <= i < route_page(locs, level, b, limit, Set::empty()).0.len() ==> routed_children(locs).contains(
                #[trigger] route_page(locs, level, b, limit, Set::empty()).0[i].0,
            ),
        forall|k: u64| #[trigger]
            spec_contains(b, k) && route_target(route_keys(locs).1, k, route_keys(locs).0) is Some ==> exists|i: int|
                0 <= i < route_page(locs, level, b, limit, Set::empty()).0.len() && route_page(locs, level, b, limit, Set::empty()).0[i].0
                    == route_target(route_keys(locs).1, k, route_keys(locs).0)->0 && spec_contains(
                    route_page(locs, level, b, limit, Set::empty()).0[i].2,
                    k,
                ),
{
    let (sc, kept, _seen) = route_keys(locs);
    lemma_route_keys_shape(locs);
    let rc = routed_children(locs);
    let off: int = if sc is Some {
        1
    } else {
        0
    };
    assert forall|m: int| 0 <= m < kept.len() implies rc[off + m] == (#[trigger] kept[m]).1 by {}
    let first = if kept.len() > 0 {
        Some(kept[0].0)
    } else {
        None
    };
    let e: (Seq<(u32, u32, KeyBounds)>, Set<u32>) = (Seq::empty(), Set::empty());
    let start = match sc {
        Some(child) => offer_child(e, child, level, narrow(b, None, first), limit),
        None => e,
    };
    if sc is Some {
        assert(rc[0] == sc->0);
    }
    assert forall|i: int| 0 <= i < start.0.len() implies sc == Some(#[trigger] start.0[i].0) by {}
    lemma_kept_frames_complete(locs, kept.len() as int, level, b, limit, start);
    let out = route_page(locs, level, b, limit, Set::empty());
    assert(out == kept_frames(kept, kept.len() as int, level, b, limit, start));
    assert forall|i: int| 0 <= i < out.0.len() implies rc.contains(#[trigger] out.0[i].0) by {
        if sc == Some(out.0[i].0) {
            assert(rc[0] == out.0[i].0);
        } else {
            let m = choose|m: int| 0 <= m < kept.len() && kept[m].1 == out.0[i].0;
            assert(rc[off + m] == out.0[i].0);
        }
    }
    assert forall|k: u64| #[trigger] spec_contains(b, k) && route_target(kept, k, sc) is Some implies exists|i: int|
        0 <= i < out.0.len() && out.0[i].0 == route_target(kept, k, sc)->0 && spec_contains(out.0[i].2, k) by {
        lemma_route_target_cases(kept, k, sc);
        if exists|m: int|
            0 <= m < kept.len() && kept[m].0 <= k && (m + 1 < kept.len() ==> kept[m + 1].0 > k) && route_target(kept, k, sc)
                == Some(kept[m].1) {
            let m = choose|m: int|
                0 <= m < kept.len() && kept[m].0 <= k && (m + 1 < kept.len() ==> kept[m + 1].0 > k) && route_target(kept, k, sc)
                    == Some(kept[m].1);
            assert(spec_contains(kept_bounds(kept, m, b), k));
        } else {
            assert(spec_contains(narrow(b, None, first), k));
            assert(start.0.len() == 1 && start.0[0].0 == sc->0 && start.0[0].2 == narrow(b, None, first));
            assert(out.0[0] == start.0[0]);
        }
    }
}


/// The children the walk may push for page `p`: the routed children of an inner
/// page; a leaf or a missing page has none.
pub open spec fn page_children(pages: Seq<(u32, crate::defines::IndexPageData)>, p: u32) -> Seq<u32> {
    match mem_page_at(pages, p) {
        Some(pg) => if pg.level > 0 {
            routed_children(pg.locs)
        } else {
            Seq::empty()
        },
        None => Seq::empty(),
    }
}

/// `path` runs from `root` down through routed children.
pub open spec fn reach_path(pages: Seq<(u32, crate::defines::IndexPageData)>, root: u32, path: Seq<u32>) -> bool {
    &&& path.len() > 0
    &&& path[0] == root
    &&& forall|i: int| 0 <= i < path.len() - 1 ==> #[trigger] page_children(pages, path[i]).contains(path[i + 1])
}

/// Page `v` can be reached from `root` through routed children.
pub open spec fn reach(pages: Seq<(u32, crate::defines::IndexPageData)>, root: u32, v: u32) -> bool {
    exists|path: Seq<u32>| #[trigger] reach_path(pages, root, path) && path.last() == v
}

/// The pages reachable from `root` form a tree: a page is routed to from one place
/// only, and never back to the root.
pub open spec fn tree_shaped(pages: Seq<(u32, crate::defines::IndexPageData)>, root: u32) -> bool {
    &&& forall|p: u32, q: u32, i: int, j: int|
        #![trigger page_children(pages, p)[i], page_children(pages, q)[j]]
        reach(pages, root, p) && reach(pages, root, q) && 0 <= i < page_children(pages, p).len() && 0 <= j < page_children(
            pages,
            q,
        ).len() && page_children(pages, p)[i] == page_children(pages, q)[j] ==> p == q && i == j
    &&& forall|p: u32, i: int|
        reach(pages, root, p) && 0 <= i < page_children(pages, p).len() ==> #[trigger] page_children(pages, p)[i] != root
}

proof fn lemma_reach_root(pages: Seq<(u32, crate::defines::IndexPageData)>, root: u32)
    ensures
        reach(pages, root, root),
{
    let path = seq![root];
    assert(reach_path(pages, root, path));
}

proof fn lemma_reach_child(pages: Seq<(u32, crate::defines::IndexPageData)>, root: u32, p: u32, c: u32)
    requires
        reach(pages, root, p),
        page_children(pages, p).contains(c),
    ensures
        reach(pages, root, c),
{
    let path = choose|path: Seq<u32>| #[trigger] reach_path(pages, root, path) && path.last() == p;
    let np = path.push(c);
    assert forall|i: int| 0 <= i < np.len() - 1 implies #[trigger] page_children(pages, np[i]).contains(np[i + 1]) by {
        if i < path.len() - 1 {
            assert(np[i] == path[i] && np[i + 1] == path[i + 1]);
        } else {
            assert(np[i] == p && np[i + 1] == c);
        }
    }
    assert(reach_path(pages, root, np));
}

/// In a tree-shaped page set a page has one parent.
proof fn lemma_one_parent(pages: Seq<(u32, crate::defines::IndexPageData)>, root: u32, p: u32, q: u32, x: u32)
    requires
        tree_shaped(pages, root),
        reach(pages, root, p),
        reach(pages, root, q),
        page_children(pages, p).contains(x),
        page_children(pages, q).contains(x),
    ensures
        p == q,
        x != root,
{
    let i = choose|i: int| 0 <= i < page_children(pages, p).len() && page_children(pages, p)[i] == x;
    let j = choose|j: int| 0 <= j < page_children(pages, q).len() && page_children(pages, q)[j] == x;
    assert(page_children(pages, p)[i] == page_children(pages, q)[j]);
}

proof fn lemma_children_distinct(pages: Seq<(u32, crate::defines::IndexPageData)>, root: u32, p: u32)
    requires
        tree_shaped(pages, root),
        reach(pages, root, p),
    ensures
        distinct_pages(page_children(pages, p)),
{
    assert forall|i: int, j: int| 0 <= i < j < page_children(pages, p).len() implies page_children(pages, p)[i]
        != page_children(pages, p)[j] by {
        if page_children(pages, p)[i] == page_children(pages, p)[j] {
            assert(i == j);
        }
    }
}

/// Every routed child of a page reachable from `root` lies above the pruning
/// limit, so that the walk prunes nothing.
pub open spec fn limit_below(pages: Seq<(u32, crate::defines::IndexPageData)>, root: u32, limit: Option<u32>) -> bool {
    forall|p: u32, i: int|
        reach(pages, root, p) && 0 <= i < page_children(pages, p).len() ==> (limit matches Some(e) ==> #[trigger] page_children(
            pages,
            p,
        )[i] > e)
}

/// `v` is a routed child of a visited page.
pub open spec fn parented(pages: Seq<(u32, crate::defines::IndexPageData)>, visited: Set<u32>, v: u32) -> bool {
    exists|p: u32| #[trigger] visited.contains(p) && page_children(pages, p).contains(v)
}

/// What a walk without pruning keeps toward finding the point search's hit for
/// `key`: the visited and pending pages are reachable and each has a visited parent
/// (the root aside); pending pages are unvisited and distinct; and the hit is
/// collected already or lies in a pending frame.
pub open spec fn walk_covers(pages: Seq<(u32, crate::defines::IndexPageData)>, root: u32, key: u64, st: WalkView) -> bool {
    &&& st.shared == Set::<u32>::empty()
    &&& st.visited.contains(root)
    &&& forall|v: u32| #[trigger] st.visited.contains(v) ==> reach(pages, root, v) && (v != root ==> parented(pages, st.visited, v))
    &&& forall|i: int|
        0 <= i < st.stack.len() ==> reach(pages, root, #[trigger] st.stack[i].0) && !st.visited.contains(st.stack[i].0)
            && parented(pages, st.visited, st.stack[i].0)
    &&& distinct_frames(st.stack)
    &&& point_loc_from(pages, root, key) matches Some(e) ==> (st.touched.contains_key(key) && st.touched[key] == leaf_loc(e))
        || exists|i: int| 0 <= i < st.stack.len() && #[trigger] spec_contains(st.stack[i].2, key)
}


/// A visited page's parent stays visited as the visited set grows.
proof fn lemma_parented_grows(pages: Seq<(u32, crate::defines::IndexPageData)>, visited: Set<u32>, x: u32, v: u32)
    requires
        parented(pages, visited, v),
    ensures
        parented(pages, visited.insert(x), v),
{
    let p = choose|p: u32| #[trigger] visited.contains(p) && page_children(pages, p).contains(v);
    assert(visited.insert(x).contains(p));
}

#[verifier::spinoff_prover]
#[verifier::rlimit(40)]
proof fn lemma_walk_step_covers(
    pages: Seq<(u32, crate::defines::IndexPageData)>,
    root: u32,
    key: u64,
    st: WalkView,
    limit: Option<u32>,
)
    requires
        tree_shaped(pages, root),
        limit_below(pages, root, limit),
        key != sentinel_key(),
        walk_agrees(pages, root, st),
        walk_covers(pages, root, key, st),
        st.stack.len() > 0,
    ensures
        walk_covers(pages, root, key, walk_step(mem_pf(pages), st, limit)),
{
    let pf = mem_pf(pages);
    let n = st.stack.len();
    let f = st.stack.last();
    let rest = st.stack.drop_last();
    let nx = walk_step(pf, st, limit);
    let vis = st.visited.insert(f.0);
    assert(st.stack[n - 1] == f);
    assert(!st.visited.contains(f.0));
    assert(reach(pages, root, f.0));
    assert(parented(pages, st.visited, f.0));
    assert(nx.visited == vis);
    // the visited part
    assert forall|v: u32| #[trigger] vis.contains(v) implies reach(pages, root, v) && (v != root ==> parented(pages, vis, v)) by {
        if v == f.0 {
            lemma_parented_grows(pages, st.visited, f.0, v);
        } else {
            assert(st.visited.contains(v));
            if v != root {
                lemma_parented_grows(pages, st.visited, f.0, v);
            }
        }
    }
    // the frames left pending
    assert forall|i: int| 0 <= i < rest.len() implies reach(pages, root, #[trigger] rest[i].0) && !vis.contains(rest[i].0)
        && parented(pages, vis, rest[i].0) by {
        assert(rest[i] == st.stack[i]);
        assert(st.stack[i].0 != st.stack[n - 1].0);
        lemma_parented_grows(pages, st.visited, f.0, rest[i].0);
    }
    assert(distinct_frames(rest)) by {
        assert forall|i: int, j: int| 0 <= i < j < rest.len() implies rest[i].0 != rest[j].0 by {
            assert(rest[i] == st.stack[i] && rest[j] == st.stack[j]);
        }
    }
    // where the hit was pending in `f`
    let in_f = point_loc_from(pages, root, key) is Some && !(st.touched.contains_key(key)
        && st.touched[key] == leaf_loc(point_loc_from(pages, root, key)->0)) && !exists|i: int|
        0 <= i < rest.len() && #[trigger] spec_contains(rest[i].2, key);
    if point_loc_from(pages, root, key) is Some && !(st.touched.contains_key(key) && st.touched[key] == leaf_loc(
        point_loc_from(pages, root, key)->0,
    )) {
        let i = choose|i: int| 0 <= i < st.stack.len() && #[trigger] spec_contains(st.stack[i].2, key);
        if i < n - 1 {
            assert(rest[i] == st.stack[i]);
            assert(spec_contains(rest[i].2, key));
        }
    }
    if in_f {
        assert(spec_contains(f.2, key)) by {
            let i = choose|i: int| 0 <= i < st.stack.len() && #[trigger] spec_contains(st.stack[i].2, key);
            if i < n - 1 {
                assert(rest[i] == st.stack[i]);
                assert(spec_contains(rest[i].2, key));
            }
        }
        assert(spec_contains(st.stack[n - 1].2, key));
        assert(point_loc_from(pages, root, key) == descend_tail(pages, f.0, f.1, key));
    }
    match pf(f.0) {
        None => {
            assert(nx.stack == rest);
            assert(nx.touched == st.touched);
        },
        Some(page) => {
            if page.level >= f.1 {
                assert(nx.stack == rest);
                assert(nx.touched == st.touched);
            } else if page.level == 0 {
                assert(nx.stack == rest);
                if in_f {
                    lemma_absorb_leaf_hit(st.touched, page.locs, f.2, key);
                    assert(descend_from(pages, page, key) == leaf_hit(page.locs, key));
                } else if point_loc_from(pages, root, key) is Some && st.touched.contains_key(key) {
                    lemma_absorb_leaf_hit(st.touched, page.locs, f.2, key);
                }
            } else {
                let fr = route_page(page.locs, page.level, f.2, limit, st.shared).0;
                assert(page_children(pages, f.0) == routed_children(page.locs));
                lemma_children_distinct(pages, root, f.0);
                assert(above_limit(routed_children(page.locs), limit)) by {
                    assert forall|i: int| 0 <= i < routed_children(page.locs).len() implies (limit matches Some(e) ==> #[trigger] routed_children(
                        page.locs,
                    )[i] > e) by {
                        assert(page_children(pages, f.0)[i] == routed_children(page.locs)[i]);
                    }
                }
                lemma_route_page_complete(page.locs, page.level, f.2, limit);
                assert(nx.stack == rest + fr);
                assert(nx.touched == st.touched);
                assert forall|i: int| 0 <= i < nx.stack.len() implies reach(pages, root, #[trigger] nx.stack[i].0) && !vis.contains(nx.stack[i].0)
                    && parented(pages, vis, nx.stack[i].0) by {
                    if i < rest.len() {
                        assert(nx.stack[i] == rest[i]);
                    } else {
                        let c = fr[i - rest.len()].0;
                        assert(nx.stack[i] == fr[i - rest.len()]);
                        assert(routed_children(page.locs).contains(c));
                        lemma_reach_child(pages, root, f.0, c);
                        assert(vis.contains(f.0) && page_children(pages, f.0).contains(c));
                        if vis.contains(c) {
                            if c == f.0 {
                                let q = choose|q: u32| #[trigger] st.visited.contains(q) && page_children(pages, q).contains(f.0);
                                lemma_one_parent(pages, root, q, f.0, f.0);
                            } else if c == root {
                                lemma_one_parent(pages, root, f.0, f.0, c);
                            } else {
                                assert(st.visited.contains(c));
                                let q = choose|q: u32| #[trigger] st.visited.contains(q) && page_children(pages, q).contains(c);
                                lemma_one_parent(pages, root, q, f.0, c);
                            }
                        }
                    }
                }
                assert forall|i: int, j: int| 0 <= i < j < nx.stack.len() implies nx.stack[i].0 != nx.stack[j].0 by {
                    if j < rest.len() {
                        assert(nx.stack[i] == rest[i] && nx.stack[j] == rest[j]);
                    } else if i >= rest.len() {
                        assert(nx.stack[i] == fr[i - rest.len()] && nx.stack[j] == fr[j - rest.len()]);
                    } else {
                        assert(nx.stack[i] == rest[i] && nx.stack[j] == fr[j - rest.len()]);
                        let c = fr[j - rest.len()].0;
                        assert(routed_children(page.locs).contains(c));
                        if rest[i].0 == c {
                            let q = choose|q: u32| #[trigger] st.visited.contains(q) && page_children(pages, q).contains(rest[i].0);
                            lemma_one_parent(pages, root, q, f.0, c);
                        }
                    }
                }
                assert(distinct_frames(nx.stack));
                if in_f {
                    lemma_route_is_target(page.locs, key);
                    let i = choose|i: int|
                        0 <= i < fr.len() && fr[i].0 == route_target(route_keys(page.locs).1, key, route_keys(page.locs).0)->0
                            && spec_contains(fr[i].2, key);
                    assert(nx.stack[rest.len() + i] == fr[i]);
                    assert(spec_contains(nx.stack[rest.len() + i].2, key));
                } else if !(point_loc_from(pages, root, key) is Some && st.touched.contains_key(key)) && point_loc_from(pages, root, key) is Some {
                    let i = choose|i: int| 0 <= i < rest.len() && #[trigger] spec_contains(rest[i].2, key);
                    assert(nx.stack[i] == rest[i]);
                }
            }
        },
    }
}


proof fn lemma_walk_run_covers(
    pages: Seq<(u32, crate::defines::IndexPageData)>,
    root: u32,
    key: u64,
    st: WalkView,
    limit: Option<u32>,
)
    requires
        tree_shaped(pages, root),
        limit_below(pages, root, limit),
        key != sentinel_key(),
        walk_agrees(pages, root, st),
        walk_covers(pages, root, key, st),
        st.visited.finite(),
        st.visited.len() <= 0x1_0000_0000,
    ensures
        walk_covers(pages, root, key, walk_run(mem_pf(pages), st, limit)),
        walk_run(mem_pf(pages), st, limit).stack.len() == 0,
    decreases 0x1_0000_0000 - st.visited.len(), st.stack.len(),
{
    if st.stack.len() > 0 {
        if !st.visited.contains(st.stack.last().0) {
            lemma_u32_set_room(st.visited, st.stack.last().0);
        }
        lemma_walk_step_agrees(pages, root, st, limit);
        lemma_walk_step_covers(pages, root, key, st, limit);
        lemma_walk_run_covers(pages, root, key, walk_step(mem_pf(pages), st, limit), limit);
    }
}

proof fn lemma_walk_start_covers(pages: Seq<(u32, crate::defines::IndexPageData)>, root: u32, key: u64, limit: Option<u32>)
    requires
        tree_shaped(pages, root),
        limit_below(pages, root, limit),
        key != sentinel_key(),
        mem_page_at(pages, root) matches Some(p) ==> p.level < u32::MAX,
    ensures
        walk_start(mem_pf(pages), root, limit, Set::empty()) matches Some(st) ==> walk_covers(pages, root, key, st),
{
    let pf = mem_pf(pages);
    if let Some(page) = pf(root) {
        let st = walk_start(pf, root, limit, Set::empty())->0;
        let ub = KeyBounds::unbounded();
        lemma_reach_root(pages, root);
        assert(st.visited =~= set![root]);
        assert forall|v: u32| #[trigger] st.visited.contains(v) implies reach(pages, root, v) && (v != root ==> parented(pages, st.visited, v)) by {
            assert(v == root);
        }
        if page.level == 0 {
            assert(st.stack.len() == 0);
            lemma_absorb_leaf_hit(Map::empty(), page.locs, ub, key);
        } else {
            let fr = route_page(page.locs, page.level, ub, limit, Set::empty()).0;
            assert(page_children(pages, root) == routed_children(page.locs));
            lemma_children_distinct(pages, root, root);
            assert(above_limit(routed_children(page.locs), limit)) by {
                assert forall|i: int| 0 <= i < routed_children(page.locs).len() implies (limit matches Some(e) ==> #[trigger] routed_children(
                    page.locs,
                )[i] > e) by {
                    assert(page_children(pages, root)[i] == routed_children(page.locs)[i]);
                }
            }
            lemma_route_page_complete(page.locs, page.level, ub, limit);
            assert(st.stack == fr);
            assert forall|i: int| 0 <= i < st.stack.len() implies reach(pages, root, #[trigger] st.stack[i].0) && !st.visited.contains(st.stack[i].0)
                && parented(pages, st.visited, st.stack[i].0) by {
                let c = st.stack[i].0;
                assert(routed_children(page.locs).contains(c));
                lemma_reach_child(pages, root, root, c);
                lemma_one_parent(pages, root, root, root, c);
                assert(st.visited.contains(root) && page_children(pages, root).contains(c));
            }
            if point_loc_from(pages, root, key) is Some {
                lemma_route_is_target(page.locs, key);
                assert(point_loc_from(pages, root, key) == descend_from(pages, page, key));
                assert(route(page.locs, key) is Some);
                assert(spec_contains(ub, key));
                let i = choose|i: int|
                    0 <= i < fr.len() && fr[i].0 == route_target(route_keys(page.locs).1, key, route_keys(page.locs).0)->0
                        && spec_contains(fr[i].2, key);
                assert(spec_contains(st.stack[i].2, key));
            }
        }
    }
}

/// On a page set whose pages reachable from `root` form a tree, a walk of the tree
/// that prunes nothing (no limit, or every routed child above it) collects exactly
/// the point search's hits: a key other than the sentinel's is collected if and
/// only if the point search finds it, and at the record the point search finds (a
/// root on the highest level is an anomaly to the walk and is left out).
pub proof fn law_tree_walk_is_point_search(
    pages: Seq<(u32, crate::defines::IndexPageData)>,
    root: u32,
    limit: Option<u32>,
    key: u64,
)
    requires
        tree_shaped(pages, root),
        limit_below(pages, root, limit),
        key != sentinel_key(),
        mem_page_at(pages, root) matches Some(p) ==> p.level < u32::MAX,
    ensures
        walk_result(mem_pf(pages), root, limit, Set::empty()) matches Some(w) ==> {
            &&& w.touched.contains_key(key) <==> point_loc_from(pages, root, key) is Some
            &&& point_loc_from(pages, root, key) matches Some(e) ==> w.touched[key] == leaf_loc(e)
            &&& w.shared == Set::<u32>::empty()
        },
        walk_result(mem_pf(pages), root, limit, Set::empty()) is None <==> point_loc_from(pages, root, key) is None && mem_page_at(
            pages,
            root,
        ) is None,
{
    law_walk_entries_are_point_hits(pages, root, limit, Set::empty(), key);
    lemma_walk_start_agrees(pages, root, limit, Set::empty());
    lemma_walk_start_covers(pages, root, key, limit);
    if let Some(st) = walk_start(mem_pf(pages), root, limit, Set::empty()) {
        lemma_walk_run_covers(pages, root, key, st, limit);
    }
}


/// A diff with no base tree, over a target tree whose routed children all lie above
/// the base end page (so nothing is taken for shared), reports as its entries
/// exactly the point search's hits of the target tree, at the records the point
/// search finds.
pub proof fn law_fresh_diff_is_point_search(
    pages: Seq<(u32, crate::defines::IndexPageData)>,
    base_end_pgno: u32,
    target_root: u32,
    key: u64,
)
    requires
        tree_shaped(pages, target_root),
        limit_below(pages, target_root, Some(base_end_pgno)),
        key != sentinel_key(),
        mem_page_at(pages, target_root) is Some,
        mem_page_at(pages, target_root)->0.level < u32::MAX,
    ensures
        diff_touched(mem_pf(pages), None, base_end_pgno, target_root).0 == Map::<u64, RecordLoc>::empty(),
        diff_touched(mem_pf(pages), None, base_end_pgno, target_root).1.contains_key(key) <==> point_loc_from(
            pages,
            target_root,
            key,
        ) is Some,
        point_loc_from(pages, target_root, key) matches Some(e) ==> diff_touched(mem_pf(pages), None, base_end_pgno, target_root).1[key]
            == leaf_loc(e),
{
    law_tree_walk_is_point_search(pages, target_root, Some(base_end_pgno), key);
    assert(mem_pf(pages)(target_root) is Some);
}

/// A diff of two trees whose target routes to no page at or below the base end page
/// (so that nothing is taken for shared) reports exactly the differences that point
/// search sees: a key other than the sentinel's is among the target entries if and
/// only if the point search of the target tree finds it, among the base entries if
/// and only if the point search of the base tree finds it, each at the record the
/// point search finds.
pub proof fn law_unshared_diff_is_point_search(
    pages: Seq<(u32, crate::defines::IndexPageData)>,
    base_root: u32,
    base_end_pgno: u32,
    target_root: u32,
    key: u64,
)
    requires
        tree_shaped(pages, target_root),
        tree_shaped(pages, base_root),
        limit_below(pages, target_root, Some(base_end_pgno)),
        key != sentinel_key(),
        mem_page_at(pages, target_root) is Some,
        mem_page_at(pages, target_root)->0.level < u32::MAX,
        mem_page_at(pages, base_root) is Some,
        mem_page_at(pages, base_root)->0.level < u32::MAX,
    ensures
        ({
            let (b, t) = diff_touched(mem_pf(pages), Some(base_root), base_end_pgno, target_root);
            &&& t.contains_key(key) <==> point_loc_from(pages, target_root, key) is Some
            &&& point_loc_from(pages, target_root, key) matches Some(e) ==> t[key] == leaf_loc(e)
            &&& b.contains_key(key) <==> point_loc_from(pages, base_root, key) is Some
            &&& point_loc_from(pages, base_root, key) matches Some(e) ==> b[key] == leaf_loc(e)
        }),
{
    let pf = mem_pf(pages);
    law_tree_walk_is_point_search(pages, target_root, Some(base_end_pgno), key);
    assert(pf(target_root) is Some);
    assert(pf(base_root) is Some);
    let tw = walk_result(pf, target_root, Some(base_end_pgno), Set::empty())->0;
    assert(tw.shared == Set::<u32>::empty());
    assert(limit_below(pages, base_root, None));
    law_tree_walk_is_point_search(pages, base_root, None, key);
}

} // verus!
