//! The version history of a file: every record version that the session chain
//! holds, by reference number, and which of them are older than the newest one.
use std::collections::{BTreeMap, BTreeSet};

use vstd::prelude::*;

use crate::defines::{RefnoDataLoc, SessionPageData};
use crate::io::{has_session_of, is_least_session_of, ses_page_at, PdmsIO};
use crate::io_scan::{lemma_least_session_unique, same_image, session_locs, session_readable};

verus! {

/// The session chain from page `cur` ends within `fuel` steps (at a page number of
/// at most 4 or at a page without predecessor), and every session page on the way
/// is readable together with its predecessor page and its index root.
pub open spec fn chain_ends(io: PdmsIO, cur: u32, fuel: nat) -> bool
    decreases fuel,
{
    cur <= 4 || (fuel > 0 && session_readable(io, cur) && {
        let p = ses_page_at(io.session_pages@, cur)->0;
        p.last_ses_pageno < 0 || chain_ends(io, p.last_ses_pageno as u32, (fuel - 1) as nat)
    })
}

/// The session pages that walk visits, newest first.
pub open spec fn chain_pages(io: PdmsIO, cur: u32, fuel: nat) -> Seq<u32>
    decreases fuel,
{
    if cur <= 4 || fuel == 0 {
        Seq::empty()
    } else {
        let p = ses_page_at(io.session_pages@, cur)->0;
        if p.last_ses_pageno < 0 {
            seq![cur]
        } else {
            seq![cur] + chain_pages(io, p.last_ses_pageno as u32, (fuel - 1) as nat)
        }
    }
}

/// Steps enough for the walk from the latest session page.
pub open spec fn walk_fuel(io: PdmsIO) -> nat {
    choose|f: nat| chain_ends(io, io.header->0.latest_ses_pgno, f)
}

/// The session pages walked from the latest one, newest first.
pub open spec fn walked_pages(io: PdmsIO) -> Seq<u32> {
    chain_pages(io, io.header->0.latest_ses_pgno, walk_fuel(io))
}

/// The session of a record page: the least session whose page range holds it.
pub open spec fn page_sesno_of(io: PdmsIO, pgno: u32) -> Option<u32> {
    if has_session_of(io.ses_range_map@, pgno) {
        Some((choose|t: i32| is_least_session_of(io.ses_range_map@, pgno, t)) as u32)
    } else {
        None
    }
}

/// What the walk has gathered: the `(record offset, session)` versions by reference
/// number, the reference numbers met, and a `(refno, sesno, offset)` row for every
/// version met after the first (newest) one of its reference number.
pub struct HistoryView {
    pub versions: Map<u64, Set<(u64, u32)>>,
    pub seen: Set<u64>,
    pub rows: Seq<(u64, u32, u64)>,
}

pub open spec fn empty_history() -> HistoryView {
    HistoryView { versions: Map::empty(), seen: Set::empty(), rows: Seq::empty() }
}

/// One entry met by the walk; an entry whose record page belongs to no session is
/// passed over.
pub open spec fn history_step(io: PdmsIO, st: HistoryView, l: RefnoDataLoc) -> HistoryView {
    let offset = l.spec_att_offset();
    match page_sesno_of(io, (offset / 0x800) as u32) {
        None => st,
        Some(s) => {
            let refno = l.key();
            let before = if st.versions.contains_key(refno) {
                st.versions[refno]
            } else {
                Set::empty()
            };
            let versions = st.versions.insert(refno, before.insert((offset, s)));
            if st.seen.contains(refno) {
                HistoryView { versions, seen: st.seen, rows: st.rows.push((refno, s, offset)) }
            } else {
                HistoryView { versions, seen: st.seen.insert(refno), rows: st.rows }
            }
        },
    }
}

/// The entries of one session in order.
pub open spec fn history_locs(io: PdmsIO, st: HistoryView, locs: Seq<RefnoDataLoc>) -> HistoryView
    decreases locs.len(),
{
    if locs.len() == 0 {
        st
    } else {
        history_step(io, history_locs(io, st, locs.drop_last()), locs.last())
    }
}

/// The sessions at the pages `pgs`, in order.
pub open spec fn history_pages(io: PdmsIO, st: HistoryView, pgs: Seq<u32>) -> HistoryView
    decreases pgs.len(),
{
    if pgs.len() == 0 {
        st
    } else {
        history_locs(io, history_pages(io, st, pgs.drop_last()), session_locs(io, pgs.last()))
    }
}

/// The history of the whole chain, from the latest session back.
pub open spec fn refno_history(io: PdmsIO) -> HistoryView {
    history_pages(io, empty_history(), walked_pages(io))
}

/// The sets of a map of ordered sets.
pub open spec fn versions_view(m: Map<u64, BTreeSet<(u64, u32)>>) -> Map<u64, Set<(u64, u32)>> {
    m.map_values(|s: BTreeSet<(u64, u32)>| s@)
}

/// The version history of a file (see `refno_history`).
#[derive(Debug)]
pub struct RefnoSesnoHistory {
    /// Reference number → every `(record offset, session)` version.
    pub history_loc_map: BTreeMap<u64, BTreeSet<(u64, u32)>>,
    /// The session pages walked, newest first.
    pub sessions: Vec<SessionPageData>,
    /// `(refno, sesno, offset)` of every version older than the newest one of its
    /// reference number, in the order met.
    pub history_rows: Vec<(u64, u32, u64)>,
}

impl PdmsIO {
    /// Walks the session chain from the latest session back and gathers every
    /// version of every reference number the sessions wrote (see `refno_history`).
    pub fn store_all_refno_sesno_map(&mut self) -> (r: RefnoSesnoHistory)
        requires
            old(self).header is Some,
            exists|f: nat| chain_ends(*old(self), old(self).header->0.latest_ses_pgno, f),
        ensures
            same_image(*final(self), *old(self)),
            versions_view(r.history_loc_map@) == refno_history(*old(self)).versions,
            r.history_rows@ == refno_history(*old(self)).rows,
            r.sessions@.len() == walked_pages(*old(self)).len(),
            forall|i: int| 0 <= i < r.sessions@.len() ==> Some(#[trigger] r.sessions@[i]) == ses_page_at(
                old(self).session_pages@,
                walked_pages(*old(self))[i],
            ),
    {
        broadcast use crate::order::group_key_order;

        let ghost io0 = *self;
        let header = self.header.unwrap();
        let mut cur: u32 = header.latest_ses_pgno;
        let ghost mut fuel: nat = walk_fuel(io0);
        let ghost mut done: Seq<u32> = Seq::empty();
        let ghost mut st: HistoryView = empty_history();
        let mut map: BTreeMap<u64, BTreeSet<(u64, u32)>> = BTreeMap::new();
        let mut seen: BTreeSet<u64> = BTreeSet::new();
        let mut rows: Vec<(u64, u32, u64)> = Vec::new();
        let mut sessions: Vec<SessionPageData> = Vec::new();
        proof {
            assert(done + chain_pages(io0, cur, fuel) =~= walked_pages(io0));
            assert(versions_view(map@) =~= st.versions);
        }
        while cur > 4
            invariant
                io0 == *old(self),
                same_image(*self, io0),
                chain_ends(io0, cur, fuel),
                done + chain_pages(io0, cur, fuel) == walked_pages(io0),
                st == history_pages(io0, empty_history(), done),
                versions_view(map@) == st.versions,
                seen@ == st.seen,
                rows@ == st.rows,
                sessions@.len() == done.len(),
                forall|i: int| 0 <= i < done.len() ==> Some(#[trigger] sessions@[i]) == ses_page_at(io0.session_pages@, done[i]),
            decreases fuel,
        {
            proof {
                assert(session_readable(*self, cur));
            }
            let all_locs = self.collect_refno_locs_in_session(cur);
            let page = self.read_ses_data(cur).unwrap();
            let ghost locs = all_locs@;
            let ghost st0 = st;
            proof {
                assert(locs == session_locs(io0, cur));
                assert(locs.take(0) =~= Seq::<RefnoDataLoc>::empty());
            }
            let mut k: usize = 0;
            while k < all_locs.len()
                invariant
                    k <= all_locs.len(),
                    locs == all_locs@,
                    io0 == *old(self),
                    same_image(*self, io0),
                    st == history_locs(io0, st0, locs.take(k as int)),
                    versions_view(map@) == st.versions,
                    seen@ == st.seen,
                    rows@ == st.rows,
                decreases all_locs.len() - k,
            {
                let loc = all_locs[k];
                proof {
                    assert(locs.take(k + 1).drop_last() =~= locs.take(k as int));
                    assert(locs.take(k + 1).last() == loc);
                }
                let refno = loc.get_refno();
                let offset = loc.get_att_offset();
                let ghost pg = (offset / 0x800) as u32;
                match self.get_sesno((offset / 0x800) as u32) {
                    None => {
                        proof {
                            assert(page_sesno_of(io0, pg) is None);
                            st = history_step(io0, st, loc);
                        }
                    },
                    Some(sesno) => {
                        proof {
                            let t = choose|t: i32| is_least_session_of(self.ses_range_map@, pg, t) && sesno == t as u32;
                            let c = choose|t: i32| is_least_session_of(io0.ses_range_map@, pg, t);
                            lemma_least_session_unique(io0.ses_range_map@, pg, t, c);
                            assert(page_sesno_of(io0, pg) == Some(sesno));
                        }
                        let ghost before = map@;
                        let mut set: BTreeSet<(u64, u32)> = match map.remove(&refno) {
                            Some(s) => s,
                            None => BTreeSet::new(),
                        };
                        let ghost old_set = set@;
                        set.insert((offset, sesno));
                        map.insert(refno, set);
                        let is_seen = seen.contains(&refno);
                        if is_seen {
                            rows.push((refno, sesno, offset));
                        } else {
                            seen.insert(refno);
                        }
                        proof {
                            let nxt = history_step(io0, st, loc);
                            assert(st.versions.contains_key(refno) ==> old_set == st.versions[refno]);
                            assert(!st.versions.contains_key(refno) ==> old_set == Set::<(u64, u32)>::empty());
                            assert(versions_view(map@) =~= nxt.versions);
                            st = nxt;
                        }
                    },
                }
                k += 1;
            }
            proof {
                assert(locs.take(k as int) =~= locs);
                assert(done.push(cur).drop_last() =~= done);
                assert(st == history_pages(io0, empty_history(), done.push(cur)));
                assert(chain_pages(io0, cur, fuel)[0] == cur);
            }
            let ghost done0 = done;
            sessions.push(page);
            proof {
                done = done.push(cur);
                assert forall|i: int| 0 <= i < done.len() implies Some(#[trigger] sessions@[i]) == ses_page_at(io0.session_pages@, done[i]) by {
                    if i < done0.len() {
                        assert(sessions@[i] == sessions@.drop_last()[i]);
                    }
                }
            }
            if page.last_ses_pageno < 0 {
                proof {
                    assert(chain_pages(io0, cur, fuel) =~= seq![cur]);
                    assert(chain_pages(io0, 0, (fuel - 1) as nat) =~= Seq::<u32>::empty());
                    assert(done + chain_pages(io0, 0, (fuel - 1) as nat) =~= walked_pages(io0));
                    fuel = (fuel - 1) as nat;
                }
                cur = 0;
            } else {
                let next = page.last_ses_pageno as u32;
                proof {
                    assert(chain_pages(io0, cur, fuel) =~= seq![cur] + chain_pages(io0, next, (fuel - 1) as nat));
                    assert(done + chain_pages(io0, next, (fuel - 1) as nat) =~= walked_pages(io0));
                    fuel = (fuel - 1) as nat;
                }
                cur = next;
            }
        }
        proof {
            assert(chain_pages(io0, cur, fuel) =~= Seq::<u32>::empty());
            assert(done =~= walked_pages(io0));
        }
        RefnoSesnoHistory { history_loc_map: map, sessions, history_rows: rows }
    }
}

/// Entry `l` stands for a version: its record page belongs to a session.
pub open spec fn is_version(io: PdmsIO, l: RefnoDataLoc) -> bool {
    page_sesno_of(io, (l.spec_att_offset() / 0x800) as u32) is Some
}

/// Some entry of `locs` is a version of `refno`.
pub open spec fn met_in(io: PdmsIO, locs: Seq<RefnoDataLoc>, refno: u64) -> bool {
    exists|i: int| 0 <= i < locs.len() && #[trigger] locs[i].key() == refno && is_version(io, locs[i])
}

/// After the walk over `locs`, the reference numbers met are those met before and
/// those of which `locs` holds a version.
pub proof fn law_history_meets_every_version(io: PdmsIO, st: HistoryView, locs: Seq<RefnoDataLoc>)
    ensures
        forall|r: u64| #[trigger] history_locs(io, st, locs).seen.contains(r) <==> st.seen.contains(r) || met_in(io, locs, r),
    decreases locs.len(),
{
    if locs.len() > 0 {
        let init = locs.drop_last();
        law_history_meets_every_version(io, st, init);
        let l = locs.last();
        let prev = history_locs(io, st, init);
        assert(history_locs(io, st, locs) == history_step(io, prev, l));
        if is_version(io, l) {
            assert(history_locs(io, st, locs).seen =~= prev.seen.insert(l.key()));
            assert(locs[locs.len() - 1] == l);
        } else {
            assert(history_locs(io, st, locs).seen == prev.seen);
        }
        assert forall|r: u64| #[trigger] history_locs(io, st, locs).seen.contains(r) <==> st.seen.contains(r) || met_in(io, locs, r) by {
            if met_in(io, init, r) {
                let i = choose|i: int| 0 <= i < init.len() && #[trigger] init[i].key() == r && is_version(io, init[i]);
                assert(locs[i] == init[i]);
            }
            if met_in(io, locs, r) {
                let i = choose|i: int| 0 <= i < locs.len() && #[trigger] locs[i].key() == r && is_version(io, locs[i]);
                if i < init.len() {
                    assert(init[i] == locs[i]);
                }
            }
        }
    }
}

/// The walk writes a history row for a version exactly when a version of its
/// reference number was met before it (earlier in the walk or before `locs`): one
/// more entry adds the row `(refno, session, offset)` in that case and no row
/// otherwise. So every version but the first one met of each reference number
/// gets a row.
pub proof fn law_history_row_after_first_version(io: PdmsIO, st: HistoryView, locs: Seq<RefnoDataLoc>, l: RefnoDataLoc)
    ensures
        history_locs(io, st, locs.push(l)).rows == history_locs(io, st, locs).rows + if is_version(io, l) && (st.seen.contains(l.key())
            || met_in(io, locs, l.key())) {
            seq![(l.key(), page_sesno_of(io, (l.spec_att_offset() / 0x800) as u32)->0, l.spec_att_offset())]
        } else {
            Seq::<(u64, u32, u64)>::empty()
        },
        history_locs(io, st, locs.push(l)).seen == history_locs(io, st, locs).seen.insert(l.key()) || !is_version(io, l),
{
    law_history_meets_every_version(io, st, locs);
    let whole = locs.push(l);
    assert(whole.drop_last() =~= locs);
    assert(whole.last() == l);
    let prev = history_locs(io, st, locs);
    if is_version(io, l) {
        if prev.seen.contains(l.key()) {
            assert(prev.rows.push((l.key(), page_sesno_of(io, (l.spec_att_offset() / 0x800) as u32)->0, l.spec_att_offset())) =~= prev.rows
                + seq![(l.key(), page_sesno_of(io, (l.spec_att_offset() / 0x800) as u32)->0, l.spec_att_offset())]);
            assert(prev.seen.insert(l.key()) =~= prev.seen);
        } else {
            assert(prev.rows =~= prev.rows + Seq::<(u64, u32, u64)>::empty());
        }
    } else {
        assert(prev.rows =~= prev.rows + Seq::<(u64, u32, u64)>::empty());
    }
}

/// After the walk over `locs`, the versions held for a reference number are those
/// held before together with `(offset, session)` of every entry of `locs` that is a
/// version of it; nothing else changes them.
pub proof fn law_history_keeps_every_version(io: PdmsIO, st: HistoryView, locs: Seq<RefnoDataLoc>, refno: u64, v: (u64, u32))
    ensures
        (history_locs(io, st, locs).versions.contains_key(refno) && history_locs(io, st, locs).versions[refno].contains(v)) <==> (
        st.versions.contains_key(refno) && st.versions[refno].contains(v)) || exists|i: int|
            0 <= i < locs.len() && #[trigger] locs[i].key() == refno && is_version(io, locs[i]) && v == (
                locs[i].spec_att_offset(),
                page_sesno_of(io, (locs[i].spec_att_offset() / 0x800) as u32)->0,
            ),
    decreases locs.len(),
{
    if locs.len() > 0 {
        let init = locs.drop_last();
        let l = locs.last();
        law_history_keeps_every_version(io, st, init, refno, v);
        let prev = history_locs(io, st, init);
        assert(history_locs(io, st, locs) == history_step(io, prev, l));
        assert(locs[locs.len() - 1] == l);
        if exists|i: int|
            0 <= i < init.len() && #[trigger] init[i].key() == refno && is_version(io, init[i]) && v == (
                init[i].spec_att_offset(),
                page_sesno_of(io, (init[i].spec_att_offset() / 0x800) as u32)->0,
            ) {
            let i = choose|i: int|
                0 <= i < init.len() && #[trigger] init[i].key() == refno && is_version(io, init[i]) && v == (
                    init[i].spec_att_offset(),
                    page_sesno_of(io, (init[i].spec_att_offset() / 0x800) as u32)->0,
                );
            assert(locs[i] == init[i]);
        }
        if exists|i: int|
            0 <= i < locs.len() && #[trigger] locs[i].key() == refno && is_version(io, locs[i]) && v == (
                locs[i].spec_att_offset(),
                page_sesno_of(io, (locs[i].spec_att_offset() / 0x800) as u32)->0,
            ) {
            let i = choose|i: int|
                0 <= i < locs.len() && #[trigger] locs[i].key() == refno && is_version(io, locs[i]) && v == (
                    locs[i].spec_att_offset(),
                    page_sesno_of(io, (locs[i].spec_att_offset() / 0x800) as u32)->0,
                );
            if i < init.len() {
                assert(init[i] == locs[i]);
            }
        }
    }
}

} // verus!
