//! Replaying the version history of one reference number: which operation each
//! version stands for, which members each version adds and drops, and which
//! versions are written back as history.
use std::collections::{BTreeMap, BTreeSet};

use vstd::prelude::*;
use vstd::std_specs::iter::IteratorSpec;

use crate::history::{page_sesno_of, versions_view};
use crate::io::{is_least_session_of, EleData, EleView, PdmsIO};
use crate::io_scan::{element_view, lemma_least_session_unique};
use crate::leaf_scan::{ascending_keys, lemma_ascending_unique, strictly_increasing};
use crate::net_window::vec_contains;
use crate::order::pair_lt;

verus! {

/// What a version of an element stands for in the history.
#[derive(Debug, Clone, Copy, PartialEq, Eq, Structural)]
pub enum EleOperation {
    Add,
    Modified,
    Deleted,
}

/// The element an operation is filed under: its newest version, or its version as
/// of a session.
#[derive(Debug, Clone, Copy, PartialEq, Eq, Structural)]
pub enum PeKey {
    Latest { refno: u64 },
    AtSession { refno: u64, sesno: u32 },
}

/// `q` lists pairs in strictly increasing lexicographic order.
pub open spec fn pairs_increasing(q: Seq<(u64, u32)>) -> bool {
    forall|i: int, j: int| 0 <= i < j < q.len() ==> pair_lt(q[i], q[j])
}

/// The pairs of a finite set in ascending order.
pub open spec fn ascending_pairs(s: Set<(u64, u32)>) -> Seq<(u64, u32)> {
    choose|q: Seq<(u64, u32)>| pairs_increasing(q) && q.to_set() == s
}

/// Two ascending sequences of the same pairs are equal.
pub proof fn lemma_ascending_pairs_unique(a: Seq<(u64, u32)>, b: Seq<(u64, u32)>)
    requires
        pairs_increasing(a),
        pairs_increasing(b),
        a.to_set() == b.to_set(),
    ensures
        a == b,
    decreases a.len(),
{
    if a.len() == 0 {
        if b.len() > 0 {
            assert(b.to_set().contains(b[0]));
            assert(a.to_set().contains(b[0]));
        }
        assert(a =~= b);
    } else if b.len() == 0 {
        assert(a.to_set().contains(a[0]));
        assert(b.to_set().contains(a[0]));
    } else {
        let x = a.last();
        let y = b.last();
        assert(a.to_set().contains(x));
        assert(b.to_set().contains(x));
        let j = choose|j: int| 0 <= j < b.len() && b[j] == x;
        assert(b.to_set().contains(y));
        assert(a.to_set().contains(y));
        let i = choose|i: int| 0 <= i < a.len() && a[i] == y;
        if j < b.len() - 1 {
            assert(pair_lt(b[j], b[b.len() - 1]));
        }
        if i < a.len() - 1 {
            assert(pair_lt(a[i], a[a.len() - 1]));
        }
        assert(x == y);
        assert forall|v: (u64, u32)| a.drop_last().to_set().contains(v) <==> b.drop_last().to_set().contains(v) by {
            if a.drop_last().to_set().contains(v) {
                let k = choose|k: int| 0 <= k < a.drop_last().len() && a.drop_last()[k] == v;
                assert(a[k] == v && pair_lt(v, x));
                assert(a.to_set().contains(v));
                assert(b.to_set().contains(v));
                let m = choose|m: int| 0 <= m < b.len() && b[m] == v;
                assert(m != b.len() - 1);
                assert(b.drop_last()[m] == v);
            }
            if b.drop_last().to_set().contains(v) {
                let k = choose|k: int| 0 <= k < b.drop_last().len() && b.drop_last()[k] == v;
                assert(b[k] == v && pair_lt(v, y));
                assert(b.to_set().contains(v));
                assert(a.to_set().contains(v));
                let m = choose|m: int| 0 <= m < a.len() && a[m] == v;
                assert(m != a.len() - 1);
                assert(a.drop_last()[m] == v);
            }
        }
        assert(a.drop_last().to_set() =~= b.drop_last().to_set());
        lemma_ascending_pairs_unique(a.drop_last(), b.drop_last());
        assert(a =~= a.drop_last().push(x));
        assert(b =~= b.drop_last().push(y));
    }
}

/// The pairs of an ordered set, in ascending order.
pub fn set_pairs(s: &BTreeSet<(u64, u32)>) -> (r: Vec<(u64, u32)>)
    ensures
        r@ == ascending_pairs(s@),
{
    broadcast use crate::order::group_key_order;

    let mut r: Vec<(u64, u32)> = Vec::new();
    let iter = s.iter();
    let ghost s0 = iter.remaining();
    proof {
        assert(s0 == vstd::std_specs::btree::spec_btree_keys_iter(s).remaining());
        crate::order::lemma_increasing_pair_elements(s0);
    }
    for x in it: iter
        invariant
            it.seq() == s0,
            r@.len() == it.index(),
            forall|i: int| 0 <= i < it.index() ==> #[trigger] r@[i] == *s0[i],
    {
        r.push(*x);
    }
    proof {
        assert(pairs_increasing(r@));
        assert forall|v: (u64, u32)| r@.to_set().contains(v) <==> s@.contains(v) by {
            if r@.to_set().contains(v) {
                let k = choose|k: int| 0 <= k < r@.len() && r@[k] == v;
                assert(s0.unref()[k] == *s0[k]);
                assert(s0.unref().contains(*s0[k]));
                assert(s0.unref().to_set().contains(v));
            }
            if s@.contains(v) {
                assert(s0.unref().to_set().contains(v));
                let k = choose|k: int| 0 <= k < s0.unref().len() && s0.unref()[k] == v;
                assert(r@[k] == v);
            }
        }
        assert(r@.to_set() =~= s@);
        lemma_ascending_pairs_unique(ascending_pairs(s@), r@);
    }
    r
}

/// The greatest pair of a set; `(0, 0)` for an empty set.
pub open spec fn latest_version(s: Set<(u64, u32)>) -> (u64, u32) {
    let q = ascending_pairs(s);
    if q.len() == 0 {
        (0, 0)
    } else {
        q.last()
    }
}

/// The session of the greatest `(offset, session)` pair of a set; 0 for an empty set.
pub fn latest_version_sesno(s: &BTreeSet<(u64, u32)>) -> (r: u32)
    ensures
        r == latest_version(s@).1,
{
    let q = set_pairs(s);
    if q.len() == 0 {
        0
    } else {
        q[q.len() - 1].1
    }
}

/// Replay state: the member list and session of the last version written back, the
/// end of the replay, whether a dropped member had no history at all, and the
/// products so far (see `RefnoReplay`).
pub struct ReplayView {
    pub prev_children: Seq<u64>,
    pub has_prev: bool,
    pub prev_sesno: u32,
    pub done: bool,
    pub missing_child: bool,
    pub ses_ops: Seq<(u32, EleOperation)>,
    pub pe_ops: Seq<(PeKey, EleOperation, u32)>,
    pub deleted: Seq<(u64, u32)>,
    pub added_only: Option<u64>,
    pub his_sesnos: Set<u32>,
    pub saved: Seq<(u64, u32, bool)>,
}

pub open spec fn replay_start() -> ReplayView {
    ReplayView {
        prev_children: Seq::empty(),
        has_prev: false,
        prev_sesno: 0,
        done: false,
        missing_child: false,
        ses_ops: Seq::empty(),
        pe_ops: Seq::empty(),
        deleted: Seq::empty(),
        added_only: None,
        his_sesnos: Set::empty(),
        saved: Seq::empty(),
    }
}

/// Members of the version that the last written-back version did not list are
/// added in session `sesno`, in order.
pub open spec fn child_adds(st: ReplayView, children: Seq<u64>, sesno: u32) -> ReplayView
    decreases children.len(),
{
    if children.len() == 0 {
        st
    } else {
        let s = child_adds(st, children.drop_last(), sesno);
        let c = children.last();
        if s.prev_children.contains(c) {
            s
        } else {
            ReplayView {
                pe_ops: s.pe_ops.push((PeKey::AtSession { refno: c, sesno }, EleOperation::Add, s.prev_sesno)),
                ses_ops: s.ses_ops.push((sesno, EleOperation::Add)),
                ..s
            }
        }
    }
}

/// Members of the last written-back version (`prev`, in order) that the version no
/// longer lists are deleted in session `sesno`, filed with the session of their own
/// greatest version; a dropped member without history marks the replay.
pub open spec fn child_dels(
    st: ReplayView,
    prev: Seq<u64>,
    children: Seq<u64>,
    hist: Map<u64, Set<(u64, u32)>>,
    sesno: u32,
) -> ReplayView
    decreases prev.len(),
{
    if prev.len() == 0 {
        st
    } else {
        let s = child_dels(st, prev.drop_last(), children, hist, sesno);
        let c = prev.last();
        if children.contains(c) {
            s
        } else if !hist.contains_key(c) {
            ReplayView { missing_child: true, ..s }
        } else {
            ReplayView {
                deleted: s.deleted.push((c, sesno)),
                pe_ops: s.pe_ops.push((PeKey::AtSession { refno: c, sesno }, EleOperation::Deleted, latest_version(hist[c]).1)),
                ses_ops: s.ses_ops.push((sesno, EleOperation::Deleted)),
                ..s
            }
        }
    }
}

/// The operation a decoding version stands for: a modification when an earlier
/// version was written back, else an addition; the sessions of versions before the
/// last one are collected.
pub open spec fn version_head(st: ReplayView, refno: u64, is_last: bool, sesno: u32) -> ReplayView {
    let s1 = ReplayView {
        his_sesnos: if is_last {
            st.his_sesnos
        } else {
            st.his_sesnos.insert(sesno)
        },
        ..st
    };
    let key = if is_last {
        PeKey::Latest { refno }
    } else {
        PeKey::AtSession { refno, sesno }
    };
    if st.has_prev {
        ReplayView {
            pe_ops: s1.pe_ops.push((key, EleOperation::Modified, st.prev_sesno)),
            ses_ops: s1.ses_ops.push((sesno, EleOperation::Modified)),
            ..s1
        }
    } else {
        ReplayView { ses_ops: s1.ses_ops.push((sesno, EleOperation::Add)), ..s1 }
    }
}

/// After the member changes: the last version ends the replay; an earlier one is
/// written back, and becomes the reference for the next ones when its history
/// record could be built (`json`).
pub open spec fn version_tail(s: ReplayView, is_last: bool, json: bool, offset: u64, sesno: u32, children: Seq<u64>) -> ReplayView {
    if is_last {
        ReplayView { done: true, ..s }
    } else if json {
        ReplayView { saved: s.saved.push((offset, sesno, true)), has_prev: true, prev_children: children, prev_sesno: sesno, ..s }
    } else {
        ReplayView { saved: s.saved.push((offset, sesno, false)), ..s }
    }
}

/// One version `v = (offset, session)`, the `i`-th of `n`. A single version is an
/// addition and ends the replay. A version whose record does not decode is passed
/// over. Otherwise its operation (`version_head`), then the members it adds and
/// drops, then its write-back (`version_tail`).
pub open spec fn replay_version(
    io: PdmsIO,
    hist: Map<u64, Set<(u64, u32)>>,
    refno: u64,
    n: int,
    i: int,
    v: (u64, u32),
    json: bool,
    st: ReplayView,
) -> ReplayView {
    let offset = v.0;
    let sesno = v.1;
    if st.done {
        st
    } else if n == 1 {
        ReplayView { ses_ops: st.ses_ops.push((sesno, EleOperation::Add)), added_only: Some(offset), done: true, ..st }
    } else {
        let is_last = i == n - 1;
        match element_view(io, offset) {
            None => st,
            Some(e) => {
                let s2 = version_head(st, refno, is_last, sesno);
                let s4 = child_dels(child_adds(s2, e.children, sesno), st.prev_children, e.children, hist, sesno);
                version_tail(s4, is_last, json, offset, sesno, e.children)
            },
        }
    }
}

/// The first `k` versions replayed in order.
pub open spec fn replay_prefix(
    io: PdmsIO,
    hist: Map<u64, Set<(u64, u32)>>,
    refno: u64,
    vs: Seq<(u64, u32)>,
    json: Seq<bool>,
    k: int,
) -> ReplayView
    decreases k,
{
    if k <= 0 {
        replay_start()
    } else {
        replay_version(io, hist, refno, vs.len() as int, k - 1, vs[k - 1], json[k - 1], replay_prefix(io, hist, refno, vs, json, k - 1))
    }
}

/// The replay of every version of `refno`, in ascending `(offset, session)` order.
pub open spec fn replay_refno(io: PdmsIO, hist: Map<u64, Set<(u64, u32)>>, refno: u64, json: Seq<bool>) -> ReplayView {
    let vs = ascending_pairs(hist[refno]);
    replay_prefix(io, hist, refno, vs, json, vs.len() as int)
}

/// Member additions leave the mark alone.
proof fn lemma_adds_keep_mark(st: ReplayView, children: Seq<u64>, sesno: u32)
    ensures
        child_adds(st, children, sesno).missing_child == st.missing_child,
        child_adds(st, children, sesno).prev_children == st.prev_children,
        child_adds(st, children, sesno).prev_sesno == st.prev_sesno,
    decreases children.len(),
{
    if children.len() > 0 {
        lemma_adds_keep_mark(st, children.drop_last(), sesno);
    }
}

/// A mark set on a prefix of the dropped members stays set.
proof fn lemma_dels_keep_mark(
    st: ReplayView,
    prev: Seq<u64>,
    children: Seq<u64>,
    hist: Map<u64, Set<(u64, u32)>>,
    sesno: u32,
    k: int,
)
    requires
        0 <= k <= prev.len(),
        child_dels(st, prev.take(k), children, hist, sesno).missing_child,
    ensures
        child_dels(st, prev, children, hist, sesno).missing_child,
    decreases prev.len() - k,
{
    if k < prev.len() {
        assert(prev.take(k + 1).drop_last() =~= prev.take(k));
        lemma_dels_keep_mark(st, prev, children, hist, sesno, k + 1);
    } else {
        assert(prev.take(k) =~= prev);
    }
}

/// A marked state stays marked through member deletions.
proof fn lemma_dels_marked(st: ReplayView, prev: Seq<u64>, children: Seq<u64>, hist: Map<u64, Set<(u64, u32)>>, sesno: u32)
    requires
        st.missing_child,
    ensures
        child_dels(st, prev, children, hist, sesno).missing_child,
    decreases prev.len(),
{
    if prev.len() > 0 {
        lemma_dels_marked(st, prev.drop_last(), children, hist, sesno);
    }
}

/// A mark set on a prefix of the versions stays set.
proof fn lemma_prefix_keeps_mark(io: PdmsIO, hist: Map<u64, Set<(u64, u32)>>, refno: u64, vs: Seq<(u64, u32)>, json: Seq<bool>, k: int)
    requires
        0 <= k <= vs.len(),
        replay_prefix(io, hist, refno, vs, json, k).missing_child,
    ensures
        replay_prefix(io, hist, refno, vs, json, vs.len() as int).missing_child,
    decreases vs.len() - k,
{
    if k < vs.len() {
        let st = replay_prefix(io, hist, refno, vs, json, k);
        let v = vs[k];
        if !st.done && vs.len() != 1 {
            match element_view(io, v.0) {
                None => {},
                Some(e) => {
                    let s2 = version_head(st, refno, k == vs.len() - 1, v.1);
                    lemma_adds_keep_mark(s2, e.children, v.1);
                    lemma_dels_marked(child_adds(s2, e.children, v.1), st.prev_children, e.children, hist, v.1);
                },
            }
        }
        lemma_prefix_keeps_mark(io, hist, refno, vs, json, k + 1);
    }
}

/// Member changes leave the reference version and the end of the replay alone.
proof fn lemma_member_changes_keep_reference(
    st: ReplayView,
    prev: Seq<u64>,
    children: Seq<u64>,
    hist: Map<u64, Set<(u64, u32)>>,
    sesno: u32,
)
    ensures
        child_dels(st, prev, children, hist, sesno).prev_children == st.prev_children,
        child_dels(st, prev, children, hist, sesno).prev_sesno == st.prev_sesno,
        child_dels(st, prev, children, hist, sesno).has_prev == st.has_prev,
        child_dels(st, prev, children, hist, sesno).done == st.done,
        child_adds(st, children, sesno).has_prev == st.has_prev,
        child_adds(st, children, sesno).done == st.done,
    decreases prev.len() + children.len(),
{
    if prev.len() > 0 {
        lemma_member_changes_keep_reference(st, prev.drop_last(), children, hist, sesno);
    }
    if children.len() > 0 {
        lemma_member_changes_keep_reference(st, Seq::empty(), children.drop_last(), hist, sesno);
    }
    lemma_adds_keep_mark(st, children, sesno);
}

/// The last of the first `k` versions that decodes and whose history record could
/// be built, if any: the version written back last.
pub open spec fn last_written_back(io: PdmsIO, vs: Seq<(u64, u32)>, json: Seq<bool>, k: int) -> Option<int>
    decreases k,
{
    if k <= 0 {
        None
    } else if element_view(io, vs[k - 1].0) is Some && json[k - 1] {
        Some(k - 1)
    } else {
        last_written_back(io, vs, json, k - 1)
    }
}

/// Before version `k` of several, the replay compares against the version written
/// back last: an earlier version is one exactly when one was written back, and its
/// member list and session are those of the last version written back (that
/// decodes and whose history record was built), not of any earlier one.
pub proof fn law_replay_compares_with_last_written_back(
    io: PdmsIO,
    hist: Map<u64, Set<(u64, u32)>>,
    refno: u64,
    vs: Seq<(u64, u32)>,
    json: Seq<bool>,
    k: int,
)
    requires
        vs.len() > 1,
        json.len() == vs.len(),
        0 <= k < vs.len(),
    ensures
        ({
            let st = replay_prefix(io, hist, refno, vs, json, k);
            &&& !st.done
            &&& st.has_prev <==> last_written_back(io, vs, json, k) is Some
            &&& last_written_back(io, vs, json, k) matches Some(j) ==> st.prev_children == element_view(io, vs[j].0)->0.children
                && st.prev_sesno == vs[j].1
            &&& last_written_back(io, vs, json, k) is None ==> st.prev_children == Seq::<u64>::empty()
        }),
    decreases k,
{
    if k > 0 {
        law_replay_compares_with_last_written_back(io, hist, refno, vs, json, k - 1);
        let st = replay_prefix(io, hist, refno, vs, json, k - 1);
        let v = vs[k - 1];
        if let Some(e) = element_view(io, v.0) {
            let is_last = k - 1 == vs.len() - 1;
            let s2 = version_head(st, refno, is_last, v.1);
            let s3 = child_adds(s2, e.children, v.1);
            lemma_member_changes_keep_reference(s2, st.prev_children, e.children, hist, v.1);
            lemma_member_changes_keep_reference(s3, st.prev_children, e.children, hist, v.1);
            lemma_adds_keep_mark(s2, e.children, v.1);
        }
    }
}

/// Member additions append, after the operations so far, one `Add` on session
/// `sesno` for each listed member the reference version does not list, and nothing
/// else.
proof fn lemma_child_adds_ops(st: ReplayView, children: Seq<u64>, sesno: u32)
    ensures
        ({
            let r = child_adds(st, children, sesno);
            &&& st.pe_ops.len() <= r.pe_ops.len()
            &&& forall|i: int| 0 <= i < st.pe_ops.len() ==> #[trigger] r.pe_ops[i] == st.pe_ops[i]
            &&& forall|i: int| st.pe_ops.len() <= i < r.pe_ops.len() ==> (#[trigger] r.pe_ops[i]).1 == EleOperation::Add && (
            r.pe_ops[i].0 matches PeKey::AtSession { refno: c, sesno: s } && s == sesno && children.contains(c)
                && !st.prev_children.contains(c))
            &&& forall|c: u64| children.contains(c) && !st.prev_children.contains(c) ==> exists|i: int| st.pe_ops.len() <= i
                < r.pe_ops.len() && (#[trigger] r.pe_ops[i]).0 == (PeKey::AtSession { refno: c, sesno }) && r.pe_ops[i].1
                == EleOperation::Add
        }),
    decreases children.len(),
{
    if children.len() > 0 {
        let init = children.drop_last();
        lemma_child_adds_ops(st, init, sesno);
        lemma_adds_keep_mark(st, init, sesno);
        let p = child_adds(st, init, sesno);
        let r = child_adds(st, children, sesno);
        let c0 = children.last();
        assert(children[children.len() - 1] == c0);
        assert(r.pe_ops == (if p.prev_children.contains(c0) {
            p.pe_ops
        } else {
            p.pe_ops.push((PeKey::AtSession { refno: c0, sesno }, EleOperation::Add, p.prev_sesno))
        }));
        assert forall|i: int| st.pe_ops.len() <= i < r.pe_ops.len() implies (#[trigger] r.pe_ops[i]).1 == EleOperation::Add && (
        r.pe_ops[i].0 matches PeKey::AtSession { refno: c, sesno: s } && s == sesno && children.contains(c)
            && !st.prev_children.contains(c)) by {
            if i < p.pe_ops.len() {
                assert(r.pe_ops[i] == p.pe_ops[i]);
                if let PeKey::AtSession { refno: c, sesno: _s } = p.pe_ops[i].0 {
                    let j = choose|j: int| 0 <= j < init.len() && init[j] == c;
                    assert(children[j] == c);
                }
            }
        }
        assert forall|c: u64| children.contains(c) && !st.prev_children.contains(c) implies exists|i: int| st.pe_ops.len() <= i
            < r.pe_ops.len() && (#[trigger] r.pe_ops[i]).0 == (PeKey::AtSession { refno: c, sesno }) && r.pe_ops[i].1
            == EleOperation::Add by {
            let j = choose|j: int| 0 <= j < children.len() && children[j] == c;
            if j < init.len() {
                assert(init[j] == c);
                assert(init.contains(c));
                let i = choose|i: int| st.pe_ops.len() <= i < p.pe_ops.len() && (#[trigger] p.pe_ops[i]).0 == (PeKey::AtSession {
                    refno: c,
                    sesno,
                }) && p.pe_ops[i].1 == EleOperation::Add;
                assert(r.pe_ops[i] == p.pe_ops[i]);
            } else {
                assert(r.pe_ops[p.pe_ops.len() as int].0 == (PeKey::AtSession { refno: c, sesno }));
            }
        }
    }
}

/// Member deletions only append `Deleted` operations.
proof fn lemma_child_dels_ops(st: ReplayView, prev: Seq<u64>, children: Seq<u64>, hist: Map<u64, Set<(u64, u32)>>, sesno: u32)
    ensures
        ({
            let r = child_dels(st, prev, children, hist, sesno);
            &&& st.pe_ops.len() <= r.pe_ops.len()
            &&& forall|i: int| 0 <= i < st.pe_ops.len() ==> #[trigger] r.pe_ops[i] == st.pe_ops[i]
            &&& forall|i: int| st.pe_ops.len() <= i < r.pe_ops.len() ==> (#[trigger] r.pe_ops[i]).1 == EleOperation::Deleted
        }),
    decreases prev.len(),
{
    if prev.len() > 0 {
        lemma_child_dels_ops(st, prev.drop_last(), children, hist, sesno);
        let p = child_dels(st, prev.drop_last(), children, hist, sesno);
        let r = child_dels(st, prev, children, hist, sesno);
        assert forall|i: int| st.pe_ops.len() <= i < r.pe_ops.len() implies (#[trigger] r.pe_ops[i]).1 == EleOperation::Deleted by {
            if i < p.pe_ops.len() {
                assert(r.pe_ops[i] == p.pe_ops[i]);
            }
        }
    }
}

/// Member deletions append one `Deleted` on session `sesno` for each member of
/// `prev` that the version no longer lists and that has a history, and nothing else.
proof fn lemma_child_dels_detail(st: ReplayView, prev: Seq<u64>, children: Seq<u64>, hist: Map<u64, Set<(u64, u32)>>, sesno: u32)
    ensures
        ({
            let r = child_dels(st, prev, children, hist, sesno);
            &&& forall|i: int| st.pe_ops.len() <= i < r.pe_ops.len() ==> ((#[trigger] r.pe_ops[i]).0 matches PeKey::AtSession {
                refno: c,
                sesno: s,
            } && s == sesno && prev.contains(c) && !children.contains(c) && hist.contains_key(c))
            &&& forall|c: u64| prev.contains(c) && !children.contains(c) && hist.contains_key(c) ==> exists|i: int| st.pe_ops.len() <= i
                < r.pe_ops.len() && (#[trigger] r.pe_ops[i]).0 == (PeKey::AtSession { refno: c, sesno }) && r.pe_ops[i].1
                == EleOperation::Deleted
        }),
    decreases prev.len(),
{
    if prev.len() > 0 {
        let init = prev.drop_last();
        lemma_child_dels_detail(st, init, children, hist, sesno);
        lemma_child_dels_ops(st, init, children, hist, sesno);
        let p = child_dels(st, init, children, hist, sesno);
        let r = child_dels(st, prev, children, hist, sesno);
        let c0 = prev.last();
        assert(prev[prev.len() - 1] == c0);
        assert(r.pe_ops == (if children.contains(c0) || !hist.contains_key(c0) {
            p.pe_ops
        } else {
            p.pe_ops.push((PeKey::AtSession { refno: c0, sesno }, EleOperation::Deleted, latest_version(hist[c0]).1))
        }));
        assert forall|i: int| st.pe_ops.len() <= i < r.pe_ops.len() implies ((#[trigger] r.pe_ops[i]).0 matches PeKey::AtSession {
            refno: c,
            sesno: s,
        } && s == sesno && prev.contains(c) && !children.contains(c) && hist.contains_key(c)) by {
            if i < p.pe_ops.len() {
                assert(r.pe_ops[i] == p.pe_ops[i]);
                if let PeKey::AtSession { refno: c, sesno: _s } = p.pe_ops[i].0 {
                    let j = choose|j: int| 0 <= j < init.len() && init[j] == c;
                    assert(prev[j] == c);
                }
            }
        }
        assert forall|c: u64| prev.contains(c) && !children.contains(c) && hist.contains_key(c) implies exists|i: int| st.pe_ops.len()
            <= i < r.pe_ops.len() && (#[trigger] r.pe_ops[i]).0 == (PeKey::AtSession { refno: c, sesno }) && r.pe_ops[i].1
            == EleOperation::Deleted by {
            let j = choose|j: int| 0 <= j < prev.len() && prev[j] == c;
            if j < init.len() {
                assert(init[j] == c);
                assert(init.contains(c));
                let i = choose|i: int| st.pe_ops.len() <= i < p.pe_ops.len() && (#[trigger] p.pe_ops[i]).0 == (PeKey::AtSession {
                    refno: c,
                    sesno,
                }) && p.pe_ops[i].1 == EleOperation::Deleted;
                assert(r.pe_ops[i] == p.pe_ops[i]);
            } else {
                assert(r.pe_ops[p.pe_ops.len() as int].0 == (PeKey::AtSession { refno: c, sesno }));
            }
        }
    }
}

/// The member deletions that version `k` of several stands for: its step records a
/// `Deleted` of member `c` on its session exactly when the version written back last
/// before it lists `c`, the version does not, and `c` has a history.
pub proof fn law_replay_member_deletions(
    io: PdmsIO,
    hist: Map<u64, Set<(u64, u32)>>,
    refno: u64,
    vs: Seq<(u64, u32)>,
    json: Seq<bool>,
    k: int,
)
    requires
        vs.len() > 1,
        json.len() == vs.len(),
        0 <= k < vs.len(),
        element_view(io, vs[k].0) is Some,
    ensures
        ({
            let before = replay_prefix(io, hist, refno, vs, json, k);
            let after = replay_prefix(io, hist, refno, vs, json, k + 1);
            let e = element_view(io, vs[k].0)->0;
            forall|c: u64| (exists|i: int| before.pe_ops.len() <= i < after.pe_ops.len() && (#[trigger] after.pe_ops[i]).0
                == (PeKey::AtSession { refno: c, sesno: vs[k].1 }) && after.pe_ops[i].1 == EleOperation::Deleted) <==> reference_members(
                io,
                vs,
                json,
                k,
            ).contains(c) && !e.children.contains(c) && hist.contains_key(c)
        }),
{
    law_replay_compares_with_last_written_back(io, hist, refno, vs, json, k);
    let st = replay_prefix(io, hist, refno, vs, json, k);
    let after = replay_prefix(io, hist, refno, vs, json, k + 1);
    let v = vs[k];
    let e = element_view(io, v.0)->0;
    let is_last = k == vs.len() - 1;
    let s2 = version_head(st, refno, is_last, v.1);
    let s3 = child_adds(s2, e.children, v.1);
    let s4 = child_dels(s3, st.prev_children, e.children, hist, v.1);
    lemma_child_adds_ops(s2, e.children, v.1);
    lemma_child_dels_ops(s3, st.prev_children, e.children, hist, v.1);
    lemma_child_dels_detail(s3, st.prev_children, e.children, hist, v.1);
    assert(st.prev_children == reference_members(io, vs, json, k));
    assert(after.pe_ops == s4.pe_ops);
    let n0 = st.pe_ops.len();
    let n2 = s2.pe_ops.len();
    assert(n2 == n0 || (n2 == n0 + 1 && s2.pe_ops[n0 as int].1 == EleOperation::Modified));
    assert forall|c: u64| (exists|i: int| n0 <= i < after.pe_ops.len() && (#[trigger] after.pe_ops[i]).0 == (PeKey::AtSession {
        refno: c,
        sesno: v.1,
    }) && after.pe_ops[i].1 == EleOperation::Deleted) <==> reference_members(io, vs, json, k).contains(c) && !e.children.contains(c)
        && hist.contains_key(c) by {
        if exists|i: int| n0 <= i < after.pe_ops.len() && (#[trigger] after.pe_ops[i]).0 == (PeKey::AtSession { refno: c, sesno: v.1 })
            && after.pe_ops[i].1 == EleOperation::Deleted {
            let i = choose|i: int| n0 <= i < after.pe_ops.len() && (#[trigger] after.pe_ops[i]).0 == (PeKey::AtSession {
                refno: c,
                sesno: v.1,
            }) && after.pe_ops[i].1 == EleOperation::Deleted;
            if i < n2 {
                assert(s3.pe_ops[i] == s2.pe_ops[i]);
                assert(s4.pe_ops[i] == s3.pe_ops[i]);
            } else if i < s3.pe_ops.len() {
                assert(s4.pe_ops[i] == s3.pe_ops[i]);
            }
        }
    }
}

/// Member changes keep the session operations counted so far.
proof fn lemma_member_changes_keep_ses_ops(st: ReplayView, prev: Seq<u64>, children: Seq<u64>, hist: Map<u64, Set<(u64, u32)>>, sesno: u32)
    ensures
        st.ses_ops.len() <= child_adds(st, children, sesno).ses_ops.len(),
        forall|i: int| 0 <= i < st.ses_ops.len() ==> #[trigger] child_adds(st, children, sesno).ses_ops[i] == st.ses_ops[i],
        st.ses_ops.len() <= child_dels(st, prev, children, hist, sesno).ses_ops.len(),
        forall|i: int| 0 <= i < st.ses_ops.len() ==> #[trigger] child_dels(st, prev, children, hist, sesno).ses_ops[i] == st.ses_ops[i],
    decreases prev.len() + children.len(),
{
    if prev.len() > 0 {
        lemma_member_changes_keep_ses_ops(st, prev.drop_last(), children, hist, sesno);
    }
    if children.len() > 0 {
        lemma_member_changes_keep_ses_ops(st, Seq::empty(), children.drop_last(), hist, sesno);
    }
}

/// The operation version `k` of several stands for itself, counted first on its
/// session: a modification when a version was written back before it, else an
/// addition.
pub proof fn law_replay_version_operation(
    io: PdmsIO,
    hist: Map<u64, Set<(u64, u32)>>,
    refno: u64,
    vs: Seq<(u64, u32)>,
    json: Seq<bool>,
    k: int,
)
    requires
        vs.len() > 1,
        json.len() == vs.len(),
        0 <= k < vs.len(),
        element_view(io, vs[k].0) is Some,
    ensures
        ({
            let before = replay_prefix(io, hist, refno, vs, json, k);
            let after = replay_prefix(io, hist, refno, vs, json, k + 1);
            &&& before.ses_ops.len() < after.ses_ops.len()
            &&& after.ses_ops[before.ses_ops.len() as int] == (vs[k].1, if last_written_back(io, vs, json, k) is Some {
                EleOperation::Modified
            } else {
                EleOperation::Add
            })
        }),
{
    law_replay_compares_with_last_written_back(io, hist, refno, vs, json, k);
    let st = replay_prefix(io, hist, refno, vs, json, k);
    let v = vs[k];
    let e = element_view(io, v.0)->0;
    let is_last = k == vs.len() - 1;
    let s2 = version_head(st, refno, is_last, v.1);
    let s3 = child_adds(s2, e.children, v.1);
    lemma_member_changes_keep_ses_ops(s2, st.prev_children, e.children, hist, v.1);
    lemma_member_changes_keep_ses_ops(s3, st.prev_children, e.children, hist, v.1);
    let n = st.ses_ops.len() as int;
    assert(s2.ses_ops[n] == (v.1, if st.has_prev { EleOperation::Modified } else { EleOperation::Add }));
    assert(s3.ses_ops[n] == s2.ses_ops[n]);
}

/// The member list of the version written back last before version `k`, empty when
/// none was.
pub open spec fn reference_members(io: PdmsIO, vs: Seq<(u64, u32)>, json: Seq<bool>, k: int) -> Seq<u64> {
    match last_written_back(io, vs, json, k) {
        Some(j) => element_view(io, vs[j].0)->0.children,
        None => Seq::empty(),
    }
}

/// The member additions that version `k` of several stands for: its step records an
/// `Add` of member `c` on its session exactly when the version lists `c` and the
/// version written back last before it does not.
pub proof fn law_replay_member_adds(
    io: PdmsIO,
    hist: Map<u64, Set<(u64, u32)>>,
    refno: u64,
    vs: Seq<(u64, u32)>,
    json: Seq<bool>,
    k: int,
)
    requires
        vs.len() > 1,
        json.len() == vs.len(),
        0 <= k < vs.len(),
        element_view(io, vs[k].0) is Some,
    ensures
        ({
            let before = replay_prefix(io, hist, refno, vs, json, k);
            let after = replay_prefix(io, hist, refno, vs, json, k + 1);
            let e = element_view(io, vs[k].0)->0;
            forall|c: u64| (exists|i: int| before.pe_ops.len() <= i < after.pe_ops.len() && (#[trigger] after.pe_ops[i]).0
                == (PeKey::AtSession { refno: c, sesno: vs[k].1 }) && after.pe_ops[i].1 == EleOperation::Add) <==> e.children.contains(c)
                && !reference_members(io, vs, json, k).contains(c)
        }),
{
    law_replay_compares_with_last_written_back(io, hist, refno, vs, json, k);
    let st = replay_prefix(io, hist, refno, vs, json, k);
    let after = replay_prefix(io, hist, refno, vs, json, k + 1);
    let v = vs[k];
    let e = element_view(io, v.0)->0;
    let is_last = k == vs.len() - 1;
    let s2 = version_head(st, refno, is_last, v.1);
    let s3 = child_adds(s2, e.children, v.1);
    let s4 = child_dels(s3, st.prev_children, e.children, hist, v.1);
    lemma_child_adds_ops(s2, e.children, v.1);
    lemma_child_dels_ops(s3, st.prev_children, e.children, hist, v.1);
    assert(s2.prev_children == st.prev_children);
    assert(st.has_prev ==> st.prev_children == reference_members(io, vs, json, k));
    assert(st.prev_children == reference_members(io, vs, json, k));
    assert(after.pe_ops == s4.pe_ops);
    let n0 = st.pe_ops.len();
    let n2 = s2.pe_ops.len();
    assert(n2 == n0 || (n2 == n0 + 1 && s2.pe_ops[n0 as int].1 == EleOperation::Modified));
    assert forall|c: u64| (exists|i: int| n0 <= i < after.pe_ops.len() && (#[trigger] after.pe_ops[i]).0 == (PeKey::AtSession {
        refno: c,
        sesno: v.1,
    }) && after.pe_ops[i].1 == EleOperation::Add) <==> e.children.contains(c) && !reference_members(io, vs, json, k).contains(c) by {
        if exists|i: int| n0 <= i < after.pe_ops.len() && (#[trigger] after.pe_ops[i]).0 == (PeKey::AtSession { refno: c, sesno: v.1 })
            && after.pe_ops[i].1 == EleOperation::Add {
            let i = choose|i: int| n0 <= i < after.pe_ops.len() && (#[trigger] after.pe_ops[i]).0 == (PeKey::AtSession {
                refno: c,
                sesno: v.1,
            }) && after.pe_ops[i].1 == EleOperation::Add;
            if i < n2 {
                assert(s3.pe_ops[i] == s2.pe_ops[i]);
                assert(s4.pe_ops[i] == s3.pe_ops[i]);
            } else if i < s3.pe_ops.len() {
                assert(s4.pe_ops[i] == s3.pe_ops[i]);
            }
        }
        if e.children.contains(c) && !reference_members(io, vs, json, k).contains(c) {
            let i = choose|i: int| n2 <= i < s3.pe_ops.len() && (#[trigger] s3.pe_ops[i]).0 == (PeKey::AtSession { refno: c, sesno: v.1 })
                && s3.pe_ops[i].1 == EleOperation::Add;
            assert(s4.pe_ops[i] == s3.pe_ops[i]);
        }
    }
}

/// The replay of one reference number (see `replay_version`).
pub struct RefnoReplay {
    /// `(session, operation)` for every operation counted against a session, in order.
    pub ses_ops: Vec<(u32, EleOperation)>,
    /// `(element, operation, previous session)` for every element state recorded, in order.
    pub pe_ops: Vec<(PeKey, EleOperation, u32)>,
    /// `(member, session)` for every member dropped, in order.
    pub deleted: Vec<(u64, u32)>,
    /// Offset of the only version, when there is exactly one.
    pub added_only: Option<u64>,
    /// Sessions of the versions before the last one that decode.
    pub his_sesnos: BTreeSet<u32>,
    /// `(offset, session, history record built)` of every version written back.
    pub saved: Vec<(u64, u32, bool)>,
}

impl PdmsIO {
    /// Replays the versions of `refno` listed in `history`, oldest first; `json_ready`
    /// tells for each version whether its history record could be built.
    pub fn replay_refno_history(
        &self,
        refno: u64,
        history: &BTreeMap<u64, BTreeSet<(u64, u32)>>,
        json_ready: &Vec<bool>,
    ) -> (r: RefnoReplay)
        requires
            history@.contains_key(refno),
            json_ready@.len() == ascending_pairs(history@[refno]@).len(),
            !replay_refno(*self, versions_view(history@), refno, json_ready@).missing_child,
        ensures
            ({
                let v = replay_refno(*self, versions_view(history@), refno, json_ready@);
                &&& r.ses_ops@ == v.ses_ops
                &&& r.pe_ops@ == v.pe_ops
                &&& r.deleted@ == v.deleted
                &&& r.added_only == v.added_only
                &&& r.his_sesnos@ == v.his_sesnos
                &&& r.saved@ == v.saved
            }),
    {
        broadcast use crate::order::group_key_order;

        let ghost hist = versions_view(history@);
        let set = history.get(&refno).unwrap();
        let versions = set_pairs(set);
        let ghost vs = versions@;
        let ghost json = json_ready@;
        proof {
            assert(hist[refno] == set@);
        }
        let n = versions.len();
        let mut prev_children: Vec<u64> = Vec::new();
        let mut has_prev = false;
        let mut prev_sesno: u32 = 0;
        let mut done = false;
        let mut ses_ops: Vec<(u32, EleOperation)> = Vec::new();
        let mut pe_ops: Vec<(PeKey, EleOperation, u32)> = Vec::new();
        let mut deleted: Vec<(u64, u32)> = Vec::new();
        let mut added_only: Option<u64> = None;
        let mut his_sesnos: BTreeSet<u32> = BTreeSet::new();
        let mut saved: Vec<(u64, u32, bool)> = Vec::new();
        let mut i: usize = 0;
        while i < n
            invariant
                i <= n,
                n == vs.len(),
                vs == versions@,
                json.len() == n,
                json == json_ready@,
                hist == versions_view(history@),
                vs == ascending_pairs(hist[refno]),
                !replay_prefix(*self, hist, refno, vs, json, n as int).missing_child,
                replay_prefix(*self, hist, refno, vs, json, i as int) == (ReplayView {
                    prev_children: prev_children@,
                    has_prev,
                    prev_sesno,
                    done,
                    missing_child: false,
                    ses_ops: ses_ops@,
                    pe_ops: pe_ops@,
                    deleted: deleted@,
                    added_only,
                    his_sesnos: his_sesnos@,
                    saved: saved@,
                }),
            decreases n - i,
        {
            let ghost st = replay_prefix(*self, hist, refno, vs, json, i as int);
            let (offset, sesno) = versions[i];
            if done {
            } else if n == 1 {
                ses_ops.push((sesno, EleOperation::Add));
                added_only = Some(offset);
                done = true;
            } else {
                let is_last = i == n - 1;
                match self.get_element(offset) {
                    Err(_) => {},
                    Ok(ele) => {
                        let ghost e = ele@;
                        if !is_last {
                            his_sesnos.insert(sesno);
                        }
                        let key = if is_last {
                            PeKey::Latest { refno }
                        } else {
                            PeKey::AtSession { refno, sesno }
                        };
                        if has_prev {
                            pe_ops.push((key, EleOperation::Modified, prev_sesno));
                            ses_ops.push((sesno, EleOperation::Modified));
                        } else {
                            ses_ops.push((sesno, EleOperation::Add));
                        }
                        let ghost s2: ReplayView = ReplayView {
                            prev_children: prev_children@,
                            has_prev,
                            prev_sesno,
                            done,
                            missing_child: false,
                            ses_ops: ses_ops@,
                            pe_ops: pe_ops@,
                            deleted: deleted@,
                            added_only,
                            his_sesnos: his_sesnos@,
                            saved: saved@,
                        };
                        proof {
                            assert(s2.his_sesnos =~= version_head(st, refno, is_last, sesno).his_sesnos);
                            assert(s2 == version_head(st, refno, is_last, sesno));
                        }
                        let children = &ele.children;
                        let mut c: usize = 0;
                        proof {
                            assert(children@.take(0) =~= Seq::<u64>::empty());
                        }
                        while c < children.len()
                            invariant
                                c <= children.len(),
                                children@ == e.children,
                                child_adds(s2, children@.take(c as int), sesno) == (ReplayView {
                                    prev_children: prev_children@,
                                    has_prev,
                                    prev_sesno,
                                    done,
                                    missing_child: false,
                                    ses_ops: ses_ops@,
                                    pe_ops: pe_ops@,
                                    deleted: deleted@,
                                    added_only,
                                    his_sesnos: his_sesnos@,
                                    saved: saved@,
                                }),
                            decreases children.len() - c,
                        {
                            proof {
                                assert(children@.take(c + 1).drop_last() =~= children@.take(c as int));
                                lemma_adds_keep_mark(s2, children@.take(c as int), sesno);
                            }
                            let ch = children[c];
                            if !vec_contains(&prev_children, ch) {
                                pe_ops.push((PeKey::AtSession { refno: ch, sesno }, EleOperation::Add, prev_sesno));
                                ses_ops.push((sesno, EleOperation::Add));
                            }
                            c += 1;
                        }
                        proof {
                            assert(children@.take(c as int) =~= children@);
                        }
                        let ghost s3 = child_adds(s2, e.children, sesno);
                        let ghost prev0 = prev_children@;
                        let mut d: usize = 0;
                        proof {
                            assert(prev0.take(0) =~= Seq::<u64>::empty());
                        }
                        while d < prev_children.len()
                            invariant
                                d <= prev_children.len(),
                                prev_children@ == prev0,
                                prev0 == st.prev_children,
                                i < n,
                                n == vs.len(),
                                n != 1,
                                vs == versions@,
                                json == json_ready@,
                                json.len() == n,
                                vs[i as int] == (offset, sesno),
                                is_last == (i == n - 1),
                                !st.done,
                                st == replay_prefix(*self, hist, refno, vs, json, i as int),
                                element_view(*self, offset) == Some(e),
                                s2 == version_head(st, refno, is_last, sesno),
                                s3 == child_adds(s2, e.children, sesno),
                                children@ == e.children,
                                !replay_prefix(*self, hist, refno, vs, json, n as int).missing_child,
                                hist == versions_view(history@),
                                child_dels(s3, prev0.take(d as int), e.children, hist, sesno) == (ReplayView {
                                    prev_children: prev_children@,
                                    has_prev,
                                    prev_sesno,
                                    done,
                                    missing_child: false,
                                    ses_ops: ses_ops@,
                                    pe_ops: pe_ops@,
                                    deleted: deleted@,
                                    added_only,
                                    his_sesnos: his_sesnos@,
                                    saved: saved@,
                                }),
                            decreases prev_children.len() - d,
                        {
                            proof {
                                assert(prev0.take(d + 1).drop_last() =~= prev0.take(d as int));
                            }
                            let pc = prev_children[d];
                            if !vec_contains(children, pc) {
                                match history.get(&pc) {
                                    None => {
                                        proof {
                                            assert(child_dels(s3, prev0.take(d + 1), e.children, hist, sesno).missing_child);
                                            lemma_dels_keep_mark(s3, prev0, e.children, hist, sesno, d + 1);
                                            assert(replay_version(*self, hist, refno, n as int, i as int, vs[i as int], json[i as int], st).missing_child);
                                            lemma_prefix_keeps_mark(*self, hist, refno, vs, json, i + 1);
                                        }
                                        assert(false);
                                    },
                                    Some(child_set) => {
                                        let latest = latest_version_sesno(child_set);
                                        deleted.push((pc, sesno));
                                        pe_ops.push((PeKey::AtSession { refno: pc, sesno }, EleOperation::Deleted, latest));
                                        ses_ops.push((sesno, EleOperation::Deleted));
                                    },
                                }
                            }
                            d += 1;
                        }
                        proof {
                            assert(prev0.take(d as int) =~= prev0);
                        }
                        if is_last {
                            done = true;
                        } else if json_ready[i] {
                            saved.push((offset, sesno, true));
                            has_prev = true;
                            prev_children = ele.children;
                            prev_sesno = sesno;
                        } else {
                            saved.push((offset, sesno, false));
                        }
                    },
                }
            }
            i += 1;
        }
        RefnoReplay { ses_ops, pe_ops, deleted, added_only, his_sesnos, saved }
    }
}


/// Element states recorded by replays in order: a later state of the same key
/// replaces an earlier one.
pub open spec fn apply_pe_ops(
    latest: Map<u64, (EleOperation, u32)>,
    at: Map<(u64, u32), (EleOperation, u32)>,
    ops: Seq<(PeKey, EleOperation, u32)>,
) -> (Map<u64, (EleOperation, u32)>, Map<(u64, u32), (EleOperation, u32)>)
    decreases ops.len(),
{
    if ops.len() == 0 {
        (latest, at)
    } else {
        let (l, a) = apply_pe_ops(latest, at, ops.drop_last());
        let o = ops.last();
        match o.0 {
            PeKey::Latest { refno } => (l.insert(refno, (o.1, o.2)), a),
            PeKey::AtSession { refno, sesno } => (l, a.insert((refno, sesno), (o.1, o.2))),
        }
    }
}

/// Dropped members in order: a later session replaces an earlier one.
pub open spec fn apply_deleted(m: Map<u64, u32>, ds: Seq<(u64, u32)>) -> Map<u64, u32>
    decreases ds.len(),
{
    if ds.len() == 0 {
        m
    } else {
        apply_deleted(m, ds.drop_last()).insert(ds.last().0, ds.last().1)
    }
}

/// The whole history replayed, reference number by reference number in ascending
/// order: every session operation in order, the last recorded state of every
/// element key, the last deletion session of every dropped member, the offset of
/// every single-version element, the history sessions of every element that has
/// any, and every version written back.
pub struct PlanView {
    pub ses_ops: Seq<(u32, EleOperation)>,
    pub latest_ops: Map<u64, (EleOperation, u32)>,
    pub session_ops: Map<(u64, u32), (EleOperation, u32)>,
    pub deleted: Map<u64, u32>,
    pub added_only: Map<u64, u64>,
    pub his_records: Seq<(u64, Set<u32>)>,
    pub saved: Seq<(u64, u64, u32, bool)>,
}

pub open spec fn plan_start() -> PlanView {
    PlanView {
        ses_ops: Seq::empty(),
        latest_ops: Map::empty(),
        session_ops: Map::empty(),
        deleted: Map::empty(),
        added_only: Map::empty(),
        his_records: Seq::empty(),
        saved: Seq::empty(),
    }
}

pub open spec fn tag_saved(refno: u64, s: Seq<(u64, u32, bool)>) -> Seq<(u64, u64, u32, bool)> {
    s.map_values(|x: (u64, u32, bool)| (refno, x.0, x.1, x.2))
}

/// Merges the replay `v` of `refno` into the plan.
pub open spec fn plan_step(p: PlanView, refno: u64, v: ReplayView) -> PlanView {
    let (l, a) = apply_pe_ops(p.latest_ops, p.session_ops, v.pe_ops);
    PlanView {
        ses_ops: p.ses_ops + v.ses_ops,
        latest_ops: l,
        session_ops: a,
        deleted: apply_deleted(p.deleted, v.deleted),
        added_only: match v.added_only {
            Some(o) => p.added_only.insert(refno, o),
            None => p.added_only,
        },
        his_records: if v.his_sesnos.is_empty() {
            p.his_records
        } else {
            p.his_records.push((refno, v.his_sesnos))
        },
        saved: p.saved + tag_saved(refno, v.saved),
    }
}

/// The first `k` reference numbers of `keys` replayed and merged.
pub open spec fn plan_prefix(
    io: PdmsIO,
    hist: Map<u64, Set<(u64, u32)>>,
    json: Map<u64, Seq<bool>>,
    keys: Seq<u64>,
    k: int,
) -> PlanView
    decreases k,
{
    if k <= 0 {
        plan_start()
    } else {
        let refno = keys[k - 1];
        plan_step(plan_prefix(io, hist, json, keys, k - 1), refno, replay_refno(io, hist, refno, json[refno]))
    }
}

/// The plan of the whole history.
pub open spec fn history_plan(io: PdmsIO, hist: Map<u64, Set<(u64, u32)>>, json: Map<u64, Seq<bool>>) -> PlanView {
    let keys = ascending_keys(hist.dom());
    plan_prefix(io, hist, json, keys, keys.len() as int)
}

/// Members dropped by an owner that have exactly one version, by ascending reference
/// number among `keys`: `(refno, deletion session, offset of the version)`.
pub open spec fn restored_of(keys: Seq<u64>, deleted: Map<u64, u32>, added: Map<u64, u64>) -> Seq<(u64, u32, u64)>
    decreases keys.len(),
{
    if keys.len() == 0 {
        Seq::empty()
    } else {
        let r = restored_of(keys.drop_last(), deleted, added);
        let k = keys.last();
        if added.contains_key(k) {
            r.push((k, deleted[k], added[k]))
        } else {
            r
        }
    }
}

pub open spec fn json_views(m: Map<u64, Vec<bool>>) -> Map<u64, Seq<bool>> {
    m.map_values(|v: Vec<bool>| v@)
}

/// Every element of the history can be replayed: its history-record answers are
/// given, one per version, and every member a version drops has a history itself.
pub open spec fn plan_ready(io: PdmsIO, history: Map<u64, BTreeSet<(u64, u32)>>, json: Map<u64, Vec<bool>>) -> bool {
    forall|k: u64| #[trigger] history.contains_key(k) ==> {
        &&& json.contains_key(k)
        &&& json[k]@.len() == ascending_pairs(history[k]@).len()
        &&& !replay_refno(io, versions_view(history), k, json[k]@).missing_child
    }
}

/// The products of a history replay (see `PlanView` and `restored_of`).
#[derive(Debug)]
pub struct HistoryPlan {
    pub ses_ops: Vec<(u32, EleOperation)>,
    pub latest_ops: BTreeMap<u64, (EleOperation, u32)>,
    pub session_ops: BTreeMap<(u64, u32), (EleOperation, u32)>,
    pub deleted: BTreeMap<u64, u32>,
    pub added_only: BTreeMap<u64, u64>,
    pub his_records: Vec<(u64, BTreeSet<u32>)>,
    pub saved: Vec<(u64, u64, u32, bool)>,
    /// Single-version elements that an owner dropped: `(refno, deletion session, offset)`.
    pub restored: Vec<(u64, u32, u64)>,
}

pub open spec fn his_views(s: Seq<(u64, BTreeSet<u32>)>) -> Seq<(u64, Set<u32>)> {
    s.map_values(|x: (u64, BTreeSet<u32>)| (x.0, x.1@))
}

impl PdmsIO {
    /// Replays the whole history (see `history_plan`), then lists the single-version
    /// elements that an owner dropped (see `restored_of`).
    pub fn plan_history_sync(
        &self,
        history: &BTreeMap<u64, BTreeSet<(u64, u32)>>,
        json: &BTreeMap<u64, Vec<bool>>,
    ) -> (r: HistoryPlan)
        requires
            plan_ready(*self, history@, json@),
        ensures
            ({
                let p = history_plan(*self, versions_view(history@), json_views(json@));
                &&& r.ses_ops@ == p.ses_ops
                &&& r.latest_ops@ == p.latest_ops
                &&& r.session_ops@ == p.session_ops
                &&& r.deleted@ == p.deleted
                &&& r.added_only@ == p.added_only
                &&& his_views(r.his_records@) == p.his_records
                &&& r.saved@ == p.saved
                &&& r.restored@ == restored_of(ascending_keys(p.deleted.dom()), p.deleted, p.added_only)
            }),
    {
        broadcast use crate::order::group_key_order;

        let ghost hist = versions_view(history@);
        let ghost jv = json_views(json@);
        let mut ses_ops: Vec<(u32, EleOperation)> = Vec::new();
        let mut latest_ops: BTreeMap<u64, (EleOperation, u32)> = BTreeMap::new();
        let mut session_ops: BTreeMap<(u64, u32), (EleOperation, u32)> = BTreeMap::new();
        let mut deleted: BTreeMap<u64, u32> = BTreeMap::new();
        let mut added_only: BTreeMap<u64, u64> = BTreeMap::new();
        let mut his_records: Vec<(u64, BTreeSet<u32>)> = Vec::new();
        let mut saved: Vec<(u64, u64, u32, bool)> = Vec::new();
        let iter = history.iter();
        let ghost s0 = iter.remaining();
        let ghost keys = s0.map_values(|kv: (&u64, &BTreeSet<(u64, u32)>)| *kv.0);
        proof {
            crate::order::lemma_increasing_u64_keys(s0);
            assert(his_views(his_records@) =~= Seq::<(u64, Set<u32>)>::empty());
        }
        for kv in it: iter
            invariant
                it.seq() == s0,
                keys == s0.map_values(|kv: (&u64, &BTreeSet<(u64, u32)>)| *kv.0),
                forall|j: int| 0 <= j < s0.len() ==> history@.contains_key(*(#[trigger] s0[j]).0),
                hist == versions_view(history@),
                jv == json_views(json@),
                plan_ready(*self, history@, json@),
                plan_prefix(*self, hist, jv, keys, it.index() as int) == (PlanView {
                    ses_ops: ses_ops@,
                    latest_ops: latest_ops@,
                    session_ops: session_ops@,
                    deleted: deleted@,
                    added_only: added_only@,
                    his_records: his_views(his_records@),
                    saved: saved@,
                }),
        {
            let ghost idx = it.index();
            let ghost p0 = plan_prefix(*self, hist, jv, keys, idx as int);
            let (refno_ref, _versions) = kv;
            let refno = *refno_ref;
            proof {
                assert(s0[idx as int] == kv);
                assert(keys[idx as int] == refno);
                assert(history@.contains_key(refno));
                assert(json@.contains_key(refno));
                assert(jv[refno] == json@[refno]@);
            }
            let answers = json.get(&refno).unwrap();
            let rep = self.replay_refno_history(refno, history, answers);
            let ghost v = replay_refno(*self, hist, refno, jv[refno]);
            let mut a: usize = 0;
            let ghost ses0 = ses_ops@;
            while a < rep.ses_ops.len()
                invariant
                    a <= rep.ses_ops.len(),
                    ses_ops@ == ses0 + rep.ses_ops@.take(a as int),
                decreases rep.ses_ops.len() - a,
            {
                ses_ops.push(rep.ses_ops[a]);
                a += 1;
                proof {
                    assert(rep.ses_ops@.take(a as int) =~= rep.ses_ops@.take(a - 1).push(rep.ses_ops@[a - 1]));
                }
            }
            proof {
                assert(rep.ses_ops@.take(a as int) =~= rep.ses_ops@);
            }
            let ghost l0 = latest_ops@;
            let ghost at0 = session_ops@;
            let mut b: usize = 0;
            while b < rep.pe_ops.len()
                invariant
                    b <= rep.pe_ops.len(),
                    (latest_ops@, session_ops@) == apply_pe_ops(l0, at0, rep.pe_ops@.take(b as int)),
                decreases rep.pe_ops.len() - b,
            {
                proof {
                    assert(rep.pe_ops@.take(b + 1).drop_last() =~= rep.pe_ops@.take(b as int));
                }
                let (key, op, prev) = rep.pe_ops[b];
                match key {
                    PeKey::Latest { refno: k } => {
                        latest_ops.insert(k, (op, prev));
                    },
                    PeKey::AtSession { refno: k, sesno } => {
                        session_ops.insert((k, sesno), (op, prev));
                    },
                }
                b += 1;
            }
            proof {
                assert(rep.pe_ops@.take(b as int) =~= rep.pe_ops@);
            }
            let ghost d0 = deleted@;
            let mut c: usize = 0;
            while c < rep.deleted.len()
                invariant
                    c <= rep.deleted.len(),
                    deleted@ == apply_deleted(d0, rep.deleted@.take(c as int)),
                decreases rep.deleted.len() - c,
            {
                proof {
                    assert(rep.deleted@.take(c + 1).drop_last() =~= rep.deleted@.take(c as int));
                }
                let (m, sesno) = rep.deleted[c];
                deleted.insert(m, sesno);
                c += 1;
            }
            proof {
                assert(rep.deleted@.take(c as int) =~= rep.deleted@);
            }
            match rep.added_only {
                Some(o) => {
                    added_only.insert(refno, o);
                },
                None => {},
            }
            let ghost sv0 = saved@;
            let mut e: usize = 0;
            while e < rep.saved.len()
                invariant
                    e <= rep.saved.len(),
                    saved@ == sv0 + tag_saved(refno, rep.saved@.take(e as int)),
                decreases rep.saved.len() - e,
            {
                let (o, sesno, with_att) = rep.saved[e];
                saved.push((refno, o, sesno, with_att));
                e += 1;
                proof {
                    assert(tag_saved(refno, rep.saved@.take(e as int)) =~= tag_saved(refno, rep.saved@.take(e - 1)).push(
                        (refno, o, sesno, with_att),
                    ));
                }
            }
            proof {
                assert(rep.saved@.take(e as int) =~= rep.saved@);
            }
            let ghost hr0 = his_records@;
            if !rep.his_sesnos.is_empty() {
                his_records.push((refno, rep.his_sesnos));
                proof {
                    assert(his_views(his_records@) =~= his_views(hr0).push((refno, v.his_sesnos)));
                }
            }
            proof {
                assert(keys.take(idx + 1).drop_last() =~= keys.take(idx as int));
                assert(plan_prefix(*self, hist, jv, keys, idx + 1) == plan_step(p0, refno, v));
            }
        }
        proof {
            assert(keys.to_set() =~= history@.dom()) by {
                assert forall|x: u64| keys.to_set().contains(x) <==> history@.dom().contains(x) by {
                    if keys.to_set().contains(x) {
                        let j = choose|j: int| 0 <= j < keys.len() && keys[j] == x;
                        assert(history@.contains_key(*s0[j].0));
                    }
                    if history@.dom().contains(x) {
                        assert(s0.contains((&x, &history@[x])));
                        let j = choose|j: int| 0 <= j < s0.len() && s0[j] == (&x, &history@[x]);
                        assert(keys[j] == x);
                    }
                }
            }
            assert(hist.dom() =~= history@.dom());
            assert(strictly_increasing(keys));
            lemma_ascending_unique(ascending_keys(hist.dom()), keys);
        }
        let restored = restore_candidates(&deleted, &added_only);
        HistoryPlan { ses_ops, latest_ops, session_ops, deleted, added_only, his_records, saved, restored }
    }
}

/// Members dropped by an owner that have exactly one version (see `restored_of`).
pub fn restore_candidates(deleted: &BTreeMap<u64, u32>, added_only: &BTreeMap<u64, u64>) -> (r: Vec<(u64, u32, u64)>)
    ensures
        r@ == restored_of(ascending_keys(deleted@.dom()), deleted@, added_only@),
{
    broadcast use crate::order::group_key_order;

    let mut r: Vec<(u64, u32, u64)> = Vec::new();
    let iter = deleted.iter();
    let ghost s0 = iter.remaining();
    let ghost keys = s0.map_values(|kv: (&u64, &u32)| *kv.0);
    proof {
        crate::order::lemma_increasing_u64_keys(s0);
    }
    for kv in it: iter
        invariant
            it.seq() == s0,
            keys == s0.map_values(|kv: (&u64, &u32)| *kv.0),
            forall|j: int| 0 <= j < s0.len() ==> deleted@.contains_key(*(#[trigger] s0[j]).0) && deleted@[*s0[j].0] == *s0[j].1,
            r@ == restored_of(keys.take(it.index() as int), deleted@, added_only@),
    {
        let ghost idx = it.index();
        let (k, sesno) = kv;
        proof {
            assert(s0[idx as int] == kv);
            assert(keys.take(idx + 1).drop_last() =~= keys.take(idx as int));
            assert(keys.take(idx + 1).last() == *k);
        }
        match added_only.get(k) {
            Some(o) => {
                r.push((*k, *sesno, *o));
            },
            None => {},
        }
    }
    proof {
        assert(keys.take(s0.len() as int) =~= keys);
        assert forall|x: u64| keys.to_set().contains(x) <==> deleted@.dom().contains(x) by {
            if keys.to_set().contains(x) {
                let j = choose|j: int| 0 <= j < keys.len() && keys[j] == x;
                assert(deleted@.contains_key(*s0[j].0));
            }
            if deleted@.dom().contains(x) {
                assert(s0.contains((&x, &deleted@[x])));
                let j = choose|j: int| 0 <= j < s0.len() && s0[j] == (&x, &deleted@[x]);
                assert(keys[j] == x);
            }
        }
        assert(keys.to_set() =~= deleted@.dom());
        lemma_ascending_unique(ascending_keys(deleted@.dom()), keys);
    }
    r
}

/// How many operations of kind `op` the list counts against session `s`.
pub open spec fn count_ops(ops: Seq<(u32, EleOperation)>, s: u32, op: EleOperation) -> nat
    decreases ops.len(),
{
    if ops.len() == 0 {
        0
    } else {
        count_ops(ops.drop_last(), s, op) + if ops.last() == (s, op) {
            1nat
        } else {
            0nat
        }
    }
}

proof fn lemma_count_ops_bound(ops: Seq<(u32, EleOperation)>, s: u32, op: EleOperation)
    ensures
        count_ops(ops, s, op) <= ops.len(),
    decreases ops.len(),
{
    if ops.len() > 0 {
        lemma_count_ops_bound(ops.drop_last(), s, op);
    }
}

/// Per session that has operations: how many additions, modifications and
/// deletions the list counts against it.
pub fn count_session_ops(ops: &Vec<(u32, EleOperation)>) -> (r: BTreeMap<u32, (usize, usize, usize)>)
    ensures
        forall|s: u32| #[trigger] r@.contains_key(s) <==> exists|i: int| 0 <= i < ops@.len() && ops@[i].0 == s,
        forall|s: u32| #[trigger] r@.contains_key(s) ==> r@[s] == (
            count_ops(ops@, s, EleOperation::Add) as usize,
            count_ops(ops@, s, EleOperation::Modified) as usize,
            count_ops(ops@, s, EleOperation::Deleted) as usize,
        ),
{
    broadcast use crate::order::group_key_order;

    let mut r: BTreeMap<u32, (usize, usize, usize)> = BTreeMap::new();
    let mut i: usize = 0;
    while i < ops.len()
        invariant
            i <= ops.len(),
            forall|s: u32| #[trigger] r@.contains_key(s) <==> exists|j: int| 0 <= j < i && ops@[j].0 == s,
            forall|s: u32| #[trigger] r@.contains_key(s) ==> r@[s].0 == count_ops(ops@.take(i as int), s, EleOperation::Add)
                && r@[s].1 == count_ops(ops@.take(i as int), s, EleOperation::Modified) && r@[s].2 == count_ops(
                ops@.take(i as int),
                s,
                EleOperation::Deleted,
            ),
        decreases ops.len() - i,
    {
        let (s, op) = ops[i];
        let ghost t0 = ops@.take(i as int);
        let ghost t1 = ops@.take(i + 1);
        proof {
            assert(t1.drop_last() =~= t0);
            assert(t1.last() == (s, op));
            lemma_count_ops_bound(t0, s, EleOperation::Add);
            lemma_count_ops_bound(t0, s, EleOperation::Modified);
            lemma_count_ops_bound(t0, s, EleOperation::Deleted);
            assert forall|x: u32, o: EleOperation| x != s implies count_ops(t1, x, o) == count_ops(t0, x, o) by {}
        }
        let (add, modified, del) = match r.get(&s) {
            Some(c) => *c,
            None => {
                proof {
                    if count_ops(t0, s, EleOperation::Add) > 0 || count_ops(t0, s, EleOperation::Modified) > 0 || count_ops(
                        t0,
                        s,
                        EleOperation::Deleted,
                    ) > 0 {
                        lemma_count_has_session(t0, s);
                    }
                }
                (0, 0, 0)
            },
        };
        let next = match op {
            EleOperation::Add => (add + 1, modified, del),
            EleOperation::Modified => (add, modified + 1, del),
            EleOperation::Deleted => (add, modified, del + 1),
        };
        r.insert(s, next);
        i += 1;
        proof {
            assert forall|x: u32| #[trigger] r@.contains_key(x) <==> exists|j: int| 0 <= j < i && ops@[j].0 == x by {
                if r@.contains_key(x) && x != s {
                    let j = choose|j: int| 0 <= j < i - 1 && ops@[j].0 == x;
                }
            }
        }
    }
    proof {
        assert(ops@.take(i as int) =~= ops@);
    }
    r
}

/// A session with a counted operation appears in the list.
proof fn lemma_count_has_session(ops: Seq<(u32, EleOperation)>, s: u32)
    requires
        count_ops(ops, s, EleOperation::Add) > 0 || count_ops(ops, s, EleOperation::Modified) > 0 || count_ops(
            ops,
            s,
            EleOperation::Deleted,
        ) > 0,
    ensures
        exists|j: int| 0 <= j < ops.len() && ops[j].0 == s,
    decreases ops.len(),
{
    if ops.len() > 0 {
        if ops.last().0 == s {
            assert(ops[ops.len() - 1].0 == s);
        } else {
            lemma_count_has_session(ops.drop_last(), s);
            let j = choose|j: int| 0 <= j < ops.drop_last().len() && ops.drop_last()[j].0 == s;
            assert(ops[j].0 == s);
        }
    }
}


/// The restore candidates whose version page belongs to a session and whose record
/// decodes: `(refno, deletion session, offset, session of the version, element)`.
pub open spec fn restorable(io: PdmsIO, rs: Seq<(u64, u32, u64)>) -> Seq<(u64, u32, u64, u32, EleView)>
    decreases rs.len(),
{
    if rs.len() == 0 {
        Seq::empty()
    } else {
        let r = restorable(io, rs.drop_last());
        let c = rs.last();
        match page_sesno_of(io, (c.2 / 0x800) as u32) {
            None => r,
            Some(a) => match element_view(io, c.2) {
                None => r,
                Some(e) => r.push((c.0, c.1, c.2, a, e)),
            },
        }
    }
}

impl PdmsIO {
    /// The restore candidates that can be restored (see `restorable`), in order.
    pub fn restore_versions(&self, restored: &Vec<(u64, u32, u64)>) -> (r: Vec<(u64, u32, u64, u32, EleData)>)
        ensures
            r@.len() == restorable(*self, restored@).len(),
            forall|i: int| 0 <= i < r@.len() ==> ({
                let x = #[trigger] r@[i];
                let y = restorable(*self, restored@)[i];
                x.0 == y.0 && x.1 == y.1 && x.2 == y.2 && x.3 == y.3 && x.4@ == y.4
            }),
    {
        let mut r: Vec<(u64, u32, u64, u32, EleData)> = Vec::new();
        let mut i: usize = 0;
        while i < restored.len()
            invariant
                i <= restored.len(),
                r@.len() == restorable(*self, restored@.take(i as int)).len(),
                forall|k: int| 0 <= k < r@.len() ==> ({
                    let x = #[trigger] r@[k];
                    let y = restorable(*self, restored@.take(i as int))[k];
                    x.0 == y.0 && x.1 == y.1 && x.2 == y.2 && x.3 == y.3 && x.4@ == y.4
                }),
            decreases restored.len() - i,
        {
            let (refno, del_sesno, offset) = restored[i];
            let ghost t0 = restored@.take(i as int);
            let ghost t1 = restored@.take(i + 1);
            proof {
                assert(t1.drop_last() =~= t0);
                assert(t1.last() == (refno, del_sesno, offset));
            }
            let pg = (offset / 0x800) as u32;
            match self.get_sesno(pg) {
                None => {},
                Some(add_sesno) => {
                    proof {
                        let t = choose|t: i32| is_least_session_of(self.ses_range_map@, pg, t) && add_sesno == t as u32;
                        let c = choose|t: i32| is_least_session_of(self.ses_range_map@, pg, t);
                        lemma_least_session_unique(self.ses_range_map@, pg, t, c);
                        assert(page_sesno_of(*self, pg) == Some(add_sesno));
                    }
                    match self.get_element(offset) {
                        Err(_) => {},
                        Ok(ele) => {
                            r.push((refno, del_sesno, offset, add_sesno, ele));
                        },
                    }
                },
            }
            i += 1;
        }
        proof {
            assert(restored@.take(i as int) =~= restored@);
        }
        r
    }
}

/// Scanning `q` from its end, the session of the first pair whose session is at
/// most `sesno`; 0 when there is none.
pub open spec fn last_at_most(q: Seq<(u64, u32)>, sesno: u32) -> u32
    decreases q.len(),
{
    if q.len() == 0 {
        0
    } else if q.last().1 <= sesno {
        q.last().1
    } else {
        last_at_most(q.drop_last(), sesno)
    }
}

/// The session of the member version an owner relation as of `sesno` points at:
/// the session the store answered (`queried`: member session, latest session); when
/// it answered nothing, the member's own history decides (`None` when the member
/// has none).
pub open spec fn relate_sesno(his: Map<u64, Set<(u64, u32)>>, child: u64, sesno: u32, queried: (u32, u32)) -> Option<u32> {
    if queried.1 == 0 && queried.0 == 0 {
        if his.contains_key(child) {
            Some(last_at_most(ascending_pairs(his[child]), sesno))
        } else {
            None
        }
    } else {
        Some(queried.0)
    }
}

/// The owner relations of the members `children` of a version as of `sesno`:
/// `(position, member, member session)` for every member that `relate_sesno`
/// places, in order. `queried` holds the store's answer for each member.
pub open spec fn owner_relates(
    his: Map<u64, Set<(u64, u32)>>,
    children: Seq<u64>,
    sesno: u32,
    queried: Seq<(u32, u32)>,
) -> Seq<(usize, u64, u32)>
    decreases children.len(),
{
    if children.len() == 0 {
        Seq::empty()
    } else {
        let k = children.len() - 1;
        let r = owner_relates(his, children.drop_last(), sesno, queried);
        match relate_sesno(his, children[k], sesno, queried[k]) {
            None => r,
            Some(cs) => r.push((k as usize, children[k], cs)),
        }
    }
}

/// The owner relations of the members of a version (see `owner_relates`).
pub fn gen_owner_relates_h(
    his_map: &BTreeMap<u64, BTreeSet<(u64, u32)>>,
    children: &Vec<u64>,
    sesno: u32,
    queried: &Vec<(u32, u32)>,
) -> (r: Vec<(usize, u64, u32)>)
    requires
        queried@.len() == children@.len(),
    ensures
        r@ == owner_relates(versions_view(his_map@), children@, sesno, queried@),
{
    broadcast use crate::order::group_key_order;

    let ghost his = versions_view(his_map@);
    let mut r: Vec<(usize, u64, u32)> = Vec::new();
    let mut i: usize = 0;
    while i < children.len()
        invariant
            i <= children.len(),
            queried@.len() == children@.len(),
            his == versions_view(his_map@),
            r@ == owner_relates(his, children@.take(i as int), sesno, queried@),
        decreases children.len() - i,
    {
        let child = children[i];
        let (child_sesno, latest_sesno) = queried[i];
        proof {
            assert(children@.take(i + 1).drop_last() =~= children@.take(i as int));
            assert(children@.take(i + 1)[i as int] == child);
        }
        if latest_sesno == 0 && child_sesno == 0 {
            match his_map.get(&child) {
                None => {},
                Some(locs) => {
                    let q = set_pairs(locs);
                    let mut j: usize = q.len();
                    let mut found: u32 = 0;
                    proof {
                        assert(q@.take(j as int) =~= q@);
                    }
                    while j > 0
                        invariant_except_break
                            j <= q.len(),
                            found == 0,
                            last_at_most(q@, sesno) == last_at_most(q@.take(j as int), sesno),
                        ensures
                            found == last_at_most(q@, sesno),
                        decreases j,
                    {
                        proof {
                            assert(q@.take(j as int).drop_last() =~= q@.take(j - 1));
                            assert(q@.take(j as int).last() == q@[j - 1]);
                        }
                        if q[j - 1].1 <= sesno {
                            found = q[j - 1].1;
                            break;
                        }
                        j -= 1;
                    }
                    proof {
                        assert(his[child] == locs@);
                    }
                    r.push((i, child, found));
                },
            }
        } else {
            r.push((i, child, child_sesno));
        }
        i += 1;
    }
    proof {
        assert(children@.take(i as int) =~= children@);
    }
    r
}

} // verus!
