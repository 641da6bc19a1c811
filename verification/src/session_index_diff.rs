//! Session index diff: given a dabacon database file and a session window, decide
//! the net additions, deletions and modifications of the window from the file
//! alone, without decoding records and without consulting any other store.
//!
//! Every session page carries the index root of its time. The index is a
//! copy-on-write B+ tree: pages are never rewritten, a changed record lands on a
//! new page, and an untouched subtree has the same page number in both trees.
//! Pages are appended, so a page whose number is at most the base session's end
//! page already existed at base time: a branch of the target tree pointing at such
//! a page is a shared subtree.
use std::collections::{BTreeMap, BTreeSet};
use std::ops::RangeInclusive;
use std::time::Instant;

use vstd::prelude::*;
use vstd::std_specs::iter::IteratorSpec;

use crate::order::{lemma_increasing_i32_keys, lemma_increasing_u64_keys};
use crate::text::{decimal_spec, push_decimal, push_signed, signed_spec};
use vstd::string::StringExecFns;
use crate::defines::{copy_index_page, IndexPageData, RefnoDataLoc};
use crate::io::{chain_error, chain_maps, has_session_of, is_least_session_of, lemma_chain_error_iff, record_at, ses_page_at, IoError, PdmsIO};

verus! {

/// Physical position of an element record (leaf entry `(pgno, offset)`).
#[derive(Clone, Copy, Debug, PartialEq, Eq, Structural)]
pub struct RecordLoc {
    pub pgno: u32,
    pub offset: u32,
}

impl RecordLoc {
    pub open spec fn spec_att_offset(self) -> u64 {
        (self.pgno as int * 0x800 + self.offset as int * 2) as u64
    }

    /// Byte offset of the record: pages are 2 KiB, offsets count 2-byte words.
    pub fn att_offset(&self) -> (r: u64)
        ensures
            r == self.spec_att_offset(),
            r as int == self.pgno as int * 0x800 + self.offset as int * 2,
    {
        self.pgno as u64 * 0x800 + self.offset as u64 * 2
    }
}

/// Half-open routing interval `[lower, upper)` over packed keys; `None` is unbounded.
#[derive(Clone, Copy, Debug, PartialEq, Eq, Structural)]
pub struct KeyBounds {
    pub lower: Option<u64>,
    pub upper: Option<u64>,
}

pub open spec fn spec_contains(b: KeyBounds, key: u64) -> bool {
    (match b.lower {
        Some(l) => key >= l,
        None => true,
    }) && (match b.upper {
        Some(u) => key < u,
        None => true,
    })
}

pub open spec fn spec_max_opt(a: Option<u64>, b: Option<u64>) -> Option<u64> {
    match (a, b) {
        (Some(x), Some(y)) => Some(if x >= y { x } else { y }),
        (Some(x), None) => Some(x),
        (None, y) => y,
    }
}

pub open spec fn spec_min_opt(a: Option<u64>, b: Option<u64>) -> Option<u64> {
    match (a, b) {
        (Some(x), Some(y)) => Some(if x <= y { x } else { y }),
        (Some(x), None) => Some(x),
        (None, y) => y,
    }
}

impl KeyBounds {
    pub open spec fn unbounded() -> KeyBounds {
        KeyBounds { lower: None, upper: None }
    }

    /// Whether `key` lies in the interval.
    pub fn contains(&self, key: u64) -> (r: bool)
        ensures
            r == spec_contains(*self, key),
    {
        let above = match self.lower {
            Some(lower) => key >= lower,
            None => true,
        };
        let below = match self.upper {
            Some(upper) => key < upper,
            None => true,
        };
        above && below
    }

    /// Child interval: this interval intersected with `[child_lower, child_upper)`.
    pub fn narrowed(&self, child_lower: Option<u64>, child_upper: Option<u64>) -> (r: KeyBounds)
        ensures
            r.lower == spec_max_opt(self.lower, child_lower),
            r.upper == spec_min_opt(self.upper, child_upper),
    {
        let lower = match (self.lower, child_lower) {
            (Some(a), Some(b)) => Some(if a >= b { a } else { b }),
            (Some(a), None) => Some(a),
            (None, b) => b,
        };
        let upper = match (self.upper, child_upper) {
            (Some(a), Some(b)) => Some(if a <= b { a } else { b }),
            (Some(a), None) => Some(a),
            (None, b) => b,
        };
        KeyBounds { lower, upper }
    }

    /// Whether the interval holds no key at all (both ends bounded, lower ≥ upper).
    pub fn is_empty(&self) -> (r: bool)
        ensures
            r == (self.lower is Some && self.upper is Some && self.lower->0 >= self.upper->0),
    {
        match (self.lower, self.upper) {
            (Some(lower), Some(upper)) => lower >= upper,
            _ => false,
        }
    }
}

/// Narrowing is intersection: a key lies in the narrowed interval exactly when it
/// lies in the parent interval and in `[child_lower, child_upper)`.
pub proof fn law_narrowed_is_intersection(
    b: KeyBounds,
    child_lower: Option<u64>,
    child_upper: Option<u64>,
    key: u64,
)
    ensures
        spec_contains(
            KeyBounds { lower: spec_max_opt(b.lower, child_lower), upper: spec_min_opt(b.upper, child_upper) },
            key,
        ) <==> (spec_contains(b, key) && spec_contains(
            KeyBounds { lower: child_lower, upper: child_upper },
            key,
        )),
{
}

/// An interval reported empty contains no key, and a non-empty one contains its
/// lower end (or 0 when unbounded below).
pub proof fn law_is_empty_means_no_key(b: KeyBounds, key: u64)
    ensures
        (b.lower is Some && b.upper is Some && b.lower->0 >= b.upper->0) ==> !spec_contains(b, key),
        !(b.lower is Some && b.upper is Some && b.lower->0 >= b.upper->0) && b.upper != Some(0u64)
            ==> spec_contains(b, match b.lower { Some(l) => l, None => 0u64 }),
{
}

/// The error of a window diff.
#[derive(Debug, Clone, Copy, PartialEq, Eq, Structural)]
pub enum DiffError {
    /// The window start is below 1.
    StartBelowOne { start: i32 },
    /// The window start is after its end.
    EmptyWindow { start: i32, end: i32 },
    /// The file has no session page.
    NoSessions,
    /// The window end lies beyond the newest session of the file.
    EndBeyondLatest { end: i32, latest: i32 },
    /// No session lies at or before the window end.
    NoSessionBeforeEnd { end: i32 },
    /// The target index root does not lie above the base session's end page.
    TargetRootNotNew { base_root: u32, base_end_pgno: u32, target_root: u32 },
    /// The index root page could not be read.
    UnreadableRoot { pgno: u32 },
    /// The file image could not be opened.
    Open { error: IoError },
    /// A session of the window is not in the session map.
    UnknownSession { sesno: i32 },
    /// A session page could not be read.
    UnreadableSessionPage { sesno: i32, ses_pgno: u32 },
    /// A record page belongs to no session range.
    NoLastTouchSession { refno: u64, pgno: u32 },
}

/// The message of a window diff error.
pub open spec fn diff_message(e: DiffError) -> Seq<char> {
    match e {
        DiffError::StartBelowOne { start } => "窗口起点必须 ≥ 1，得到 "@ + signed_spec(start as int),
        DiffError::EmptyWindow { start, end } => "非法窗口 "@ + signed_spec(start as int) + "..="@ + signed_spec(end as int),
        DiffError::NoSessions => "文件里没有任何会话页"@,
        DiffError::EndBeyondLatest { end, latest } => "窗口终点 "@ + signed_spec(end as int) + " 超出文件最新会话 "@ + signed_spec(
            latest as int,
        ) + "，不猜——先确认窗口与文件是同一来源"@,
        DiffError::NoSessionBeforeEnd { end } => "窗口终点 "@ + signed_spec(end as int) + " 之前没有任何会话"@,
        DiffError::TargetRootNotNew { base_root, base_end_pgno, target_root } => "目标索引根页 "@ + decimal_spec(target_root as nat)
            + " 不高于 base 会话末页 "@ + decimal_spec(base_end_pgno as nat) + "（base 根 "@ + decimal_spec(base_root as nat)
            + "），文件形态超出追加模型，拒绝差分"@,
        DiffError::UnreadableRoot { pgno } => "索引根页 "@ + decimal_spec(pgno as nat) + " 无法读取"@,
        DiffError::Open { error } => "无法打开库文件"@,
        DiffError::UnknownSession { sesno } => "文件里没有会话 "@ + signed_spec(sesno as int),
        DiffError::UnreadableSessionPage { sesno, ses_pgno } => "会话 "@ + signed_spec(sesno as int) + " 的会话页 "@ + decimal_spec(
            ses_pgno as nat,
        ) + " 无法读取"@,
        DiffError::NoLastTouchSession { refno, pgno } => "记录页 "@ + decimal_spec(pgno as nat) + " 不属于任何会话"@,
    }
}

impl DiffError {
    /// The error as text.
    pub fn message(&self) -> (s: String)
        ensures
            s@ == diff_message(*self),
    {
        let mut s = String::new();
        match *self {
            DiffError::StartBelowOne { start } => {
                s.append("窗口起点必须 ≥ 1，得到 ");
                push_signed(&mut s, start);
            },
            DiffError::EmptyWindow { start, end } => {
                s.append("非法窗口 ");
                push_signed(&mut s, start);
                s.append("..=");
                push_signed(&mut s, end);
            },
            DiffError::NoSessions => {
                s.append("文件里没有任何会话页");
            },
            DiffError::EndBeyondLatest { end, latest } => {
                s.append("窗口终点 ");
                push_signed(&mut s, end);
                s.append(" 超出文件最新会话 ");
                push_signed(&mut s, latest);
                s.append("，不猜——先确认窗口与文件是同一来源");
            },
            DiffError::NoSessionBeforeEnd { end } => {
                s.append("窗口终点 ");
                push_signed(&mut s, end);
                s.append(" 之前没有任何会话");
            },
            DiffError::TargetRootNotNew { base_root, base_end_pgno, target_root } => {
                s.append("目标索引根页 ");
                push_decimal(&mut s, target_root as u64);
                s.append(" 不高于 base 会话末页 ");
                push_decimal(&mut s, base_end_pgno as u64);
                s.append("（base 根 ");
                push_decimal(&mut s, base_root as u64);
                s.append("），文件形态超出追加模型，拒绝差分");
            },
            DiffError::UnreadableRoot { pgno } => {
                s.append("索引根页 ");
                push_decimal(&mut s, pgno as u64);
                s.append(" 无法读取");
            },
            DiffError::Open { error: _ } => {
                s.append("无法打开库文件");
            },
            DiffError::UnknownSession { sesno } => {
                s.append("文件里没有会话 ");
                push_signed(&mut s, sesno);
            },
            DiffError::UnreadableSessionPage { sesno, ses_pgno } => {
                s.append("会话 ");
                push_signed(&mut s, sesno);
                s.append(" 的会话页 ");
                push_decimal(&mut s, ses_pgno as u64);
                s.append(" 无法读取");
            },
            DiffError::NoLastTouchSession { refno: _, pgno } => {
                s.append("记录页 ");
                push_decimal(&mut s, pgno as u64);
                s.append(" 不属于任何会话");
            },
        }
        proof {
            assert(s@ =~= diff_message(*self));
        }
        s
    }
}

/// Greatest key of the map at most `bound`.
pub open spec fn is_greatest_at_most(m: Map<i32, u32>, bound: int, k: i32) -> bool {
    &&& m.contains_key(k)
    &&& k <= bound
    &&& forall|j: i32| #[trigger] m.contains_key(j) && j <= bound ==> j <= k
}

pub open spec fn has_key_at_most(m: Map<i32, u32>, bound: int) -> bool {
    exists|j: i32| #[trigger] m.contains_key(j) && j <= bound
}

pub open spec fn is_max_key(m: Map<i32, u32>, k: i32) -> bool {
    m.contains_key(k) && forall|j: i32| #[trigger] m.contains_key(j) ==> j <= k
}



/// The window anchors of `[start, end]` over the session map: the newest session
/// before `start` (if any) and the newest at or before `end`; or the refusal.
pub open spec fn window_anchors(m: Map<i32, u32>, start: i32, end: i32) -> Result<(Option<i32>, i32), DiffError> {
    if start < 1 {
        Err(DiffError::StartBelowOne { start })
    } else if start > end {
        Err(DiffError::EmptyWindow { start, end })
    } else if m.dom().is_empty() {
        Err(DiffError::NoSessions)
    } else {
        let latest = choose|k: i32| #[trigger] is_max_key(m, k);
        if end > latest {
            Err(DiffError::EndBeyondLatest { end, latest })
        } else if !has_key_at_most(m, end as int) {
            Err(DiffError::NoSessionBeforeEnd { end })
        } else {
            Ok(
                (
                    if has_key_at_most(m, start - 1) {
                        Some(choose|b: i32| #[trigger] is_greatest_at_most(m, start - 1, b))
                    } else {
                        None
                    },
                    choose|t: i32| #[trigger] is_greatest_at_most(m, end as int, t),
                ),
            )
        }
    }
}

/// Window anchors: base = the newest session before `start`, target = the newest
/// session at or before `end`. An `end` beyond the newest session is an error.
pub fn resolve_window_anchors(sesno_pgno_map: &BTreeMap<i32, u32>, start: i32, end: i32) -> (r:
    Result<(Option<i32>, i32), DiffError>)
    ensures
        r matches Err(e) ==> (e is StartBelowOne || e is EmptyWindow || e is NoSessions
            || e is EndBeyondLatest || e is NoSessionBeforeEnd),
        start < 1 ==> r == Err::<(Option<i32>, i32), DiffError>(DiffError::StartBelowOne { start }),
        start >= 1 && start > end ==> r == Err::<(Option<i32>, i32), DiffError>(
            DiffError::EmptyWindow { start, end },
        ),
        start >= 1 && start <= end && sesno_pgno_map@.dom().is_empty() ==> r == Err::<
            (Option<i32>, i32),
            DiffError,
        >(DiffError::NoSessions),
        start >= 1 && start <= end && !sesno_pgno_map@.dom().is_empty() ==> (r is Err <==> (
        forall|k: i32| #[trigger] sesno_pgno_map@.contains_key(k) ==> k < end)
            || !has_key_at_most(sesno_pgno_map@, end as int)),
        start >= 1 && start <= end && !sesno_pgno_map@.dom().is_empty() ==> match r {
            Err(DiffError::EndBeyondLatest { end: e, latest }) => e == end && is_max_key(
                sesno_pgno_map@,
                latest,
            ) && latest < end,
            Err(DiffError::NoSessionBeforeEnd { end: e }) => e == end && !has_key_at_most(
                sesno_pgno_map@,
                end as int,
            ),
            Err(_) => false,
            Ok((base, target)) => {
                &&& is_greatest_at_most(sesno_pgno_map@, end as int, target)
                &&& match base {
                    Some(b) => is_greatest_at_most(sesno_pgno_map@, start - 1, b),
                    None => !has_key_at_most(sesno_pgno_map@, start - 1),
                }
            },
        },
        r == window_anchors(sesno_pgno_map@, start, end),
{
    broadcast use crate::order::group_key_order;

    if start < 1 {
        return Err(DiffError::StartBelowOne { start });
    }
    if start > end {
        return Err(DiffError::EmptyWindow { start, end });
    }
    let mut max_key: Option<i32> = None;
    let mut target: Option<i32> = None;
    let mut base: Option<i32> = None;
    let iter = sesno_pgno_map.iter();
    proof {
        lemma_increasing_i32_keys(iter.remaining());
    }
    for (k, _v) in it: iter
        invariant
            forall|i: int|
                0 <= i < it.seq().len() ==> sesno_pgno_map@.contains_key(*(#[trigger] it.seq()[i]).0),
            forall|k: i32| #[trigger]
                sesno_pgno_map@.contains_key(k) ==> exists|i: int|
                    0 <= i < it.seq().len() && *it.seq()[i].0 == k,
            forall|i: int, j: int| 0 <= i < j < it.seq().len() ==> *it.seq()[i].0 < *it.seq()[j].0,
            match max_key {
                None => it.index() == 0,
                Some(m) => it.index() > 0 && m == *it.seq()[it.index() - 1].0,
            },
            match target {
                None => forall|i: int| 0 <= i < it.index() ==> *it.seq()[i].0 > end,
                Some(t) => exists|i: int| 0 <= i < it.index() && *it.seq()[i].0 == t && t <= end
                    && forall|j: int| 0 <= j < it.index() && *it.seq()[j].0 <= end ==> *it.seq()[j].0 <= t,
            },
            match base {
                None => forall|i: int| 0 <= i < it.index() ==> *it.seq()[i].0 >= start,
                Some(b) => exists|i: int| 0 <= i < it.index() && *it.seq()[i].0 == b && b < start
                    && forall|j: int| 0 <= j < it.index() && *it.seq()[j].0 < start ==> *it.seq()[j].0 <= b,
            },
    {
        let k = *k;
        max_key = Some(k);
        if k <= end {
            target = Some(k);
        }
        if k < start {
            base = Some(k);
        }
    }
    match max_key {
        None => {
            proof {
                assert(sesno_pgno_map@.dom() =~= Set::<i32>::empty());
            }
            Err(DiffError::NoSessions)
        },
        Some(latest) => {
            proof {
                assert(sesno_pgno_map@.dom().contains(latest));
                assert(is_max_key(sesno_pgno_map@, latest));
                assert(forall|k: i32| #[trigger] is_max_key(sesno_pgno_map@, k) ==> k == latest);
            }
            if end > latest {
                return Err(DiffError::EndBeyondLatest { end, latest });
            }
            match target {
                None => Err(DiffError::NoSessionBeforeEnd { end }),
                Some(t) => {
                    proof {
                        assert(forall|k: i32| #[trigger] is_greatest_at_most(sesno_pgno_map@, end as int, k) ==> k == t);
                        if let Some(b) = base {
                            assert(forall|k: i32| #[trigger] is_greatest_at_most(sesno_pgno_map@, start - 1, k) ==> k == b);
                        }
                    }
                    Ok((base, t))
                },
            }
        },
    }
}

/// Append-model gate: the target index root must be a page written after the base
/// session's end page. A root at or below that page would make the shared-subtree
/// test prune the target tree's own branches, so the diff is refused.
pub fn ensure_target_root_is_new(base_root: u32, base_end_pgno: u32, target_root: u32) -> (r:
    Result<(), DiffError>)
    ensures
        target_root > base_end_pgno ==> r is Ok,
        target_root <= base_end_pgno ==> r == Err::<(), DiffError>(
            DiffError::TargetRootNotNew { base_root, base_end_pgno, target_root },
        ),
{
    if target_root > base_end_pgno {
        Ok(())
    } else {
        Err(DiffError::TargetRootNotNew { base_root, base_end_pgno, target_root })
    }
}

/// Keys strictly increasing.
pub open spec fn increasing2(s: Seq<(u64, RecordLoc)>) -> bool {
    forall|i: int, j: int| 0 <= i < j < s.len() ==> s[i].0 < s[j].0
}

pub open spec fn increasing3(s: Seq<(u64, RecordLoc, RecordLoc)>) -> bool {
    forall|i: int, j: int| 0 <= i < j < s.len() ==> s[i].0 < s[j].0
}

/// `k` is net added: reachable in the target tree only.
pub open spec fn net_added(base: Map<u64, RecordLoc>, target: Map<u64, RecordLoc>, k: u64) -> bool {
    target.contains_key(k) && !base.contains_key(k)
}

/// `k` is net deleted: reachable in the base tree only.
pub open spec fn net_deleted(base: Map<u64, RecordLoc>, target: Map<u64, RecordLoc>, k: u64) -> bool {
    base.contains_key(k) && !target.contains_key(k)
}

/// `k` is net modified: reachable on both sides at different record positions.
pub open spec fn net_modified(base: Map<u64, RecordLoc>, target: Map<u64, RecordLoc>, k: u64) -> bool {
    target.contains_key(k) && base.contains_key(k) && target[k] != base[k]
}

/// The added list: exactly the net added keys with their target positions, in key order.
pub open spec fn is_added_list(
    base: Map<u64, RecordLoc>,
    target: Map<u64, RecordLoc>,
    s: Seq<(u64, RecordLoc)>,
) -> bool {
    &&& increasing2(s)
    &&& forall|i: int| 0 <= i < s.len() ==> net_added(base, target, #[trigger] s[i].0) && s[i].1 == target[s[i].0]
    &&& forall|k: u64| #[trigger] net_added(base, target, k) ==> exists|i: int| 0 <= i < s.len() && s[i].0 == k
}

/// The deleted list: exactly the net deleted keys with their base positions, in key order.
pub open spec fn is_deleted_list(
    base: Map<u64, RecordLoc>,
    target: Map<u64, RecordLoc>,
    s: Seq<(u64, RecordLoc)>,
) -> bool {
    &&& increasing2(s)
    &&& forall|i: int| 0 <= i < s.len() ==> net_deleted(base, target, #[trigger] s[i].0) && s[i].1 == base[s[i].0]
    &&& forall|k: u64| #[trigger] net_deleted(base, target, k) ==> exists|i: int| 0 <= i < s.len() && s[i].0 == k
}

/// The modified list: exactly the net modified keys with (target, base) positions, in key order.
pub open spec fn is_modified_list(
    base: Map<u64, RecordLoc>,
    target: Map<u64, RecordLoc>,
    s: Seq<(u64, RecordLoc, RecordLoc)>,
) -> bool {
    &&& increasing3(s)
    &&& forall|i: int|
        0 <= i < s.len() ==> net_modified(base, target, #[trigger] s[i].0) && s[i].1 == target[s[i].0]
            && s[i].2 == base[s[i].0]
    &&& forall|k: u64| #[trigger] net_modified(base, target, k) ==> exists|i: int| 0 <= i < s.len() && s[i].0 == k
}

/// The entries of a map in increasing key order.
pub open spec fn lists_map(m: Map<u64, RecordLoc>, s: Seq<(u64, RecordLoc)>) -> bool {
    &&& increasing2(s)
    &&& forall|i: int| 0 <= i < s.len() ==> m.contains_key(#[trigger] s[i].0) && m[s[i].0] == s[i].1
    &&& forall|k: u64| #[trigger] m.contains_key(k) ==> exists|i: int| 0 <= i < s.len() && s[i].0 == k
}

/// The entries of `m` in increasing key order.
pub fn map_entries(m: &BTreeMap<u64, RecordLoc>) -> (r: Vec<(u64, RecordLoc)>)
    ensures
        lists_map(m@, r@),
{
    broadcast use crate::order::group_key_order;

    let mut r: Vec<(u64, RecordLoc)> = Vec::new();
    let iter = m.iter();
    proof {
        lemma_increasing_u64_keys(iter.remaining());
    }
    let ghost s0 = iter.remaining();
    for (k, loc) in it: iter
        invariant
            it.seq() == s0,
            r@.len() == it.index(),
            forall|i: int| 0 <= i < it.index() ==> #[trigger] r@[i] == (*s0[i].0, *s0[i].1),
    {
        r.push((*k, *loc));
    }
    proof {
        assert forall|i: int, j: int| 0 <= i < j < r@.len() implies r@[i].0 < r@[j].0 by {
            assert(r@[i] == (*s0[i].0, *s0[i].1));
            assert(r@[j] == (*s0[j].0, *s0[j].1));
        }
        assert forall|i: int| 0 <= i < r@.len() implies m@.contains_key(#[trigger] r@[i].0) && m@[r@[i].0]
            == r@[i].1 by {
            assert(r@[i] == (*s0[i].0, *s0[i].1));
        }
        assert forall|k: u64| #[trigger] m@.contains_key(k) implies exists|i: int| 0 <= i < r@.len() && r@[i].0 == k by {
            let i = choose|i: int| 0 <= i < s0.len() && *s0[i].0 == k;
            assert(r@[i] == (*s0[i].0, *s0[i].1));
        }
    }
    r
}

fn collect_added(base: &BTreeMap<u64, RecordLoc>, target: &BTreeMap<u64, RecordLoc>) -> (r: Vec<
    (u64, RecordLoc),
>)
    ensures
        is_added_list(base@, target@, r@),
{
    broadcast use crate::order::group_key_order;

    let entries = map_entries(target);
    let mut added: Vec<(u64, RecordLoc)> = Vec::new();
    let ghost mut last: int = 0;
    let mut i: usize = 0;
    while i < entries.len()
        invariant
            lists_map(target@, entries@),
            i <= entries.len(),
            increasing2(added@),
            added@.len() > 0 ==> 0 <= last < i && entries@[last].0 == added@.last().0,
            forall|a: int| 0 <= a < added@.len() ==> net_added(base@, target@, #[trigger] added@[a].0)
                && added@[a].1 == target@[added@[a].0],
            forall|j: int| 0 <= j < i && net_added(base@, target@, #[trigger] entries@[j].0)
                ==> exists|a: int| 0 <= a < added@.len() && added@[a].0 == entries@[j].0,
        decreases entries.len() - i,
    {
        let (key, loc) = entries[i];
        let ghost old_added = added@;
        if !base.contains_key(&key) {
            added.push((key, loc));
            proof {
                last = i as int;
            }
        }
        proof {
            assert forall|j: int| 0 <= j <= i && net_added(base@, target@, #[trigger] entries@[j].0) implies exists|
                a: int,
            | 0 <= a < added@.len() && added@[a].0 == entries@[j].0 by {
                if j == i {
                    assert(added@[added@.len() - 1].0 == key);
                } else {
                    let a = choose|a: int| 0 <= a < old_added.len() && old_added[a].0 == entries@[j].0;
                    assert(added@[a] == old_added[a]);
                }
            }
        }
        i += 1;
    }
    proof {
        assert forall|k: u64| #[trigger] net_added(base@, target@, k) implies exists|a: int| 0 <= a < added@.len() && added@[a].0 == k by {
            let j = choose|j: int| 0 <= j < entries@.len() && entries@[j].0 == k;
            assert(net_added(base@, target@, entries@[j].0));
        }
    }
    added
}

fn collect_deleted(base: &BTreeMap<u64, RecordLoc>, target: &BTreeMap<u64, RecordLoc>) -> (r: Vec<
    (u64, RecordLoc),
>)
    ensures
        is_deleted_list(base@, target@, r@),
{
    broadcast use crate::order::group_key_order;

    let entries = map_entries(base);
    let mut deleted: Vec<(u64, RecordLoc)> = Vec::new();
    let ghost mut last: int = 0;
    let mut i: usize = 0;
    while i < entries.len()
        invariant
            lists_map(base@, entries@),
            i <= entries.len(),
            increasing2(deleted@),
            deleted@.len() > 0 ==> 0 <= last < i && entries@[last].0 == deleted@.last().0,
            forall|a: int| 0 <= a < deleted@.len() ==> net_deleted(base@, target@, #[trigger] deleted@[a].0)
                && deleted@[a].1 == base@[deleted@[a].0],
            forall|j: int| 0 <= j < i && net_deleted(base@, target@, #[trigger] entries@[j].0)
                ==> exists|a: int| 0 <= a < deleted@.len() && deleted@[a].0 == entries@[j].0,
        decreases entries.len() - i,
    {
        let (key, loc) = entries[i];
        let ghost old_deleted = deleted@;
        if !target.contains_key(&key) {
            deleted.push((key, loc));
            proof {
                last = i as int;
            }
        }
        proof {
            assert forall|j: int| 0 <= j <= i && net_deleted(base@, target@, #[trigger] entries@[j].0) implies exists|
                a: int,
            | 0 <= a < deleted@.len() && deleted@[a].0 == entries@[j].0 by {
                if j == i {
                    assert(deleted@[deleted@.len() - 1].0 == key);
                } else {
                    let a = choose|a: int| 0 <= a < old_deleted.len() && old_deleted[a].0 == entries@[j].0;
                    assert(deleted@[a] == old_deleted[a]);
                }
            }
        }
        i += 1;
    }
    proof {
        assert forall|k: u64| #[trigger] net_deleted(base@, target@, k) implies exists|a: int| 0 <= a < deleted@.len() && deleted@[a].0 == k by {
            let j = choose|j: int| 0 <= j < entries@.len() && entries@[j].0 == k;
            assert(net_deleted(base@, target@, entries@[j].0));
        }
    }
    deleted
}

fn collect_modified(base: &BTreeMap<u64, RecordLoc>, target: &BTreeMap<u64, RecordLoc>) -> (r: Vec<
    (u64, RecordLoc, RecordLoc),
>)
    ensures
        is_modified_list(base@, target@, r@),
{
    broadcast use crate::order::group_key_order;

    let entries = map_entries(target);
    let mut modified: Vec<(u64, RecordLoc, RecordLoc)> = Vec::new();
    let ghost mut last: int = 0;
    let mut i: usize = 0;
    while i < entries.len()
        invariant
            lists_map(target@, entries@),
            i <= entries.len(),
            increasing3(modified@),
            modified@.len() > 0 ==> 0 <= last < i && entries@[last].0 == modified@.last().0,
            forall|a: int| 0 <= a < modified@.len() ==> net_modified(base@, target@, #[trigger] modified@[a].0)
                && modified@[a].1 == target@[modified@[a].0] && modified@[a].2 == base@[modified@[a].0],
            forall|j: int| 0 <= j < i && net_modified(base@, target@, #[trigger] entries@[j].0)
                ==> exists|a: int| 0 <= a < modified@.len() && modified@[a].0 == entries@[j].0,
        decreases entries.len() - i,
    {
        let (key, loc) = entries[i];
        let ghost old_modified = modified@;
        match base.get(&key) {
            None => {},
            Some(old) => {
                if *old != loc {
                    modified.push((key, loc, *old));
                    proof {
                        last = i as int;
                    }
                }
            },
        }
        proof {
            assert forall|j: int| 0 <= j <= i && net_modified(base@, target@, #[trigger] entries@[j].0) implies exists|
                a: int,
            | 0 <= a < modified@.len() && modified@[a].0 == entries@[j].0 by {
                if j == i {
                    assert(modified@[modified@.len() - 1].0 == key);
                } else {
                    let a = choose|a: int| 0 <= a < old_modified.len() && old_modified[a].0 == entries@[j].0;
                    assert(modified@[a] == old_modified[a]);
                }
            }
        }
        i += 1;
    }
    proof {
        assert forall|k: u64| #[trigger] net_modified(base@, target@, k) implies exists|a: int| 0 <= a < modified@.len() && modified@[a].0 == k by {
            let j = choose|j: int| 0 <= j < entries@.len() && entries@[j].0 == k;
            assert(net_modified(base@, target@, entries@[j].0));
        }
    }
    modified
}

/// Pure classification of the two reachable sets into the three net states. Entries
/// at the same position on both sides are untouched neighbours copied into a
/// rewritten page and appear in no list. Lists come out in reference-number order.
pub fn classify(base: &BTreeMap<u64, RecordLoc>, target: &BTreeMap<u64, RecordLoc>) -> (r: (
    Vec<(u64, RecordLoc)>,
    Vec<(u64, RecordLoc)>,
    Vec<(u64, RecordLoc, RecordLoc)>,
))
    ensures
        is_added_list(base@, target@, r.0@),
        is_deleted_list(base@, target@, r.1@),
        is_modified_list(base@, target@, r.2@),
{
    let added = collect_added(base, target);
    let deleted = collect_deleted(base, target);
    let modified = collect_modified(base, target);
    (added, deleted, modified)
}

/// Spec view of an index page: its level and its entries.
pub struct IndexPageView {
    pub level: u32,
    pub locs: Seq<RefnoDataLoc>,
}

impl View for IndexPageData {
    type V = IndexPageView;

    open spec fn view(&self) -> IndexPageView {
        IndexPageView { level: self.level, locs: self.refno_locs@ }
    }
}

/// A source of index pages by page number. Pages never change: reading one leaves
/// every page as it was, and appends the page number to the log of requests.
pub trait IndexPages {
    spec fn page_at(&self, pgno: u32) -> Option<IndexPageView>;

    /// The page numbers asked for so far, in order.
    spec fn requests(&self) -> Seq<u32>;

    fn index_page(&mut self, pgno: u32) -> (r: Option<IndexPageData>)
        ensures
            match r {
                Some(p) => old(self).page_at(pgno) == Some(p@),
                None => old(self).page_at(pgno) is None,
            },
            forall|q: u32| #[trigger] final(self).page_at(q) == old(self).page_at(q),
            final(self).requests() == old(self).requests().push(pgno),
    ;
}

/// In-memory page source that logs every page it is asked for.
pub struct MemPages {
    pub pages: Vec<(u32, IndexPageData)>,
    pub reads: Vec<u32>,
}

/// First page stored under `pgno`.
pub open spec fn mem_page_at(pages: Seq<(u32, IndexPageData)>, pgno: u32) -> Option<IndexPageView>
    decreases pages.len(),
{
    if pages.len() == 0 {
        None
    } else if pages[0].0 == pgno {
        Some(pages[0].1@)
    } else {
        mem_page_at(pages.drop_first(), pgno)
    }
}

impl MemPages {
    /// A page source over the given pages, with an empty read log.
    pub fn new(pages: Vec<(u32, IndexPageData)>) -> (r: MemPages)
        ensures
            r.pages@ == pages@,
            r.reads@ == Seq::<u32>::empty(),
    {
        MemPages { pages, reads: Vec::new() }
    }
}

impl IndexPages for MemPages {
    open spec fn page_at(&self, pgno: u32) -> Option<IndexPageView> {
        mem_page_at(self.pages@, pgno)
    }

    open spec fn requests(&self) -> Seq<u32> {
        self.reads@
    }

    fn index_page(&mut self, pgno: u32) -> (r: Option<IndexPageData>) {
        self.reads.push(pgno);
        find_index_page(&self.pages, pgno)
    }
}

/// The first page stored under `pgno`, whole.
pub open spec fn stored_page(pages: Seq<(u32, IndexPageData)>, pgno: u32) -> Option<IndexPageData>
    decreases pages.len(),
{
    if pages.len() == 0 {
        None
    } else if pages[0].0 == pgno {
        Some(pages[0].1)
    } else {
        stored_page(pages.drop_first(), pgno)
    }
}

/// Two index pages hold the same header fields, entries and trailing bytes.
pub open spec fn same_page(a: IndexPageData, b: IndexPageData) -> bool {
    &&& a.page_type == b.page_type
    &&& a.noun == b.noun
    &&& a.level == b.level
    &&& a.unknowns == b.unknowns
    &&& a.pfno == b.pfno
    &&& a.refno_locs@ == b.refno_locs@
    &&& a.remain_zero_bytes@ == b.remain_zero_bytes@
}

/// Looks up the first page stored under `pgno` and copies it whole.
pub fn find_index_page(pages: &Vec<(u32, IndexPageData)>, pgno: u32) -> (r: Option<IndexPageData>)
    ensures
        match r {
            Some(p) => mem_page_at(pages@, pgno) == Some(p@),
            None => mem_page_at(pages@, pgno) is None,
        },
        match stored_page(pages@, pgno) {
            Some(q) => r matches Some(p) && same_page(p, q),
            None => r is None,
        },
{
    let mut i: usize = 0;
    assert(pages@.skip(0) == pages@);
    while i < pages.len()
        invariant
            i <= pages.len(),
            mem_page_at(pages@, pgno) == mem_page_at(pages@.skip(i as int), pgno),
            stored_page(pages@, pgno) == stored_page(pages@.skip(i as int), pgno),
        decreases pages.len() - i,
    {
        assert(pages@.skip(i as int).drop_first() == pages@.skip(i + 1));
        if pages[i].0 == pgno {
            assert(pages@.skip(i as int)[0] == pages@[i as int]);
            let page = copy_index_page(&pages[i].1);
            assert(page@ == pages@[i as int].1@);
            return Some(page);
        }
        i += 1;
    }
    None
}

/// Position of a leaf entry's record.
pub open spec fn leaf_loc(e: RefnoDataLoc) -> RecordLoc {
    RecordLoc { pgno: e.pgno, offset: e.offset }
}

/// Absorbing a leaf page's entries in order: sentinels, keys outside the routing
/// interval and keys already present are skipped (first seen wins).
pub open spec fn absorb_leaf(m: Map<u64, RecordLoc>, locs: Seq<RefnoDataLoc>, b: KeyBounds) -> Map<
    u64,
    RecordLoc,
>
    decreases locs.len(),
{
    if locs.len() == 0 {
        m
    } else {
        let prev = absorb_leaf(m, locs.drop_last(), b);
        let e = locs.last();
        if e.is_sentinel() || !spec_contains(b, e.key()) || prev.contains_key(e.key()) {
            prev
        } else {
            prev.insert(e.key(), leaf_loc(e))
        }
    }
}

/// `(k, loc)` is a non-sentinel entry of some leaf page of the source.
pub open spec fn is_leaf_entry<P: IndexPages>(pages: P, k: u64, loc: RecordLoc) -> bool {
    exists|pg: u32, i: int|
        #![trigger pages.page_at(pg), leaf_loc(pages.page_at(pg)->0.locs[i])]
        pages.page_at(pg) is Some && pages.page_at(pg)->0.level == 0 && 0 <= i
            < pages.page_at(pg)->0.locs.len() && !pages.page_at(pg)->0.locs[i].is_sentinel()
            && pages.page_at(pg)->0.locs[i].key() == k && leaf_loc(pages.page_at(pg)->0.locs[i])
            == loc
}

/// Observation counts of one tree walk.
#[derive(Debug, Default, Clone, PartialEq)]
pub struct WalkStats {
    pub pages_read: usize,
    pub leaf_entries: usize,
    pub sentinel_leaf_entries: usize,
    pub duplicate_leaf_entries: usize,
    pub level_anomalies: usize,
    pub nonlive_leaf_entries: usize,
    pub duplicate_child_pointers: usize,
    pub out_of_order_child_keys: usize,
    pub out_of_range_child_pointers: usize,
    pub out_of_range_leaf_entries: usize,
    pub unreadable_child_pages: usize,
    pub flag_histogram: BTreeMap<u16, usize>,
}

impl WalkStats {
    /// All counters zero, empty flag histogram.
    pub fn new() -> (r: WalkStats)
        ensures
            stats_view(r) == zero_stats(),
    {
        WalkStats {
            pages_read: 0,
            leaf_entries: 0,
            sentinel_leaf_entries: 0,
            duplicate_leaf_entries: 0,
            level_anomalies: 0,
            nonlive_leaf_entries: 0,
            duplicate_child_pointers: 0,
            out_of_order_child_keys: 0,
            out_of_range_child_pointers: 0,
            out_of_range_leaf_entries: 0,
            unreadable_child_pages: 0,
            flag_histogram: BTreeMap::new(),
        }
    }
}

/// The counts of a walk as values.
pub struct StatsView {
    pub pages_read: usize,
    pub leaf_entries: usize,
    pub sentinel_leaf_entries: usize,
    pub duplicate_leaf_entries: usize,
    pub level_anomalies: usize,
    pub nonlive_leaf_entries: usize,
    pub duplicate_child_pointers: usize,
    pub out_of_order_child_keys: usize,
    pub out_of_range_child_pointers: usize,
    pub out_of_range_leaf_entries: usize,
    pub unreadable_child_pages: usize,
    pub flags: Map<u16, usize>,
}

pub open spec fn stats_view(s: WalkStats) -> StatsView {
    StatsView {
        pages_read: s.pages_read,
        leaf_entries: s.leaf_entries,
        sentinel_leaf_entries: s.sentinel_leaf_entries,
        duplicate_leaf_entries: s.duplicate_leaf_entries,
        level_anomalies: s.level_anomalies,
        nonlive_leaf_entries: s.nonlive_leaf_entries,
        duplicate_child_pointers: s.duplicate_child_pointers,
        out_of_order_child_keys: s.out_of_order_child_keys,
        out_of_range_child_pointers: s.out_of_range_child_pointers,
        out_of_range_leaf_entries: s.out_of_range_leaf_entries,
        unreadable_child_pages: s.unreadable_child_pages,
        flags: s.flag_histogram@,
    }
}

pub open spec fn zero_stats() -> StatsView {
    StatsView {
        pages_read: 0,
        leaf_entries: 0,
        sentinel_leaf_entries: 0,
        duplicate_leaf_entries: 0,
        level_anomalies: 0,
        nonlive_leaf_entries: 0,
        duplicate_child_pointers: 0,
        out_of_order_child_keys: 0,
        out_of_range_child_pointers: 0,
        out_of_range_leaf_entries: 0,
        unreadable_child_pages: 0,
        flags: Map::empty(),
    }
}

/// One more, stopping at the largest count.
pub open spec fn sat_inc(x: usize) -> usize {
    if x == usize::MAX {
        x
    } else {
        (x + 1) as usize
    }
}

/// One more entry with the flag `flag`.
pub open spec fn bump_flag(f: Map<u16, usize>, flag: u16) -> Map<u16, usize> {
    f.insert(flag, sat_inc(if f.contains_key(flag) {
        f[flag]
    } else {
        0
    }))
}

/// The counts of absorbing a leaf page's entries in order (see `absorb_leaf`): every
/// entry counts its flag; a sentinel, a key outside the interval, an entry with a
/// flag other than 1, an in-interval entry and a key already present are counted.
pub open spec fn absorb_counts(m: Map<u64, RecordLoc>, st: StatsView, locs: Seq<RefnoDataLoc>, b: KeyBounds) -> StatsView
    decreases locs.len(),
{
    if locs.len() == 0 {
        st
    } else {
        let s = absorb_counts(m, st, locs.drop_last(), b);
        let prev = absorb_leaf(m, locs.drop_last(), b);
        let e = locs.last();
        let s1 = StatsView { flags: bump_flag(s.flags, e.flag), ..s };
        if e.is_sentinel() {
            StatsView { sentinel_leaf_entries: sat_inc(s1.sentinel_leaf_entries), ..s1 }
        } else if !spec_contains(b, e.key()) {
            StatsView { out_of_range_leaf_entries: sat_inc(s1.out_of_range_leaf_entries), ..s1 }
        } else {
            let s2 = if e.flag != 1 {
                StatsView { nonlive_leaf_entries: sat_inc(s1.nonlive_leaf_entries), ..s1 }
            } else {
                s1
            };
            let s3 = StatsView { leaf_entries: sat_inc(s2.leaf_entries), ..s2 };
            if prev.contains_key(e.key()) {
                StatsView { duplicate_leaf_entries: sat_inc(s3.duplicate_leaf_entries), ..s3 }
            } else {
                s3
            }
        }
    }
}

/// Result of walking one tree: the point-reachable leaf entries and the counts.
pub struct WalkOutcome {
    pub touched: BTreeMap<u64, RecordLoc>,
    pub stats: WalkStats,
}

fn count_flag(hist: &mut BTreeMap<u16, usize>, flag: u16)
    ensures
        final(hist)@ == bump_flag(old(hist)@, flag),
{
    broadcast use crate::order::group_key_order;

    let cur: usize = match hist.get(&flag) {
        Some(c) => *c,
        None => 0,
    };
    hist.insert(flag, cur.saturating_add(1));
}

/// `s.len() < 2^32` for a finite set of `u32` missing some value.
pub proof fn lemma_u32_set_room(s: Set<u32>, x: u32)
    requires
        s.finite(),
        !s.contains(x),
    ensures
        s.len() < 0x1_0000_0000,
{
    let t = s.insert(x);
    let f = |v: u32| v as int;
    vstd::set_lib::lemma_int_range(0, 0x1_0000_0000);
    assert(vstd::relations::injective_on(f, t));
    vstd::set_lib::lemma_map_size(t, t.map(f), f);
    assert(t.map(f).subset_of(vstd::set_lib::set_int_range(0, 0x1_0000_0000)));
    vstd::set_lib::lemma_len_subset(t.map(f), vstd::set_lib::set_int_range(0, 0x1_0000_0000));
}

/// Absorbs the entries of a leaf page into `touched` (first seen wins) and counts.
fn absorb_leaf_page(
    locs: &Vec<RefnoDataLoc>,
    bounds: KeyBounds,
    touched: &mut BTreeMap<u64, RecordLoc>,
    stats: &mut WalkStats,
)
    ensures
        final(touched)@ == absorb_leaf(old(touched)@, locs@, bounds),
        stats_view(*final(stats)) == absorb_counts(old(touched)@, stats_view(*old(stats)), locs@, bounds),
{
    broadcast use crate::order::group_key_order;

    let mut i: usize = 0;
    while i < locs.len()
        invariant
            i <= locs.len(),
            touched@ == absorb_leaf(old(touched)@, locs@.take(i as int), bounds),
            stats_view(*stats) == absorb_counts(old(touched)@, stats_view(*old(stats)), locs@.take(i as int), bounds),
        decreases locs.len() - i,
    {
        let loc = locs[i];
        proof {
            assert(locs@.take(i + 1).drop_last() == locs@.take(i as int));
            assert(locs@.take(i + 1).last() == loc);
        }
        i += 1;
        count_flag(&mut stats.flag_histogram, loc.flag);
        if loc.is_start_page() {
            stats.sentinel_leaf_entries = stats.sentinel_leaf_entries.saturating_add(1);
            continue;
        }
        let refno = loc.get_refno();
        if !bounds.contains(refno) {
            stats.out_of_range_leaf_entries = stats.out_of_range_leaf_entries.saturating_add(1);
            continue;
        }
        if loc.flag != 1 {
            stats.nonlive_leaf_entries = stats.nonlive_leaf_entries.saturating_add(1);
        }
        stats.leaf_entries = stats.leaf_entries.saturating_add(1);
        if touched.contains_key(&refno) {
            stats.duplicate_leaf_entries = stats.duplicate_leaf_entries.saturating_add(1);
            continue;
        }
        touched.insert(refno, RecordLoc { pgno: loc.pgno, offset: loc.offset });
    }
    assert(locs@.take(i as int) == locs@);
}

/// Every key of an absorbed map is an old key or a non-sentinel entry of the page.
proof fn lemma_absorb_leaf_origin(m: Map<u64, RecordLoc>, locs: Seq<RefnoDataLoc>, b: KeyBounds, k: u64)
    requires
        absorb_leaf(m, locs, b).contains_key(k),
    ensures
        (m.contains_key(k) && absorb_leaf(m, locs, b)[k] == m[k]) || exists|i: int|
            0 <= i < locs.len() && !locs[i].is_sentinel() && locs[i].key() == k && leaf_loc(locs[i])
                == absorb_leaf(m, locs, b)[k],
    decreases locs.len(),
{
    if locs.len() > 0 {
        let prev = absorb_leaf(m, locs.drop_last(), b);
        let e = locs.last();
        if e.is_sentinel() || !spec_contains(b, e.key()) || prev.contains_key(e.key()) || k != e.key() {
            lemma_absorb_leaf_origin(m, locs.drop_last(), b, k);
            if !(m.contains_key(k) && prev[k] == m[k]) {
                let i = choose|i: int|
                    0 <= i < locs.drop_last().len() && !locs.drop_last()[i].is_sentinel()
                        && locs.drop_last()[i].key() == k && leaf_loc(locs.drop_last()[i]) == prev[k];
                assert(locs[i] == locs.drop_last()[i]);
            }
        } else {
            assert(locs[locs.len() - 1] == e);
        }
    }
}

/// Decides whether a child pointer is pruned. With a limit, children at or below it
/// are shared subtrees: they are pruned and recorded in `shared`. Without one,
/// exactly the recorded shared roots are pruned.
fn prune_child(child: u32, shared_limit: Option<u32>, shared: &mut BTreeSet<u32>) -> (pruned: bool)
    ensures
        match shared_limit {
            Some(e) => pruned == (child <= e) && final(shared)@ == (if child <= e {
                old(shared)@.insert(child)
            } else {
                old(shared)@
            }),
            None => pruned == old(shared)@.contains(child) && final(shared)@ == old(shared)@,
        },
{
    broadcast use crate::order::group_key_order;

    match shared_limit {
        Some(e) => {
            if child <= e {
                shared.insert(child);
                true
            } else {
                false
            }
        },
        None => shared.contains(&child),
    }
}

/// Shared-root bookkeeping kept by a walk.
pub open spec fn shared_grows(old_s: Set<u32>, new_s: Set<u32>, shared_limit: Option<u32>) -> bool {
    &&& shared_limit is None ==> new_s == old_s
    &&& forall|x: u32| #[trigger] new_s.contains(x) ==> old_s.contains(x) || (shared_limit is Some && x
        <= shared_limit->0)
    &&& old_s.subset_of(new_s)
}

/// Page lookup of a page source as a function.
pub open spec fn page_fn<P: IndexPages>(pages: P) -> spec_fn(u32) -> Option<IndexPageView> {
    |q: u32| pages.page_at(q)
}

/// The child interval `[lo, hi)` within `b` (see `KeyBounds::narrowed`).
pub open spec fn narrow(b: KeyBounds, lo: Option<u64>, hi: Option<u64>) -> KeyBounds {
    KeyBounds { lower: spec_max_opt(b.lower, lo), upper: spec_min_opt(b.upper, hi) }
}

/// The interval holds no key (see `KeyBounds::is_empty`).
pub open spec fn bounds_empty(b: KeyBounds) -> bool {
    b.lower is Some && b.upper is Some && b.lower->0 >= b.upper->0
}

/// The child pointers of an inner page, in order: the child of the first sentinel,
/// and the kept `(key, child)` pairs. A key met before is dropped; a key not above
/// the last kept one is dropped too, though it counts as met.
pub open spec fn route_keys(locs: Seq<RefnoDataLoc>) -> (Option<u32>, Seq<(u64, u32)>, Set<u64>)
    decreases locs.len(),
{
    if locs.len() == 0 {
        (None, Seq::empty(), Set::empty())
    } else {
        let (sc, kept, seen) = route_keys(locs.drop_last());
        let loc = locs.last();
        if loc.is_sentinel() {
            (if sc is None {
                Some(loc.pgno)
            } else {
                sc
            }, kept, seen)
        } else if seen.contains(loc.key()) {
            (sc, kept, seen)
        } else if kept.len() > 0 && loc.key() <= kept.last().0 {
            (sc, kept, seen.insert(loc.key()))
        } else {
            (sc, kept.push((loc.key(), loc.pgno)), seen.insert(loc.key()))
        }
    }
}

/// Whether a child is pruned, and the shared roots afterwards (see `prune_child`).
pub open spec fn prune_spec(child: u32, limit: Option<u32>, shared: Set<u32>) -> (bool, Set<u32>) {
    match limit {
        Some(e) => if child <= e {
            (true, shared.insert(child))
        } else {
            (false, shared)
        },
        None => (shared.contains(child), shared),
    }
}

/// Offers one child with its interval: dropped when the interval is empty or the
/// child is pruned, else pushed as a frame `(child, parent level, interval)`.
pub open spec fn offer_child(
    acc: (Seq<(u32, u32, KeyBounds)>, Set<u32>),
    child: u32,
    level: u32,
    cb: KeyBounds,
    limit: Option<u32>,
) -> (Seq<(u32, u32, KeyBounds)>, Set<u32>) {
    if bounds_empty(cb) {
        acc
    } else {
        let (p, sh) = prune_spec(child, limit, acc.1);
        if p {
            (acc.0, sh)
        } else {
            (acc.0.push((child, level, cb)), sh)
        }
    }
}

/// The first `k` kept pairs offered, each for `[its key, next kept key)`.
pub open spec fn kept_frames(
    kept: Seq<(u64, u32)>,
    k: int,
    level: u32,
    bounds: KeyBounds,
    limit: Option<u32>,
    acc: (Seq<(u32, u32, KeyBounds)>, Set<u32>),
) -> (Seq<(u32, u32, KeyBounds)>, Set<u32>)
    decreases k,
{
    if k <= 0 {
        acc
    } else {
        let prev = kept_frames(kept, k - 1, level, bounds, limit, acc);
        let next = if k < kept.len() {
            Some(kept[k].0)
        } else {
            None
        };
        offer_child(prev, kept[k - 1].1, level, narrow(bounds, Some(kept[k - 1].0), next), limit)
    }
}

/// The frames an inner page pushes, in order, and the shared roots afterwards: the
/// sentinel child for `(-inf, first kept key)`, then every kept child.
pub open spec fn route_page(
    locs: Seq<RefnoDataLoc>,
    level: u32,
    bounds: KeyBounds,
    limit: Option<u32>,
    shared: Set<u32>,
) -> (Seq<(u32, u32, KeyBounds)>, Set<u32>) {
    let (sc, kept, _seen) = route_keys(locs);
    let first = if kept.len() > 0 {
        Some(kept[0].0)
    } else {
        None
    };
    let start = match sc {
        Some(child) => offer_child((Seq::empty(), shared), child, level, narrow(bounds, None, first), limit),
        None => (Seq::empty(), shared),
    };
    kept_frames(kept, kept.len() as int, level, bounds, limit, start)
}

/// The counts of scanning an inner page's entries (see `route_keys`): every entry
/// counts its flag; a second sentinel and a key met before are duplicate child
/// pointers; a key not above the last kept one is out of order.
pub open spec fn route_key_counts(st: StatsView, locs: Seq<RefnoDataLoc>) -> StatsView
    decreases locs.len(),
{
    if locs.len() == 0 {
        st
    } else {
        let s = route_key_counts(st, locs.drop_last());
        let (sc, kept, seen) = route_keys(locs.drop_last());
        let loc = locs.last();
        let s1 = StatsView { flags: bump_flag(s.flags, loc.flag), ..s };
        if loc.is_sentinel() {
            if sc is None {
                s1
            } else {
                StatsView { duplicate_child_pointers: sat_inc(s1.duplicate_child_pointers), ..s1 }
            }
        } else if seen.contains(loc.key()) {
            StatsView { duplicate_child_pointers: sat_inc(s1.duplicate_child_pointers), ..s1 }
        } else if kept.len() > 0 && loc.key() <= kept.last().0 {
            StatsView { out_of_order_child_keys: sat_inc(s1.out_of_order_child_keys), ..s1 }
        } else {
            s1
        }
    }
}

/// A child offered with an empty interval counts as out of range.
pub open spec fn empty_offer(st: StatsView, cb: KeyBounds) -> StatsView {
    if bounds_empty(cb) {
        StatsView { out_of_range_child_pointers: sat_inc(st.out_of_range_child_pointers), ..st }
    } else {
        st
    }
}

pub open spec fn kept_counts(kept: Seq<(u64, u32)>, k: int, bounds: KeyBounds, st: StatsView) -> StatsView
    decreases k,
{
    if k <= 0 {
        st
    } else {
        let s = kept_counts(kept, k - 1, bounds, st);
        let next = if k < kept.len() {
            Some(kept[k].0)
        } else {
            None
        };
        empty_offer(s, narrow(bounds, Some(kept[k - 1].0), next))
    }
}

/// The counts of routing an inner page (see `route_page`).
pub open spec fn route_counts(st: StatsView, locs: Seq<RefnoDataLoc>, bounds: KeyBounds) -> StatsView {
    let s = route_key_counts(st, locs);
    let (sc, kept, _seen) = route_keys(locs);
    let first = if kept.len() > 0 {
        Some(kept[0].0)
    } else {
        None
    };
    let s2 = match sc {
        Some(_child) => empty_offer(s, narrow(bounds, None, first)),
        None => s,
    };
    kept_counts(kept, kept.len() as int, bounds, s2)
}

/// State of a tree walk: the pending frames (the next one last), the pages visited,
/// the leaf entries collected, the shared roots, the pages requested in order.
pub struct WalkView {
    pub stack: Seq<(u32, u32, KeyBounds)>,
    pub visited: Set<u32>,
    pub touched: Map<u64, RecordLoc>,
    pub shared: Set<u32>,
    pub stats: StatsView,
    pub reads: Seq<u32>,
}

/// One step of the walk: the last pending frame is taken. A page visited before is
/// passed over unread; any other page is requested. An unreadable page and a page
/// whose level does not lie below its parent's are passed over; a leaf is absorbed
/// within the frame's interval; an inner page pushes its children (see
/// `route_page`).
pub open spec fn walk_step(pf: spec_fn(u32) -> Option<IndexPageView>, st: WalkView, limit: Option<u32>) -> WalkView {
    let f = st.stack.last();
    let rest = st.stack.drop_last();
    if st.visited.contains(f.0) {
        WalkView { stack: rest, ..st }
    } else {
        let st = WalkView { reads: st.reads.push(f.0), ..st };
        let vis = st.visited.insert(f.0);
        match pf(f.0) {
            None => WalkView {
                stack: rest,
                visited: vis,
                stats: StatsView { unreadable_child_pages: sat_inc(st.stats.unreadable_child_pages), ..st.stats },
                ..st
            },
            Some(page) => {
                let read = StatsView { pages_read: sat_inc(st.stats.pages_read), ..st.stats };
                if page.level >= f.1 {
                    WalkView {
                        stack: rest,
                        visited: vis,
                        stats: StatsView { level_anomalies: sat_inc(read.level_anomalies), ..read },
                        ..st
                    }
                } else if page.level == 0 {
                    WalkView {
                        stack: rest,
                        visited: vis,
                        touched: absorb_leaf(st.touched, page.locs, f.2),
                        stats: absorb_counts(st.touched, read, page.locs, f.2),
                        ..st
                    }
                } else {
                    let (fr, sh) = route_page(page.locs, page.level, f.2, limit, st.shared);
                    WalkView { stack: rest + fr, visited: vis, shared: sh, stats: route_counts(read, page.locs, f.2), ..st }
                }
            },
        }
    }
}

/// Steps until no frame is pending.
pub open spec fn walk_run(pf: spec_fn(u32) -> Option<IndexPageView>, st: WalkView, limit: Option<u32>) -> WalkView
    decreases 0x1_0000_0000 - st.visited.len(), st.stack.len(),
    when st.visited.finite() && st.visited.len() <= 0x1_0000_0000
{
    if st.stack.len() == 0 {
        st
    } else {
        proof {
            if !st.visited.contains(st.stack.last().0) {
                lemma_u32_set_room(st.visited, st.stack.last().0);
            }
        }
        walk_run(pf, walk_step(pf, st, limit), limit)
    }
}

/// The walk after its root: only the root visited; a root at the highest level is
/// an anomaly, a leaf root is absorbed whole, an inner root pushes its children.
/// `None` when the root cannot be read.
pub open spec fn walk_start(pf: spec_fn(u32) -> Option<IndexPageView>, root: u32, limit: Option<u32>, shared: Set<u32>) -> Option<WalkView> {
    match pf(root) {
        None => None,
        Some(page) => {
            let read = StatsView { pages_read: 1, ..zero_stats() };
            let base = WalkView {
                stack: Seq::empty(),
                visited: set![root],
                touched: Map::empty(),
                shared,
                stats: read,
                reads: seq![root],
            };
            Some(
                if page.level == u32::MAX {
                    WalkView { stats: StatsView { level_anomalies: 1, ..read }, ..base }
                } else if page.level == 0 {
                    WalkView {
                        touched: absorb_leaf(Map::empty(), page.locs, KeyBounds::unbounded()),
                        stats: absorb_counts(Map::empty(), read, page.locs, KeyBounds::unbounded()),
                        ..base
                    }
                } else {
                    let (fr, sh) = route_page(page.locs, page.level, KeyBounds::unbounded(), limit, shared);
                    WalkView { stack: fr, shared: sh, stats: route_counts(read, page.locs, KeyBounds::unbounded()), ..base }
                },
            )
        },
    }
}

/// The finished walk of the tree at `root`.
pub open spec fn walk_result(pf: spec_fn(u32) -> Option<IndexPageView>, root: u32, limit: Option<u32>, shared: Set<u32>) -> Option<WalkView> {
    match walk_start(pf, root, limit, shared) {
        None => None,
        Some(st) => Some(walk_run(pf, st, limit)),
    }
}

/// The pages a walk of the tree at `root` asks for, in order: the root alone when
/// it cannot be read.
pub open spec fn walk_requests(pf: spec_fn(u32) -> Option<IndexPageView>, root: u32, limit: Option<u32>, shared: Set<u32>) -> Seq<u32> {
    match walk_result(pf, root, limit, shared) {
        None => seq![root],
        Some(w) => w.reads,
    }
}

/// Routes an inner page: first-seen deduplication of keys, ascending-prefix
/// routing, the sentinel as leftmost child; each surviving child is pushed with its
/// routing interval unless pruned.
fn route_inner_page(
    locs: &Vec<RefnoDataLoc>,
    level: u32,
    bounds: KeyBounds,
    stack: &mut Vec<(u32, u32, KeyBounds)>,
    stats: &mut WalkStats,
    shared_limit: Option<u32>,
    shared: &mut BTreeSet<u32>,
)
    ensures
        shared_grows(old(shared)@, final(shared)@, shared_limit),
        ({
            let (fr, sh) = route_page(locs@, level, bounds, shared_limit, old(shared)@);
            final(stack)@ == old(stack)@ + fr && final(shared)@ == sh
        }),
        stats_view(*final(stats)) == route_counts(stats_view(*old(stats)), locs@, bounds),
{
    broadcast use crate::order::group_key_order;

    let mut sentinel_child: Option<u32> = None;
    let mut kept: Vec<(u64, u32)> = Vec::new();
    let mut seen_keys: BTreeSet<u64> = BTreeSet::new();
    let mut i: usize = 0;
    while i < locs.len()
        invariant
            i <= locs.len(),
            shared@ == old(shared)@,
            stack@ == old(stack)@,
            (sentinel_child, kept@, seen_keys@) == route_keys(locs@.take(i as int)),
            stats_view(*stats) == route_key_counts(stats_view(*old(stats)), locs@.take(i as int)),
        decreases locs.len() - i,
    {
        let loc = locs[i];
        proof {
            assert(locs@.take(i + 1).drop_last() =~= locs@.take(i as int));
            assert(locs@.take(i + 1).last() == loc);
        }
        i += 1;
        count_flag(&mut stats.flag_histogram, loc.flag);
        if loc.is_start_page() {
            if sentinel_child.is_none() {
                sentinel_child = Some(loc.pgno);
            } else {
                stats.duplicate_child_pointers = stats.duplicate_child_pointers.saturating_add(1);
            }
            continue;
        }
        let key = loc.get_refno();
        if !seen_keys.insert(key) {
            stats.duplicate_child_pointers = stats.duplicate_child_pointers.saturating_add(1);
            continue;
        }
        let n = kept.len();
        if n > 0 && key <= kept[n - 1].0 {
            stats.out_of_order_child_keys = stats.out_of_order_child_keys.saturating_add(1);
            continue;
        }
        kept.push((key, loc.pgno));
    }
    proof {
        assert(locs@.take(i as int) =~= locs@);
    }
    let ghost stack0 = stack@;
    let first_key: Option<u64> = if kept.len() > 0 {
        Some(kept[0].0)
    } else {
        None
    };
    if let Some(child) = sentinel_child {
        let child_bounds = bounds.narrowed(None, first_key);
        if child_bounds.is_empty() {
            stats.out_of_range_child_pointers = stats.out_of_range_child_pointers.saturating_add(1);
        } else if !prune_child(child, shared_limit, shared) {
            stack.push((child, level, child_bounds));
        }
    }
    let ghost s2: StatsView = match sentinel_child {
        Some(_child) => empty_offer(
            route_key_counts(stats_view(*old(stats)), locs@),
            narrow(bounds, None, first_key),
        ),
        None => route_key_counts(stats_view(*old(stats)), locs@),
    };
    let ghost start: (Seq<(u32, u32, KeyBounds)>, Set<u32>) = match sentinel_child {
        Some(child) => offer_child((Seq::empty(), old(shared)@), child, level, narrow(bounds, None, first_key), shared_limit),
        None => (Seq::empty(), old(shared)@),
    };
    proof {
        assert(stack@ =~= stack0 + start.0);
    }
    let mut j: usize = 0;
    while j < kept.len()
        invariant
            j <= kept.len(),
            shared_grows(old(shared)@, shared@, shared_limit),
            stack0 == old(stack)@,
            stats_view(*stats) == kept_counts(kept@, j as int, bounds, s2),
            ({
                let acc = kept_frames(kept@, j as int, level, bounds, shared_limit, start);
                stack@ == stack0 + acc.0 && shared@ == acc.1
            }),
        decreases kept.len() - j,
    {
        let ghost acc0 = kept_frames(kept@, j as int, level, bounds, shared_limit, start);
        let ghost st0 = stack@;
        let (key, child) = kept[j];
        let next_key: Option<u64> = if j + 1 < kept.len() {
            Some(kept[j + 1].0)
        } else {
            None
        };
        j += 1;
        let child_bounds = bounds.narrowed(Some(key), next_key);
        if child_bounds.is_empty() {
            stats.out_of_range_child_pointers = stats.out_of_range_child_pointers.saturating_add(1);
            continue;
        }
        if !prune_child(child, shared_limit, shared) {
            stack.push((child, level, child_bounds));
            proof {
                assert(stack@ =~= stack0 + acc0.0.push((child, level, child_bounds)));
            }
        }
    }
}

/// Walks one index tree and collects its point-reachable leaf entries.
///
/// Routing ignores flags and keeps the first pointer of a key; children out of
/// key order are never routed to; each subtree answers only for
/// `[its key, next key)` within the parent's interval, the sentinel for
/// `(-inf, first key)`; leaf entries outside their leaf's interval are leftovers of
/// recycled pages. The level must strictly decrease on descent and each page is
/// visited at most once. An unreadable root is an error; unreadable children and
/// level regressions are skipped and counted. `shared_limit` selects the pruning
/// rule (see [`prune_child`]).
pub fn walk_tree<P: IndexPages>(
    pages: &mut P,
    root: u32,
    shared_limit: Option<u32>,
    shared: &mut BTreeSet<u32>,
) -> (r: Result<WalkOutcome, DiffError>)
    ensures
        forall|q: u32| #[trigger] final(pages).page_at(q) == old(pages).page_at(q),
        r is Err <==> old(pages).page_at(root) is None,
        r is Err ==> r == Err::<WalkOutcome, DiffError>(DiffError::UnreadableRoot { pgno: root }),
        shared_grows(old(shared)@, final(shared)@, shared_limit),
        r matches Ok(o) ==> forall|k: u64| #[trigger]
            o.touched@.contains_key(k) ==> is_leaf_entry(*old(pages), k, o.touched@[k]),
        r matches Ok(o) ==> (old(pages).page_at(root)->0.level == 0 ==> o.touched@ == absorb_leaf(
            Map::<u64, RecordLoc>::empty(),
            old(pages).page_at(root)->0.locs,
            KeyBounds::unbounded(),
        )),
        r matches Ok(o) ==> ({
            let w = walk_result(page_fn(*old(pages)), root, shared_limit, old(shared)@)->0;
            o.touched@ == w.touched && final(shared)@ == w.shared && stats_view(o.stats) == w.stats
        }),
        final(pages).requests() == old(pages).requests() + walk_requests(page_fn(*old(pages)), root, shared_limit, old(shared)@),
{
    broadcast use crate::order::group_key_order;

    let ghost p0 = *pages;
    let ghost r0 = pages.requests();
    let ghost mut rd: Seq<u32> = seq![root];
    let ghost pf = page_fn(p0);
    let mut touched: BTreeMap<u64, RecordLoc> = BTreeMap::new();
    let mut stats = WalkStats::new();
    let mut visited: BTreeSet<u32> = BTreeSet::new();
    let mut stack: Vec<(u32, u32, KeyBounds)> = Vec::new();
    visited.insert(root);
    let root_page = match pages.index_page(root) {
        Some(page) => page,
        None => {
            proof {
                assert(r0.push(root) =~= r0 + rd);
            }
            return Err(DiffError::UnreadableRoot { pgno: root });
        },
    };
    proof {
        assert(r0.push(root) =~= r0 + rd);
    }
    stats.pages_read = stats.pages_read.saturating_add(1);
    let unbounded = KeyBounds { lower: None, upper: None };
    if root_page.level == u32::MAX {
        stats.level_anomalies = stats.level_anomalies.saturating_add(1);
    } else if root_page.level == 0 {
        absorb_leaf_page(&root_page.refno_locs, unbounded, &mut touched, &mut stats);
    } else {
        route_inner_page(
            &root_page.refno_locs,
            root_page.level,
            unbounded,
            &mut stack,
            &mut stats,
            shared_limit,
            shared,
        );
    }
    proof {
        assert forall|k: u64| #[trigger] touched@.contains_key(k) implies is_leaf_entry(p0, k, touched@[k]) by {
            lemma_absorb_leaf_origin(Map::<u64, RecordLoc>::empty(), root_page.refno_locs@, unbounded, k);
            let i = choose|i: int|
                0 <= i < root_page.refno_locs@.len() && !root_page.refno_locs@[i].is_sentinel()
                    && root_page.refno_locs@[i].key() == k && leaf_loc(root_page.refno_locs@[i])
                    == touched@[k];
            assert(p0.page_at(root)->0.locs[i] == root_page.refno_locs@[i]);
        }
    }
    let ghost root_touched = touched@;
    let ghost root_leaf = root_page.level == 0;
    let ghost st0 = walk_start(pf, root, shared_limit, old(shared)@)->0;
    proof {
        assert(pf(root) == Some(root_page@));
        assert(visited@ =~= set![root]);
        assert(WalkView { stack: stack@, visited: visited@, touched: touched@, shared: shared@, stats: stats_view(stats), reads: rd } == st0);
    }
    loop
        invariant
            forall|q: u32| #[trigger] pages.page_at(q) == p0.page_at(q),
            p0.page_at(root) is Some,
            pf == page_fn(p0),
            r0 == old(pages).requests(),
            pages.requests() == r0 + rd,
            shared_grows(old(shared)@, shared@, shared_limit),
            forall|k: u64| #[trigger] touched@.contains_key(k) ==> is_leaf_entry(p0, k, touched@[k]),
            visited@.finite(),
            visited@.len() <= 0x1_0000_0000,
            root_leaf ==> stack@.len() == 0 && touched@ == root_touched,
            st0.visited.finite() && st0.visited.len() <= 0x1_0000_0000,
            walk_run(pf, WalkView { stack: stack@, visited: visited@, touched: touched@, shared: shared@, stats: stats_view(stats), reads: rd }, shared_limit)
                == walk_run(pf, st0, shared_limit),
        ensures
            stack@.len() == 0,
            walk_run(pf, WalkView { stack: stack@, visited: visited@, touched: touched@, shared: shared@, stats: stats_view(stats), reads: rd }, shared_limit)
                == walk_run(pf, st0, shared_limit),
        decreases 0x1_0000_0000 - visited@.len(), stack@.len(),
    {
        let ghost cur = WalkView { stack: stack@, visited: visited@, touched: touched@, shared: shared@, stats: stats_view(stats), reads: rd };
        let frame = stack.pop();
        let (pgno, parent_level, bounds) = match frame {
            None => {
                break;
            },
            Some(f) => f,
        };
        proof {
            assert(cur.stack.len() > 0);
            assert(cur.stack.last() == (pgno, parent_level, bounds));
            assert(cur.stack.drop_last() == stack@);
            if !cur.visited.contains(pgno) {
                lemma_u32_set_room(cur.visited, pgno);
            }
            assert(walk_run(pf, cur, shared_limit) == walk_run(pf, walk_step(pf, cur, shared_limit), shared_limit));
        }
        if visited.contains(&pgno) {
            continue;
        }
        proof {
            lemma_u32_set_room(visited@, pgno);
        }
        visited.insert(pgno);
        proof {
            assert((r0 + rd).push(pgno) =~= r0 + rd.push(pgno));
            rd = rd.push(pgno);
        }
        let page = match pages.index_page(pgno) {
            None => {
                stats.unreadable_child_pages = stats.unreadable_child_pages.saturating_add(1);
                continue;
            },
            Some(page) => page,
        };
        proof {
            assert(pf(pgno) == Some(page@));
        }
        stats.pages_read = stats.pages_read.saturating_add(1);
        if page.level >= parent_level {
            stats.level_anomalies = stats.level_anomalies.saturating_add(1);
            continue;
        }
        if page.level == 0 {
            let ghost before = touched@;
            absorb_leaf_page(&page.refno_locs, bounds, &mut touched, &mut stats);
            proof {
                assert forall|k: u64| #[trigger] touched@.contains_key(k) implies is_leaf_entry(p0, k, touched@[k]) by {
                    lemma_absorb_leaf_origin(before, page.refno_locs@, bounds, k);
                    if !(before.contains_key(k) && touched@[k] == before[k]) {
                        let i = choose|i: int|
                            0 <= i < page.refno_locs@.len() && !page.refno_locs@[i].is_sentinel()
                                && page.refno_locs@[i].key() == k && leaf_loc(page.refno_locs@[i])
                                == touched@[k];
                        assert(p0.page_at(pgno)->0.locs[i] == page.refno_locs@[i]);
                    }
                }
            }
            continue;
        }
        route_inner_page(&page.refno_locs, page.level, bounds, &mut stack, &mut stats, shared_limit, shared);
    }
    proof {
        assert(WalkView { stack: stack@, visited: visited@, touched: touched@, shared: shared@, stats: stats_view(stats), reads: rd }.stack.len() == 0);
    }
    Ok(WalkOutcome { touched, stats })
}

/// Counts of one window diff.
#[derive(Debug, Default, Clone, PartialEq)]
pub struct NetChangeStats {
    pub base: WalkStats,
    pub target: WalkStats,
    /// Shared subtree roots pruned from the target walk (distinct page numbers).
    pub shared_subtree_prunes: usize,
    pub noun_parse_failures: usize,
    pub elapsed_ms: u64,
}

impl NetChangeStats {
    /// All counters zero.
    pub fn new() -> (r: NetChangeStats)
        ensures
            stats_view(r.base) == zero_stats(),
            stats_view(r.target) == zero_stats(),
            r.shared_subtree_prunes == 0,
            r.noun_parse_failures == 0,
            r.elapsed_ms == 0,
    {
        NetChangeStats {
            base: WalkStats::new(),
            target: WalkStats::new(),
            shared_subtree_prunes: 0,
            noun_parse_failures: 0,
            elapsed_ms: 0,
        }
    }
}

/// Result of the two-root diff before enrichment.
pub struct RawDiff {
    pub added: Vec<(u64, RecordLoc)>,
    pub deleted: Vec<(u64, RecordLoc)>,
    pub modified: Vec<(u64, RecordLoc, RecordLoc)>,
    pub stats: NetChangeStats,
    /// Reachable leaf entries of the base tree that were walked.
    pub base_touched: Ghost<Map<u64, RecordLoc>>,
    /// Reachable leaf entries of the target tree.
    pub target_touched: Ghost<Map<u64, RecordLoc>>,
}

/// Every entry of the map is a leaf entry of the page source.
pub open spec fn sound_touched<P: IndexPages>(pages: P, m: Map<u64, RecordLoc>) -> bool {
    forall|k: u64| #[trigger] m.contains_key(k) ==> is_leaf_entry(pages, k, m[k])
}

/// The reachable leaf entries of the two trees, `(base, target)`: the target tree is
/// walked pruning children at or below the base end page as shared roots; the base
/// tree is then walked pruning exactly those roots, and contributes nothing when its
/// root is shared or absent.
pub open spec fn diff_touched(
    pf: spec_fn(u32) -> Option<IndexPageView>,
    base_root: Option<u32>,
    base_end_pgno: u32,
    target_root: u32,
) -> (Map<u64, RecordLoc>, Map<u64, RecordLoc>) {
    let tw = walk_result(pf, target_root, Some(base_end_pgno), Set::empty())->0;
    let base = match base_root {
        None => Map::empty(),
        Some(b) => if tw.shared.contains(b) {
            Map::empty()
        } else {
            walk_result(pf, b, None, tw.shared)->0.touched
        },
    };
    (base, tw.touched)
}

/// The counts of the two walks of `diff_touched`, `(base, target, shared roots)`: a
/// base walk that does not happen counts nothing.
pub open spec fn diff_walk_stats(
    pf: spec_fn(u32) -> Option<IndexPageView>,
    base_root: Option<u32>,
    base_end_pgno: u32,
    target_root: u32,
) -> (StatsView, StatsView, Set<u32>) {
    let tw = walk_result(pf, target_root, Some(base_end_pgno), Set::empty())->0;
    let base = match base_root {
        None => zero_stats(),
        Some(b) => if tw.shared.contains(b) {
            zero_stats()
        } else {
            walk_result(pf, b, None, tw.shared)->0.stats
        },
    };
    (base, tw.stats, tw.shared)
}

/// The pages the two-root diff asks for, in order: those of the target walk, then
/// those of the base walk when it happens (its root not shared). The walks stop at
/// an unreadable root.
pub open spec fn diff_requests(
    pf: spec_fn(u32) -> Option<IndexPageView>,
    base_root: Option<u32>,
    base_end_pgno: u32,
    target_root: u32,
) -> Seq<u32> {
    match walk_result(pf, target_root, Some(base_end_pgno), Set::empty()) {
        None => seq![target_root],
        Some(tw) => tw.reads + match base_root {
            None => Seq::empty(),
            Some(b) => if tw.shared.contains(b) {
                Seq::empty()
            } else {
                walk_requests(pf, b, None, tw.shared)
            },
        },
    }
}

/// The two-root diff. The target tree is walked first, pruning children at or below
/// the base end page and recording them as shared roots; the base tree is then
/// walked pruning exactly those roots (skipped entirely when its root is shared).
/// IO on both sides is proportional to the change, not to the tree.
pub fn diff_roots<P: IndexPages>(
    pages: &mut P,
    base_root: Option<u32>,
    base_end_pgno: u32,
    target_root: u32,
) -> (r: Result<RawDiff, DiffError>)
    ensures
        forall|q: u32| #[trigger] final(pages).page_at(q) == old(pages).page_at(q),
        old(pages).page_at(target_root) is None ==> r == Err::<RawDiff, DiffError>(
            DiffError::UnreadableRoot { pgno: target_root },
        ),
        old(pages).page_at(target_root) is Some && (base_root is None || old(pages).page_at(
            base_root->0,
        ) is Some) ==> r is Ok,
        r matches Err(e) ==> (e == DiffError::UnreadableRoot { pgno: target_root } && old(pages).page_at(
            target_root,
        ) is None) || (base_root is Some && e == DiffError::UnreadableRoot { pgno: base_root->0 }
            && old(pages).page_at(base_root->0) is None),
        r is Err <==> old(pages).page_at(target_root) is None || (base_root is Some && !diff_walk_stats(
            page_fn(*old(pages)),
            base_root,
            base_end_pgno,
            target_root,
        ).2.contains(base_root->0) && old(pages).page_at(base_root->0) is None),
        r matches Ok(d) ==> {
            &&& is_added_list(d.base_touched@, d.target_touched@, d.added@)
            &&& is_deleted_list(d.base_touched@, d.target_touched@, d.deleted@)
            &&& is_modified_list(d.base_touched@, d.target_touched@, d.modified@)
            &&& sound_touched(*old(pages), d.base_touched@)
            &&& sound_touched(*old(pages), d.target_touched@)
            &&& base_root is None ==> d.base_touched@ == Map::<u64, RecordLoc>::empty()
            &&& old(pages).page_at(target_root)->0.level == 0 ==> d.target_touched@ == absorb_leaf(
                Map::<u64, RecordLoc>::empty(),
                old(pages).page_at(target_root)->0.locs,
                KeyBounds::unbounded(),
            )
            &&& d.stats.noun_parse_failures == 0
            &&& d.stats.elapsed_ms == 0
            &&& (d.base_touched@, d.target_touched@) == diff_touched(page_fn(*old(pages)), base_root, base_end_pgno, target_root)
            &&& ({
                let (bs, ts, sh) = diff_walk_stats(page_fn(*old(pages)), base_root, base_end_pgno, target_root);
                stats_view(d.stats.base) == bs && stats_view(d.stats.target) == ts
                    && d.stats.shared_subtree_prunes == sh.len()
            })
        },
        final(pages).requests() == old(pages).requests() + diff_requests(
            page_fn(*old(pages)),
            base_root,
            base_end_pgno,
            target_root,
        ),
{
    broadcast use crate::order::group_key_order;

    let ghost p0 = *pages;
    let mut shared_roots: BTreeSet<u32> = BTreeSet::new();
    proof {
        assert(shared_roots@ =~= Set::<u32>::empty());
    }
    let target_walk = match walk_tree(pages, target_root, Some(base_end_pgno), &mut shared_roots) {
        Ok(w) => w,
        Err(e) => {
            return Err(e);
        },
    };
    proof {
        assert(page_fn(*pages) =~= page_fn(p0));
    }
    let ghost r1 = pages.requests();
    let base_walk = match base_root {
        Some(root) => {
            if shared_roots.contains(&root) {
                WalkOutcome { touched: BTreeMap::new(), stats: WalkStats::new() }
            } else {
                match walk_tree(pages, root, None, &mut shared_roots) {
                    Ok(w) => w,
                    Err(e) => {
                        proof {
                            assert(pages.requests() =~= p0.requests() + diff_requests(page_fn(p0), base_root, base_end_pgno, target_root));
                        }
                        return Err(e);
                    },
                }
            }
        },
        None => WalkOutcome { touched: BTreeMap::new(), stats: WalkStats::new() },
    };
    proof {
        assert(pages.requests() =~= p0.requests() + diff_requests(page_fn(p0), base_root, base_end_pgno, target_root));
    }
    proof {
        assert forall|k: u64| #[trigger] base_walk.touched@.contains_key(k) implies is_leaf_entry(p0, k, base_walk.touched@[k]) by {
            let pg = choose|pg: u32, i: int|
                #![trigger pages.page_at(pg), leaf_loc(pages.page_at(pg)->0.locs[i])]
                pages.page_at(pg) is Some && pages.page_at(pg)->0.level == 0 && 0 <= i
                    < pages.page_at(pg)->0.locs.len() && !pages.page_at(pg)->0.locs[i].is_sentinel()
                    && pages.page_at(pg)->0.locs[i].key() == k && leaf_loc(pages.page_at(pg)->0.locs[i])
                    == base_walk.touched@[k];
            assert(pages.page_at(pg.0) == p0.page_at(pg.0));
        }
    }
    let (added, deleted, modified) = classify(&base_walk.touched, &target_walk.touched);
    let shared_subtree_prunes = shared_roots.len();
    Ok(RawDiff {
        added,
        deleted,
        modified,
        stats: NetChangeStats {
            base: base_walk.stats,
            target: target_walk.stats,
            shared_subtree_prunes,
            noun_parse_failures: 0,
            elapsed_ms: 0,
        },
        base_touched: Ghost(base_walk.touched@),
        target_touched: Ghost(target_walk.touched@),
    })
}

/// A page that a walk with this limit may still request: one above the limit, or,
/// without a limit, one that is not a recorded shared root.
pub open spec fn unpruned(limit: Option<u32>, shared: Set<u32>, pg: u32) -> bool {
    match limit {
        Some(e) => pg > e,
        None => !shared.contains(pg),
    }
}

/// The request discipline of a walk begun at `root` over the shared roots `shared0`:
/// the root first, no page twice, the visited pages exactly those requested, every
/// later request and pending frame unpruned, and new shared roots at or below the
/// limit.
pub open spec fn reads_kept(st: WalkView, root: u32, limit: Option<u32>, shared0: Set<u32>) -> bool {
    &&& st.reads.len() > 0 && st.reads[0] == root
    &&& st.reads.no_duplicates()
    &&& st.visited == st.reads.to_set()
    &&& forall|i: int| 1 <= i < st.reads.len() ==> unpruned(limit, shared0, #[trigger] st.reads[i])
    &&& forall|i: int| 0 <= i < st.stack.len() ==> unpruned(limit, shared0, (#[trigger] st.stack[i]).0)
    &&& limit is None ==> st.shared == shared0
    &&& forall|x: u32| #[trigger] st.shared.contains(x) ==> shared0.contains(x) || (limit matches Some(e) && x <= e)
}

/// The frames of offered children keep the discipline.
proof fn lemma_offer_unpruned(
    acc: (Seq<(u32, u32, KeyBounds)>, Set<u32>),
    child: u32,
    level: u32,
    cb: KeyBounds,
    limit: Option<u32>,
    shared0: Set<u32>,
)
    requires
        forall|i: int| 0 <= i < acc.0.len() ==> unpruned(limit, shared0, (#[trigger] acc.0[i]).0),
        limit is None ==> acc.1 == shared0,
        forall|x: u32| #[trigger] acc.1.contains(x) ==> shared0.contains(x) || (limit matches Some(e) && x <= e),
    ensures
        ({
            let r = offer_child(acc, child, level, cb, limit);
            &&& forall|i: int| 0 <= i < r.0.len() ==> unpruned(limit, shared0, (#[trigger] r.0[i]).0)
            &&& limit is None ==> r.1 == shared0
            &&& forall|x: u32| #[trigger] r.1.contains(x) ==> shared0.contains(x) || (limit matches Some(e) && x <= e)
        }),
{
    let r = offer_child(acc, child, level, cb, limit);
    assert forall|i: int| 0 <= i < r.0.len() implies unpruned(limit, shared0, (#[trigger] r.0[i]).0) by {
        if i < acc.0.len() {
            assert(r.0[i] == acc.0[i]);
        }
    }
}

/// The frames of the first `k` kept children keep the discipline.
proof fn lemma_kept_frames_unpruned(
    kept: Seq<(u64, u32)>,
    k: int,
    level: u32,
    bounds: KeyBounds,
    limit: Option<u32>,
    acc: (Seq<(u32, u32, KeyBounds)>, Set<u32>),
    shared0: Set<u32>,
)
    requires
        forall|i: int| 0 <= i < acc.0.len() ==> unpruned(limit, shared0, (#[trigger] acc.0[i]).0),
        limit is None ==> acc.1 == shared0,
        forall|x: u32| #[trigger] acc.1.contains(x) ==> shared0.contains(x) || (limit matches Some(e) && x <= e),
    ensures
        ({
            let r = kept_frames(kept, k, level, bounds, limit, acc);
            &&& forall|i: int| 0 <= i < r.0.len() ==> unpruned(limit, shared0, (#[trigger] r.0[i]).0)
            &&& limit is None ==> r.1 == shared0
            &&& forall|x: u32| #[trigger] r.1.contains(x) ==> shared0.contains(x) || (limit matches Some(e) && x <= e)
        }),
    decreases k,
{
    if k > 0 {
        lemma_kept_frames_unpruned(kept, k - 1, level, bounds, limit, acc, shared0);
        let prev = kept_frames(kept, k - 1, level, bounds, limit, acc);
        let next = if k < kept.len() {
            Some(kept[k].0)
        } else {
            None
        };
        lemma_offer_unpruned(prev, kept[k - 1].1, level, narrow(bounds, Some(kept[k - 1].0), next), limit, shared0);
    }
}

/// One step keeps the request discipline.
proof fn lemma_walk_step_reads(pf: spec_fn(u32) -> Option<IndexPageView>, st: WalkView, root: u32, limit: Option<u32>, shared0: Set<u32>)
    requires
        reads_kept(st, root, limit, shared0),
        st.stack.len() > 0,
    ensures
        reads_kept(walk_step(pf, st, limit), root, limit, shared0),
{
    broadcast use vstd::seq_lib::group_seq_properties;

    let f = st.stack.last();
    let rest = st.stack.drop_last();
    let nx = walk_step(pf, st, limit);
    assert(unpruned(limit, shared0, st.stack[st.stack.len() - 1].0));
    if !st.visited.contains(f.0) {
        assert(!st.reads.contains(f.0));
        let rs = st.reads.push(f.0);
        assert(rs.to_set() =~= st.reads.to_set().insert(f.0));
        assert(rs.no_duplicates()) by {
            assert forall|i: int, j: int| 0 <= i < rs.len() && 0 <= j < rs.len() && i != j implies rs[i] != rs[j] by {
                if i < st.reads.len() && j < st.reads.len() {
                } else if i == st.reads.len() {
                    assert(st.reads.contains(rs[j]));
                } else {
                    assert(st.reads.contains(rs[i]));
                }
            }
        }
        assert(nx.reads == rs);
        assert forall|i: int| 1 <= i < rs.len() implies unpruned(limit, shared0, #[trigger] rs[i]) by {
            if i < st.reads.len() {
                assert(rs[i] == st.reads[i]);
            }
        }
        if let Some(page) = pf(f.0) {
            if page.level < f.1 && page.level != 0 {
                let (sc, kept, _seen) = route_keys(page.locs);
                let first = if kept.len() > 0 {
                    Some(kept[0].0)
                } else {
                    None
                };
                let e0: (Seq<(u32, u32, KeyBounds)>, Set<u32>) = (Seq::empty(), st.shared);
                let start = match sc {
                    Some(child) => offer_child(e0, child, page.level, narrow(f.2, None, first), limit),
                    None => e0,
                };
                if let Some(child) = sc {
                    lemma_offer_unpruned(e0, child, page.level, narrow(f.2, None, first), limit, shared0);
                }
                lemma_kept_frames_unpruned(kept, kept.len() as int, page.level, f.2, limit, start, shared0);
                let (fr, sh) = route_page(page.locs, page.level, f.2, limit, st.shared);
                assert(nx.stack == rest + fr);
                assert forall|i: int| 0 <= i < nx.stack.len() implies unpruned(limit, shared0, (#[trigger] nx.stack[i]).0) by {
                    if i < rest.len() {
                        assert(nx.stack[i] == st.stack[i]);
                    } else {
                        assert(nx.stack[i] == fr[i - rest.len()]);
                    }
                }
            } else {
                assert forall|i: int| 0 <= i < nx.stack.len() implies unpruned(limit, shared0, (#[trigger] nx.stack[i]).0) by {
                    assert(nx.stack[i] == st.stack[i]);
                }
            }
        } else {
            assert forall|i: int| 0 <= i < nx.stack.len() implies unpruned(limit, shared0, (#[trigger] nx.stack[i]).0) by {
                assert(nx.stack[i] == st.stack[i]);
            }
        }
    } else {
        assert forall|i: int| 0 <= i < nx.stack.len() implies unpruned(limit, shared0, (#[trigger] nx.stack[i]).0) by {
            assert(nx.stack[i] == st.stack[i]);
        }
    }
}

/// The whole run keeps the request discipline.
proof fn lemma_walk_run_reads(pf: spec_fn(u32) -> Option<IndexPageView>, st: WalkView, root: u32, limit: Option<u32>, shared0: Set<u32>)
    requires
        reads_kept(st, root, limit, shared0),
        st.visited.finite(),
        st.visited.len() <= 0x1_0000_0000,
    ensures
        reads_kept(walk_run(pf, st, limit), root, limit, shared0),
    decreases 0x1_0000_0000 - st.visited.len(), st.stack.len(),
{
    if st.stack.len() > 0 {
        if !st.visited.contains(st.stack.last().0) {
            lemma_u32_set_room(st.visited, st.stack.last().0);
        }
        lemma_walk_step_reads(pf, st, root, limit, shared0);
        lemma_walk_run_reads(pf, walk_step(pf, st, limit), root, limit, shared0);
    }
}

/// How many of the requested pages can be read.
pub open spec fn readable_count(pf: spec_fn(u32) -> Option<IndexPageView>, rs: Seq<u32>) -> nat
    decreases rs.len(),
{
    if rs.len() == 0 {
        0
    } else {
        readable_count(pf, rs.drop_last()) + if pf(rs.last()) is Some {
            1nat
        } else {
            0nat
        }
    }
}

/// A count that stops at the largest `usize`.
pub open spec fn capped(n: nat) -> usize {
    if n >= usize::MAX {
        usize::MAX
    } else {
        n as usize
    }
}

/// Scanning a leaf's entries leaves the page counts alone.
proof fn lemma_absorb_keeps_pages(m: Map<u64, RecordLoc>, st: StatsView, locs: Seq<RefnoDataLoc>, b: KeyBounds)
    ensures
        absorb_counts(m, st, locs, b).pages_read == st.pages_read,
    decreases locs.len(),
{
    if locs.len() > 0 {
        lemma_absorb_keeps_pages(m, st, locs.drop_last(), b);
    }
}

/// Routing an inner page leaves the page counts alone.
proof fn lemma_route_keeps_pages(st: StatsView, locs: Seq<RefnoDataLoc>, bounds: KeyBounds)
    ensures
        route_counts(st, locs, bounds).pages_read == st.pages_read,
{
    lemma_route_keys_keep_pages(st, locs);
    let s = route_key_counts(st, locs);
    let (sc, kept, _seen) = route_keys(locs);
    let first = if kept.len() > 0 {
        Some(kept[0].0)
    } else {
        None
    };
    let s2 = match sc {
        Some(_child) => empty_offer(s, narrow(bounds, None, first)),
        None => s,
    };
    lemma_kept_counts_keep_pages(kept, kept.len() as int, bounds, s2);
}

proof fn lemma_route_keys_keep_pages(st: StatsView, locs: Seq<RefnoDataLoc>)
    ensures
        route_key_counts(st, locs).pages_read == st.pages_read,
    decreases locs.len(),
{
    if locs.len() > 0 {
        lemma_route_keys_keep_pages(st, locs.drop_last());
    }
}

proof fn lemma_kept_counts_keep_pages(kept: Seq<(u64, u32)>, k: int, bounds: KeyBounds, st: StatsView)
    ensures
        kept_counts(kept, k, bounds, st).pages_read == st.pages_read,
    decreases k,
{
    if k > 0 {
        lemma_kept_counts_keep_pages(kept, k - 1, bounds, st);
    }
}

/// One step keeps the page count equal to the readable pages requested.
proof fn lemma_walk_step_pages(pf: spec_fn(u32) -> Option<IndexPageView>, st: WalkView, limit: Option<u32>)
    requires
        st.stats.pages_read == capped(readable_count(pf, st.reads)),
        st.stack.len() > 0,
    ensures
        walk_step(pf, st, limit).stats.pages_read == capped(readable_count(pf, walk_step(pf, st, limit).reads)),
{
    let f = st.stack.last();
    if !st.visited.contains(f.0) {
        let rs = st.reads.push(f.0);
        assert(rs.drop_last() =~= st.reads);
        if let Some(page) = pf(f.0) {
            let read = StatsView { pages_read: sat_inc(st.stats.pages_read), ..st.stats };
            if page.level < f.1 {
                if page.level == 0 {
                    lemma_absorb_keeps_pages(st.touched, read, page.locs, f.2);
                } else {
                    lemma_route_keeps_pages(read, page.locs, f.2);
                }
            }
        }
    }
}

/// The whole run keeps the page count equal to the readable pages requested.
proof fn lemma_walk_run_pages(pf: spec_fn(u32) -> Option<IndexPageView>, st: WalkView, limit: Option<u32>)
    requires
        st.stats.pages_read == capped(readable_count(pf, st.reads)),
        st.visited.finite(),
        st.visited.len() <= 0x1_0000_0000,
    ensures
        walk_run(pf, st, limit).stats.pages_read == capped(readable_count(pf, walk_run(pf, st, limit).reads)),
    decreases 0x1_0000_0000 - st.visited.len(), st.stack.len(),
{
    if st.stack.len() > 0 {
        if !st.visited.contains(st.stack.last().0) {
            lemma_u32_set_room(st.visited, st.stack.last().0);
        }
        lemma_walk_step_pages(pf, st, limit);
        lemma_walk_run_pages(pf, walk_step(pf, st, limit), limit);
    }
}

/// A finished walk counts as pages read exactly the requested pages that could be
/// read (up to the largest `usize`).
pub proof fn law_walk_counts_pages_read(pf: spec_fn(u32) -> Option<IndexPageView>, root: u32, limit: Option<u32>, shared: Set<u32>)
    ensures
        walk_result(pf, root, limit, shared) matches Some(w) ==> w.stats.pages_read == capped(readable_count(pf, w.reads)),
{
    if let Some(st) = walk_start(pf, root, limit, shared) {
        let page = pf(root)->0;
        let read = StatsView { pages_read: 1, ..zero_stats() };
        assert(st.reads.drop_last() =~= Seq::<u32>::empty());
        assert(st.reads.last() == root);
        assert(readable_count(pf, Seq::<u32>::empty()) == 0);
        assert(readable_count(pf, st.reads) == 1);
        if page.level != u32::MAX {
            if page.level == 0 {
                lemma_absorb_keeps_pages(Map::empty(), read, page.locs, KeyBounds::unbounded());
            } else {
                lemma_route_keeps_pages(read, page.locs, KeyBounds::unbounded());
            }
        }
        assert(st.visited =~= set![root]);
        lemma_walk_run_pages(pf, st, limit);
    }
}

/// A tree walk asks for its root first and for no page twice. With a limit, every
/// page it asks for after the root lies above the limit, so no subtree at or below
/// it is read; without one, it asks for no shared root after its root. The shared
/// roots it records lie at or below the limit.
pub proof fn law_walk_requests(pf: spec_fn(u32) -> Option<IndexPageView>, root: u32, limit: Option<u32>, shared: Set<u32>)
    ensures
        ({
            let rq = walk_requests(pf, root, limit, shared);
            &&& rq.len() > 0 && rq[0] == root
            &&& rq.no_duplicates()
            &&& forall|i: int| 1 <= i < rq.len() ==> unpruned(limit, shared, #[trigger] rq[i])
        }),
        walk_result(pf, root, limit, shared) matches Some(w) ==> (forall|x: u32| #[trigger] w.shared.contains(x)
            ==> shared.contains(x) || (limit matches Some(e) && x <= e)),
{
    if let Some(st) = walk_start(pf, root, limit, shared) {
        let page = pf(root)->0;
        assert(st.reads.to_set() =~= set![root]) by {
            assert(st.reads == seq![root]);
            assert(st.reads[0] == root);
        }
        if page.level != u32::MAX && page.level != 0 {
            let (sc, kept, _seen) = route_keys(page.locs);
            let ub = KeyBounds::unbounded();
            let first = if kept.len() > 0 {
                Some(kept[0].0)
            } else {
                None
            };
            let e0: (Seq<(u32, u32, KeyBounds)>, Set<u32>) = (Seq::empty(), shared);
            let start = match sc {
                Some(child) => offer_child(e0, child, page.level, narrow(ub, None, first), limit),
                None => e0,
            };
            if let Some(child) = sc {
                lemma_offer_unpruned(e0, child, page.level, narrow(ub, None, first), limit, shared);
            }
            lemma_kept_frames_unpruned(kept, kept.len() as int, page.level, ub, limit, start, shared);
        }
        assert(reads_kept(st, root, limit, shared));
        lemma_walk_run_reads(pf, st, root, limit, shared);
    }
}

/// The two-root diff reads no shared subtree: after the target root, the target
/// walk asks only for pages above the base end page, and no page it asks for but its
/// root is a shared root; the base walk asks for no shared root at all, and is not
/// made when the base root is shared.
pub proof fn law_diff_requests(pf: spec_fn(u32) -> Option<IndexPageView>, base_root: Option<u32>, base_end_pgno: u32, target_root: u32)
    ensures
        ({
            let rq = diff_requests(pf, base_root, base_end_pgno, target_root);
            &&& rq.len() > 0 && rq[0] == target_root
            &&& walk_result(pf, target_root, Some(base_end_pgno), Set::empty()) matches Some(tw) ==> {
                &&& rq.take(tw.reads.len() as int) == tw.reads
                &&& tw.reads.no_duplicates()
                &&& forall|i: int| 1 <= i < tw.reads.len() ==> #[trigger] rq[i] > base_end_pgno
                &&& forall|i: int| 0 <= i < rq.len() && rq[i] != target_root ==> !tw.shared.contains(#[trigger] rq[i])
                &&& (base_root matches Some(b) && tw.shared.contains(b)) ==> rq == tw.reads
            }
        }),
{
    law_walk_requests(pf, target_root, Some(base_end_pgno), Set::empty());
    if let Some(tw) = walk_result(pf, target_root, Some(base_end_pgno), Set::empty()) {
        let rq = diff_requests(pf, base_root, base_end_pgno, target_root);
        let n = tw.reads.len() as int;
        let tail: Seq<u32> = match base_root {
            None => Seq::empty(),
            Some(b) => if tw.shared.contains(b) {
                Seq::empty()
            } else {
                walk_requests(pf, b, None, tw.shared)
            },
        };
        assert(rq == tw.reads + tail);
        assert(rq.take(n) =~= tw.reads);
        if let Some(b) = base_root {
            if !tw.shared.contains(b) {
                law_walk_requests(pf, b, None, tw.shared);
            }
        }
        assert forall|i: int| 0 <= i < rq.len() && rq[i] != target_root implies !tw.shared.contains(#[trigger] rq[i]) by {
            if i < n {
                assert(rq[i] == tw.reads[i]);
                assert(i >= 1);
            } else {
                assert(rq[i] == tail[i - n]);
            }
        }
        if base_root matches Some(b) && tw.shared.contains(b) {
            assert(rq =~= tw.reads);
        }
    }
}

/// One net change.
#[derive(Debug, Clone, PartialEq)]
pub struct NetEntry {
    pub refno: u64,
    /// Added / modified: the target record; deleted: the last base record.
    pub loc: RecordLoc,
    /// Modified only: the base record.
    pub base_loc: Option<RecordLoc>,
    /// Session owning the record page of `loc`.
    pub last_touch_sesno: Option<i32>,
    /// Type name decoded from the record at `loc` when asked for.
    pub noun: Option<String>,
}

/// Net additions, deletions and modifications of one session window.
#[derive(Debug, Clone, PartialEq)]
pub struct NetChangeSet {
    pub requested_start: i32,
    pub requested_end: i32,
    /// Newest session before the window start (`None`: empty base tree).
    pub base_sesno: Option<i32>,
    /// Newest session at or before the window end.
    pub target_sesno: i32,
    pub added: Vec<NetEntry>,
    pub deleted: Vec<NetEntry>,
    pub modified: Vec<NetEntry>,
    pub stats: NetChangeStats,
}

impl NetChangeSet {
    /// A change set without entries.
    pub fn empty(start: i32, end: i32, base_sesno: Option<i32>, target_sesno: i32) -> (r: NetChangeSet)
        ensures
            r.requested_start == start,
            r.requested_end == end,
            r.base_sesno == base_sesno,
            r.target_sesno == target_sesno,
            r.added@.len() == 0,
            r.deleted@.len() == 0,
            r.modified@.len() == 0,
            r.stats.noun_parse_failures == 0,
            r.stats.shared_subtree_prunes == 0,
            stats_view(r.stats.base) == zero_stats(),
            stats_view(r.stats.target) == zero_stats(),
    {
        NetChangeSet {
            requested_start: start,
            requested_end: end,
            base_sesno,
            target_sesno,
            added: Vec::new(),
            deleted: Vec::new(),
            modified: Vec::new(),
            stats: NetChangeStats::new(),
        }
    }
}

/// `std::ops::RangeInclusive::start`: the lower bound of a range that has not been
/// iterated to its end.
pub assume_specification<Idx>[ RangeInclusive::<Idx>::start ](r: &RangeInclusive<Idx>) -> (res: &Idx)
    ensures
        !r@.exhausted ==> *res == r@.start,
;

/// `std::ops::RangeInclusive::end`: the upper bound of a range that has not been
/// iterated to its end.
pub assume_specification<Idx>[ RangeInclusive::<Idx>::end ](r: &RangeInclusive<Idx>) -> (res: &Idx)
    ensures
        !r@.exhausted ==> *res == r@.end,
;

/// `std::time::Instant`, carried opaquely.
#[verifier::external_type_specification]
#[verifier::external_body]
pub struct ExInstant(Instant);

/// `Instant::now`: the current time; nothing is promised of it.
#[verifier::external_body]
fn clock_now() -> Instant {
    Instant::now()
}

/// `Instant::elapsed`, in whole milliseconds (truncated to `u64`); nothing is promised
/// of the value.
#[verifier::external_body]
fn elapsed_ms(started: &Instant) -> u64 {
    started.elapsed().as_millis() as u64
}

/// `(index root, end page)` of a session, when the session and its page are known.
pub open spec fn spec_session_anchor(io: PdmsIO, sesno: i32) -> Option<(u32, u32)> {
    if io.sesno_pgno_map@.contains_key(sesno) {
        match ses_page_at(io.session_pages@, io.sesno_pgno_map@[sesno]) {
            Some(p) => Some((p.index_root_pageno, p.end_pgno)),
            None => None,
        }
    } else {
        None
    }
}

/// Index root of a session (0 when unknown).
pub open spec fn anchor_root(io: PdmsIO, sesno: i32) -> u32 {
    match spec_session_anchor(io, sesno) {
        Some((root, _end)) => root,
        None => 0,
    }
}

/// End page of a session (0 when unknown).
pub open spec fn anchor_end(io: PdmsIO, sesno: i32) -> u32 {
    match spec_session_anchor(io, sesno) {
        Some((_root, end)) => end,
        None => 0,
    }
}

/// The decoded type name of the record at `loc`, when it decodes.
pub open spec fn noun_at(io: PdmsIO, loc: RecordLoc) -> Option<Seq<char>> {
    match record_at(io.records@, loc.spec_att_offset()) {
        Some(v) => Some(v.noun_name),
        None => None,
    }
}

/// An enriched entry: its session is the least session holding its record page;
/// its type name is decoded when asked for.
pub open spec fn enriched(io: PdmsIO, with_noun: bool, e: NetEntry) -> bool {
    &&& e.last_touch_sesno is Some
    &&& is_least_session_of(io.ses_range_map@, e.loc.pgno, e.last_touch_sesno->0)
    &&& !with_noun ==> e.noun is None
    &&& with_noun ==> match e.noun {
        Some(n) => noun_at(io, e.loc) == Some(n@),
        None => noun_at(io, e.loc) is None,
    }
}

pub open spec fn entries2(raw: Seq<(u64, RecordLoc)>, es: Seq<NetEntry>, io: PdmsIO, with_noun: bool) -> bool {
    &&& es.len() == raw.len()
    &&& forall|i: int|
        0 <= i < es.len() ==> (#[trigger] es[i]).refno == raw[i].0 && es[i].loc == raw[i].1
            && es[i].base_loc is None && enriched(io, with_noun, es[i])
}

pub open spec fn entries3(raw: Seq<(u64, RecordLoc, RecordLoc)>, es: Seq<NetEntry>, io: PdmsIO, with_noun: bool) -> bool {
    &&& es.len() == raw.len()
    &&& forall|i: int|
        0 <= i < es.len() ==> (#[trigger] es[i]).refno == raw[i].0 && es[i].loc == raw[i].1
            && es[i].base_loc == Some(raw[i].2) && enriched(io, with_noun, es[i])
}

/// The lists of a change set are the classification of two sound reachable sets.
pub open spec fn classifies(io: PdmsIO, set: NetChangeSet, with_noun: bool, base: Map<u64, RecordLoc>, target: Map<u64, RecordLoc>) -> bool {
    &&& sound_touched(io, base)
    &&& sound_touched(io, target)
    &&& exists|a: Seq<(u64, RecordLoc)>, d: Seq<(u64, RecordLoc)>, m: Seq<(u64, RecordLoc, RecordLoc)>|
        is_added_list(base, target, a) && is_deleted_list(base, target, d) && is_modified_list(
            base,
            target,
            m,
        ) && entries2(a, set.added@, io, with_noun) && entries2(d, set.deleted@, io, with_noun)
            && entries3(m, set.modified@, io, with_noun)
}

/// Entries whose type name is absent.
pub open spec fn undecoded(es: Seq<NetEntry>) -> nat
    decreases es.len(),
{
    if es.len() == 0 {
        0
    } else {
        undecoded(es.drop_last()) + if es.last().noun is None {
            1nat
        } else {
            0nat
        }
    }
}

/// Absent type names of two lists together.
pub proof fn lemma_undecoded_concat(a: Seq<NetEntry>, b: Seq<NetEntry>)
    ensures
        undecoded(a + b) == undecoded(a) + undecoded(b),
    decreases b.len(),
{
    if b.len() > 0 {
        lemma_undecoded_concat(a, b.drop_last());
        assert((a + b).drop_last() =~= a + b.drop_last());
    } else {
        assert(a + b =~= a);
    }
}

/// `x + n`, stopping at the largest count.
pub open spec fn sat_add(x: usize, n: nat) -> usize {
    if x + n >= usize::MAX {
        usize::MAX
    } else {
        (x + n) as usize
    }
}

/// The decode failures counted over `es` when type names are asked for.
pub open spec fn failures_after(start: usize, with_noun: bool, es: Seq<NetEntry>) -> usize {
    if with_noun {
        sat_add(start, undecoded(es))
    } else {
        start
    }
}

/// Enriches raw entries: last-touch session (its absence is an error) and, when
/// asked, the record's type name (decode failures are counted, not fatal).
fn enrich(
    io: &PdmsIO,
    raw: &Vec<(u64, RecordLoc)>,
    with_noun: bool,
    failures: &mut usize,
) -> (r: Result<Vec<NetEntry>, DiffError>)
    ensures
        r matches Ok(es) ==> entries2(raw@, es@, *io, with_noun),
        r matches Ok(es) ==> *final(failures) == failures_after(*old(failures), with_noun, es@),
        r matches Err(e) ==> exists|i: int|
            0 <= i < raw@.len() && e == (DiffError::NoLastTouchSession { refno: raw@[i].0, pgno: (#[trigger] raw@[i]).1.pgno })
                && !has_session_of(io.ses_range_map@, raw@[i].1.pgno),
        r matches Err(e) ==> (e matches DiffError::NoLastTouchSession { refno, pgno } && !has_session_of(
            io.ses_range_map@,
            pgno,
        )),
        (forall|i: int| 0 <= i < raw@.len() ==> has_session_of(io.ses_range_map@, (#[trigger] raw@[i]).1.pgno)) ==> r is Ok,
{
    let mut out: Vec<NetEntry> = Vec::new();
    let mut i: usize = 0;
    while i < raw.len()
        invariant
            i <= raw.len(),
            out@.len() == i,
            *failures == failures_after(*old(failures), with_noun, out@),
            forall|j: int|
                0 <= j < i ==> (#[trigger] out@[j]).refno == raw@[j].0 && out@[j].loc == raw@[j].1
                    && out@[j].base_loc is None && enriched(*io, with_noun, out@[j]),
        decreases raw.len() - i,
    {
        let (refno, loc) = raw[i];
        let entry = match enrich_one(io, refno, loc, None, with_noun, failures) {
            Ok(e) => e,
            Err(e) => {
                return Err(e);
            },
        };
        let ghost prev = out@;
        out.push(entry);
        proof {
            assert(out@.drop_last() == prev);
        }
        i += 1;
    }
    Ok(out)
}

fn enrich3(
    io: &PdmsIO,
    raw: &Vec<(u64, RecordLoc, RecordLoc)>,
    with_noun: bool,
    failures: &mut usize,
) -> (r: Result<Vec<NetEntry>, DiffError>)
    ensures
        r matches Ok(es) ==> entries3(raw@, es@, *io, with_noun),
        r matches Ok(es) ==> *final(failures) == failures_after(*old(failures), with_noun, es@),
        r matches Err(e) ==> exists|i: int|
            0 <= i < raw@.len() && e == (DiffError::NoLastTouchSession { refno: raw@[i].0, pgno: (#[trigger] raw@[i]).1.pgno })
                && !has_session_of(io.ses_range_map@, raw@[i].1.pgno),
        r matches Err(e) ==> (e matches DiffError::NoLastTouchSession { refno, pgno } && !has_session_of(
            io.ses_range_map@,
            pgno,
        )),
        (forall|i: int| 0 <= i < raw@.len() ==> has_session_of(io.ses_range_map@, (#[trigger] raw@[i]).1.pgno)) ==> r is Ok,
{
    let mut out: Vec<NetEntry> = Vec::new();
    let mut i: usize = 0;
    while i < raw.len()
        invariant
            i <= raw.len(),
            out@.len() == i,
            *failures == failures_after(*old(failures), with_noun, out@),
            forall|j: int|
                0 <= j < i ==> (#[trigger] out@[j]).refno == raw@[j].0 && out@[j].loc == raw@[j].1
                    && out@[j].base_loc == Some(raw@[j].2) && enriched(*io, with_noun, out@[j]),
        decreases raw.len() - i,
    {
        let (refno, loc, base_loc) = raw[i];
        let entry = match enrich_one(io, refno, loc, Some(base_loc), with_noun, failures) {
            Ok(e) => e,
            Err(e) => {
                return Err(e);
            },
        };
        let ghost prev = out@;
        out.push(entry);
        proof {
            assert(out@.drop_last() == prev);
        }
        i += 1;
    }
    Ok(out)
}

fn enrich_one(
    io: &PdmsIO,
    refno: u64,
    loc: RecordLoc,
    base_loc: Option<RecordLoc>,
    with_noun: bool,
    failures: &mut usize,
) -> (r: Result<NetEntry, DiffError>)
    ensures
        r matches Ok(e) ==> (e.refno == refno && e.loc == loc && e.base_loc == base_loc && enriched(*io, with_noun, e)),
        r matches Ok(e) ==> *final(failures) == (if with_noun && e.noun is None {
            sat_add(*old(failures), 1)
        } else {
            *old(failures)
        }),
        r is Err <==> !has_session_of(io.ses_range_map@, loc.pgno),
        r matches Err(e) ==> e == (DiffError::NoLastTouchSession { refno, pgno: loc.pgno }),
{
    let sesno = match io.get_sesno(loc.pgno) {
        Some(s) => s,
        None => {
            return Err(DiffError::NoLastTouchSession { refno, pgno: loc.pgno });
        },
    };
    let noun = if with_noun {
        match io.parse_raw_element(loc.att_offset()) {
            Ok(data) => Some(data.noun_name),
            Err(_) => {
                *failures = failures.saturating_add(1);
                None
            },
        }
    } else {
        None
    };
    proof {
        let t = choose|t: i32| is_least_session_of(io.ses_range_map@, loc.pgno, t) && sesno == t as u32;
        assert((t as u32) as i32 == t) by (bit_vector);
    }
    Ok(NetEntry { refno, loc, base_loc, last_touch_sesno: Some(sesno as i32), noun })
}

/// What a successful net diff returns, over the file image after the diff: the
/// requested window, the greatest sessions at or below the window end and below its
/// start, an empty set when the window holds no session or both anchors share one
/// root, and otherwise the classification of the two trees' reachable leaf entries.
pub open spec fn net_changes_hold(io: PdmsIO, range: RangeInclusive<i32>, with_noun: bool, set: NetChangeSet) -> bool {
    &&& !range@.exhausted ==> set.requested_start == range@.start && set.requested_end == range@.end
    &&& set.stats.noun_parse_failures == failures_after(
        0,
        with_noun,
        set.added@ + set.deleted@ + set.modified@,
    )
    &&& is_greatest_at_most(io.sesno_pgno_map@, set.requested_end as int, set.target_sesno)
    &&& match set.base_sesno {
        Some(b) => is_greatest_at_most(io.sesno_pgno_map@, set.requested_start - 1, b),
        None => !has_key_at_most(io.sesno_pgno_map@, set.requested_start - 1),
    }
    &&& (set.target_sesno < set.requested_start || (set.base_sesno is Some && anchor_root(
        io,
        set.base_sesno->0,
    ) == anchor_root(io, set.target_sesno))) ==> set.added@.len() == 0
        && set.deleted@.len() == 0 && set.modified@.len() == 0 && stats_view(set.stats.base) == zero_stats()
        && stats_view(set.stats.target) == zero_stats() && set.stats.shared_subtree_prunes == 0
    &&& !(set.target_sesno < set.requested_start || (set.base_sesno is Some && anchor_root(
        io,
        set.base_sesno->0,
    ) == anchor_root(io, set.target_sesno))) ==> {
        &&& spec_session_anchor(io, set.target_sesno) is Some
        &&& set.base_sesno is Some ==> spec_session_anchor(io, set.base_sesno->0) is Some
            && anchor_root(io, set.target_sesno) > anchor_end(io, set.base_sesno->0)
        &&& ({
            let touched = diff_touched(page_fn(io), window_base_root(io, set.base_sesno), window_base_end(io, set.base_sesno), anchor_root(io, set.target_sesno));
            classifies(io, set, with_noun, touched.0, touched.1)
        })
        &&& ({
            let (bs, ts, sh) = diff_walk_stats(page_fn(io), window_base_root(io, set.base_sesno), window_base_end(io, set.base_sesno), anchor_root(io, set.target_sesno));
            stats_view(set.stats.base) == bs && stats_view(set.stats.target) == ts
                && set.stats.shared_subtree_prunes == sh.len()
        })
    }
}

/// Index root of the window's base session; `None` without one.
pub open spec fn window_base_root(io: PdmsIO, base: Option<i32>) -> Option<u32> {
    match base {
        Some(b) => Some(anchor_root(io, b)),
        None => None,
    }
}

/// End page of the window's base session; 0 without one.
pub open spec fn window_base_end(io: PdmsIO, base: Option<i32>) -> u32 {
    match base {
        Some(b) => anchor_end(io, b),
        None => 0,
    }
}

/// Why a session's anchor cannot be read: the session is unknown, or its page is
/// unreadable.
pub open spec fn anchor_error(io: PdmsIO, sesno: i32) -> DiffError {
    if io.sesno_pgno_map@.contains_key(sesno) {
        DiffError::UnreadableSessionPage { sesno, ses_pgno: io.sesno_pgno_map@[sesno] }
    } else {
        DiffError::UnknownSession { sesno }
    }
}

/// Why the two-root diff fails: the target root is unreadable, or the base root is
/// walked (not a shared root of the target walk) and unreadable.
pub open spec fn diff_refusal(io: PdmsIO, base_root: Option<u32>, base_end_pgno: u32, target_root: u32) -> Option<DiffError> {
    if page_fn(io)(target_root) is None {
        Some(DiffError::UnreadableRoot { pgno: target_root })
    } else {
        match base_root {
            Some(b) => if !diff_walk_stats(page_fn(io), base_root, base_end_pgno, target_root).2.contains(b) && page_fn(io)(b)
                is None {
                Some(DiffError::UnreadableRoot { pgno: b })
            } else {
                None
            },
            None => None,
        }
    }
}

/// The stages of a net diff over an opened image before the two-root diff, in the
/// order of the checks: the window anchors, an empty window, the target anchor, the
/// base anchor, a shared root, the append-model gate. `Ok((base, target, None))`
/// answers with an empty set; `Ok((base, target, Some((base_root, base_end,
/// target_root))))` goes on to the diff.
pub open spec fn window_plan_spec(io: PdmsIO, start: i32, end: i32) -> Result<
    (Option<i32>, i32, Option<(Option<u32>, u32, u32)>),
    DiffError,
> {
    match window_anchors(io.sesno_pgno_map@, start, end) {
        Err(e) => Err(e),
        Ok((base, target)) => if target < start {
            Ok((base, target, None))
        } else {
            match spec_session_anchor(io, target) {
                None => Err(anchor_error(io, target)),
                Some((troot, _tend)) => match base {
                    Some(b) => match spec_session_anchor(io, b) {
                        None => Err(anchor_error(io, b)),
                        Some((broot, bend)) => if broot == troot {
                            Ok((base, target, None))
                        } else if troot <= bend {
                            Err(DiffError::TargetRootNotNew { base_root: broot, base_end_pgno: bend, target_root: troot })
                        } else {
                            Ok((base, target, Some((Some(broot), bend, troot))))
                        },
                    },
                    None => Ok((base, target, Some((None, 0, troot)))),
                },
            }
        },
    }
}

/// Why a net diff of `[start, end]` over an opened image is refused before its
/// entries are enriched: a refusal of the plan, or of the two-root diff.
pub open spec fn net_refusal(io: PdmsIO, start: i32, end: i32) -> Option<DiffError> {
    match window_plan_spec(io, start, end) {
        Err(e) => Some(e),
        Ok((_base, _target, None)) => None,
        Ok((_base, _target, Some((base_root, base_end, target_root)))) => diff_refusal(io, base_root, base_end, target_root),
    }
}

/// The record position reported for `k` by a diff of two reachable sets: the target
/// position of an added or modified key, the base position of a deleted one.
pub open spec fn reported_loc(base: Map<u64, RecordLoc>, target: Map<u64, RecordLoc>, k: u64) -> Option<RecordLoc> {
    if net_added(base, target, k) || net_modified(base, target, k) {
        Some(target[k])
    } else if net_deleted(base, target, k) {
        Some(base[k])
    } else {
        None
    }
}

/// The reachable leaf entries a net diff of `[start, end]` compares, `(base, target)`.
pub open spec fn window_touched(io: PdmsIO, start: i32, end: i32) -> (Map<u64, RecordLoc>, Map<u64, RecordLoc>) {
    let (base, target) = window_anchors(io.sesno_pgno_map@, start, end)->Ok_0;
    diff_touched(page_fn(io), window_base_root(io, base), window_base_end(io, base), anchor_root(io, target))
}

/// The pages a net diff of `[start, end]` over an opened image asks for: none when
/// the plan is refused or answers with an empty set, else those of the two-root diff.
pub open spec fn window_requests(io: PdmsIO, start: i32, end: i32) -> Seq<u32> {
    match window_plan_spec(io, start, end) {
        Ok((_base, _target, Some((base_root, base_end, target_root)))) => diff_requests(page_fn(io), base_root, base_end, target_root),
        _ => Seq::empty(),
    }
}

/// The image opens: its session map is built already, or the header is there and
/// the session chain walks cleanly.
pub open spec fn net_opens(io: PdmsIO) -> bool {
    !io.sesno_pgno_map@.is_empty() || (io.header is Some && chain_error(io.session_pages@, io.header->0.latest_ses_pgno)
        is None)
}

/// Opens the image when its session map is empty.
fn open_for_window(io: &mut PdmsIO) -> (r: Result<(), DiffError>)
    ensures
        final(io).session_pages@ == old(io).session_pages@,
        final(io).index_pages@ == old(io).index_pages@,
        final(io).records@ == old(io).records@,
        final(io).header == old(io).header,
        final(io).page_reads@ == old(io).page_reads@,
        r is Ok <==> net_opens(*old(io)),
        !old(io).sesno_pgno_map@.is_empty() ==> final(io).sesno_pgno_map@ == old(io).sesno_pgno_map@
            && final(io).ses_range_map@ == old(io).ses_range_map@,
        old(io).sesno_pgno_map@.is_empty() && net_opens(*old(io)) ==> Some(
            (final(io).sesno_pgno_map@, final(io).ses_range_map@),
        ) == chain_maps(old(io).session_pages@, old(io).header->0.latest_ses_pgno, Map::empty(), Map::empty()),
        old(io).sesno_pgno_map@.is_empty() && old(io).header is None ==> r == Err::<(), DiffError>(
            DiffError::Open { error: IoError::NoHeader },
        ),
        old(io).sesno_pgno_map@.is_empty() && old(io).header is Some && chain_error(
            old(io).session_pages@,
            old(io).header->0.latest_ses_pgno,
        ) is Some ==> r == Err::<(), DiffError>(
            DiffError::Open { error: chain_error(old(io).session_pages@, old(io).header->0.latest_ses_pgno)->0 },
        ),
{
    if io.sesno_pgno_map.is_empty() {
        proof {
            if old(io).header is Some {
                lemma_chain_error_iff(
                    old(io).session_pages@,
                    old(io).header->0.latest_ses_pgno,
                    Map::empty(),
                    Map::empty(),
                );
            }
        }
        match io.open() {
            Ok(()) => {},
            Err(error) => {
                return Err(DiffError::Open { error });
            },
        }
    }
    Ok(())
}

/// Resolves the window anchors and the roots to diff (see `window_plan_spec`).
fn window_plan(io: &PdmsIO, start: i32, end: i32) -> (r: Result<(Option<i32>, i32, Option<(Option<u32>, u32, u32)>), DiffError>)
    ensures
        r == window_plan_spec(*io, start, end),
        r matches Ok((base, target, roots)) ==> {
            &&& is_greatest_at_most(io.sesno_pgno_map@, end as int, target)
            &&& match base {
                Some(b) => is_greatest_at_most(io.sesno_pgno_map@, start - 1, b),
                None => !has_key_at_most(io.sesno_pgno_map@, start - 1),
            }
            &&& roots is None <==> (target < start || (base is Some && anchor_root(*io, base->0) == anchor_root(*io, target)))
            &&& roots matches Some((br, bend, tr)) ==> {
                &&& spec_session_anchor(*io, target) is Some
                &&& tr == anchor_root(*io, target)
                &&& br == window_base_root(*io, base)
                &&& bend == window_base_end(*io, base)
                &&& base is Some ==> spec_session_anchor(*io, base->0) is Some && tr > bend
            }
        },
{
    let (base_sesno, target_sesno) = match resolve_window_anchors(&io.sesno_pgno_map, start, end) {
        Ok(a) => a,
        Err(e) => {
            return Err(e);
        },
    };
    if target_sesno < start {
        return Ok((base_sesno, target_sesno, None));
    }
    let (target_root, _) = match session_anchor(io, target_sesno) {
        Ok(a) => a,
        Err(e) => {
            return Err(e);
        },
    };
    match base_sesno {
        Some(sesno) => {
            let (base_root, base_end_pgno) = match session_anchor(io, sesno) {
                Ok(a) => a,
                Err(e) => {
                    return Err(e);
                },
            };
            if base_root == target_root {
                return Ok((base_sesno, target_sesno, None));
            }
            match ensure_target_root_is_new(base_root, base_end_pgno, target_root) {
                Ok(()) => {},
                Err(e) => {
                    return Err(e);
                },
            }
            Ok((base_sesno, target_sesno, Some((Some(base_root), base_end_pgno, target_root))))
        },
        None => Ok((base_sesno, target_sesno, Some((None, 0, target_root)))),
    }
}

/// The image after a diff: only the page log and the storage of the pages may differ.
pub open spec fn image_kept(a: PdmsIO, b: PdmsIO) -> bool {
    &&& b == PdmsIO { page_reads: b.page_reads, index_pages: b.index_pages, ..a }
    &&& forall|q: u32| #[trigger] b.page_at(q) == a.page_at(q)
}

/// Diffs the two roots on the image and enriches the entries into a change set.
fn net_diff_set(
    io: &mut PdmsIO,
    head: (i32, i32, Option<i32>, i32),
    base_root: Option<u32>,
    base_end_pgno: u32,
    target_root: u32,
    with_noun: bool,
) -> (r: Result<NetChangeSet, DiffError>)
    ensures
        image_kept(*old(io), *final(io)),
        final(io).page_reads@ == old(io).page_reads@ + diff_requests(page_fn(*old(io)), base_root, base_end_pgno, target_root),
        r matches Ok(set) ==> {
            let touched = diff_touched(page_fn(*old(io)), base_root, base_end_pgno, target_root);
            let (bs, ts, sh) = diff_walk_stats(page_fn(*old(io)), base_root, base_end_pgno, target_root);
            &&& set.requested_start == head.0
            &&& set.requested_end == head.1
            &&& set.base_sesno == head.2
            &&& set.target_sesno == head.3
            &&& classifies(*old(io), set, with_noun, touched.0, touched.1)
            &&& stats_view(set.stats.base) == bs && stats_view(set.stats.target) == ts && set.stats.shared_subtree_prunes == sh.len()
            &&& set.stats.noun_parse_failures == failures_after(0, with_noun, set.added@ + set.deleted@ + set.modified@)
        },
        match diff_refusal(*old(io), base_root, base_end_pgno, target_root) {
            Some(e) => r == Err::<NetChangeSet, DiffError>(e),
            None => r is Ok || (r matches Err(DiffError::NoLastTouchSession { refno, pgno }) && reported_loc(
                diff_touched(page_fn(*old(io)), base_root, base_end_pgno, target_root).0,
                diff_touched(page_fn(*old(io)), base_root, base_end_pgno, target_root).1,
                refno,
            ) matches Some(l) && l.pgno == pgno && !has_session_of(old(io).ses_range_map@, pgno)),
        },
        diff_refusal(*old(io), base_root, base_end_pgno, target_root) is None && (forall|k: u64| #[trigger]
            reported_loc(
                diff_touched(page_fn(*old(io)), base_root, base_end_pgno, target_root).0,
                diff_touched(page_fn(*old(io)), base_root, base_end_pgno, target_root).1,
                k,
            ) matches Some(l) ==> has_session_of(old(io).ses_range_map@, l.pgno)) ==> r is Ok,
{
    let ghost io1 = *io;
    let mut source = MemPages::new(Vec::new());
    std::mem::swap(&mut source.pages, &mut io.index_pages);
    let ghost before = source;
    let outcome = diff_roots(&mut source, base_root, base_end_pgno, target_root);
    let ghost after = source;
    std::mem::swap(&mut source.pages, &mut io.index_pages);
    io.page_reads.append(&mut source.reads);
    proof {
        assert forall|q: u32| #[trigger] io.page_at(q) == io1.page_at(q) by {
            assert(io.page_at(q) == after.page_at(q));
            assert(before.page_at(q) == io1.page_at(q));
        }
        assert(page_fn(before) =~= page_fn(io1));
        assert(before.requests() == Seq::<u32>::empty());
        assert(io.page_reads@ =~= io1.page_reads@ + diff_requests(page_fn(io1), base_root, base_end_pgno, target_root));
    }
    let raw = match outcome {
        Ok(d) => d,
        Err(e) => {
            return Err(e);
        },
    };
    let ghost touched = diff_touched(page_fn(io1), base_root, base_end_pgno, target_root);
    let mut stats = raw.stats;
    let mut failures: usize = 0;
    let added = match enrich(io, &raw.added, with_noun, &mut failures) {
        Ok(v) => v,
        Err(e) => {
            proof {
                let i = choose|i: int|
                    0 <= i < raw.added@.len() && e == (DiffError::NoLastTouchSession { refno: raw.added@[i].0, pgno: (#[trigger] raw.added@[i]).1.pgno })
                        && !has_session_of(io.ses_range_map@, raw.added@[i].1.pgno);
                assert(net_added(touched.0, touched.1, raw.added@[i].0));
            }
            return Err(e);
        },
    };
    let deleted = match enrich(io, &raw.deleted, with_noun, &mut failures) {
        Ok(v) => v,
        Err(e) => {
            proof {
                let i = choose|i: int|
                    0 <= i < raw.deleted@.len() && e == (DiffError::NoLastTouchSession { refno: raw.deleted@[i].0, pgno: (#[trigger] raw.deleted@[i]).1.pgno })
                        && !has_session_of(io.ses_range_map@, raw.deleted@[i].1.pgno);
                assert(net_deleted(touched.0, touched.1, raw.deleted@[i].0));
            }
            return Err(e);
        },
    };
    let modified = match enrich3(io, &raw.modified, with_noun, &mut failures) {
        Ok(v) => v,
        Err(e) => {
            proof {
                let i = choose|i: int|
                    0 <= i < raw.modified@.len() && e == (DiffError::NoLastTouchSession { refno: raw.modified@[i].0, pgno: (#[trigger] raw.modified@[i]).1.pgno })
                        && !has_session_of(io.ses_range_map@, raw.modified@[i].1.pgno);
                assert(net_modified(touched.0, touched.1, raw.modified@[i].0));
            }
            return Err(e);
        },
    };
    stats.noun_parse_failures = failures;
    let set = NetChangeSet {
        requested_start: head.0,
        requested_end: head.1,
        base_sesno: head.2,
        target_sesno: head.3,
        added,
        deleted,
        modified,
        stats,
    };
    proof {
        assert forall|k: u64| #[trigger] raw.base_touched@.contains_key(k) implies is_leaf_entry(*io, k, raw.base_touched@[k]) by {
            let pg = choose|pg: u32, i: int|
                #![trigger before.page_at(pg), leaf_loc(before.page_at(pg)->0.locs[i])]
                before.page_at(pg) is Some && before.page_at(pg)->0.level == 0 && 0 <= i
                    < before.page_at(pg)->0.locs.len() && !before.page_at(pg)->0.locs[i].is_sentinel()
                    && before.page_at(pg)->0.locs[i].key() == k && leaf_loc(before.page_at(pg)->0.locs[i])
                    == raw.base_touched@[k];
            assert(io.page_at(pg.0) == before.page_at(pg.0));
        }
        assert forall|k: u64| #[trigger] raw.target_touched@.contains_key(k) implies is_leaf_entry(*io, k, raw.target_touched@[k]) by {
            let pg = choose|pg: u32, i: int|
                #![trigger before.page_at(pg), leaf_loc(before.page_at(pg)->0.locs[i])]
                before.page_at(pg) is Some && before.page_at(pg)->0.level == 0 && 0 <= i
                    < before.page_at(pg)->0.locs.len() && !before.page_at(pg)->0.locs[i].is_sentinel()
                    && before.page_at(pg)->0.locs[i].key() == k && leaf_loc(before.page_at(pg)->0.locs[i])
                    == raw.target_touched@[k];
            assert(io.page_at(pg.0) == before.page_at(pg.0));
        }
        assert(classifies(*io, set, with_noun, raw.base_touched@, raw.target_touched@));
        lemma_undecoded_concat(added@, deleted@);
        lemma_undecoded_concat(added@ + deleted@, modified@);
    }
    Ok(set)
}

/// Net diff of a session window of one database file.
///
/// Opens the file image when its session map is empty, resolves the window anchors,
/// and returns an empty set when the window holds no session or both anchors share
/// one index root; otherwise applies the append-model gate and diffs the two roots.
/// With `with_noun` each entry's record type name is decoded.
pub fn collect_net_changes(
    io: &mut PdmsIO,
    range: RangeInclusive<i32>,
    with_noun: bool,
) -> (r: Result<NetChangeSet, DiffError>)
    ensures
        final(io).session_pages@ == old(io).session_pages@,
        forall|q: u32| #[trigger] final(io).page_at(q) == old(io).page_at(q),
        final(io).records@ == old(io).records@,
        r matches Ok(set) ==> net_changes_hold(*final(io), range, with_noun, set),
        r matches Err(DiffError::TargetRootNotNew { base_root, base_end_pgno, target_root }) ==> target_root
            <= base_end_pgno,
        !old(io).sesno_pgno_map@.is_empty() ==> final(io).sesno_pgno_map@ == old(io).sesno_pgno_map@
            && final(io).ses_range_map@ == old(io).ses_range_map@,
        old(io).sesno_pgno_map@.is_empty() && net_opens(*old(io)) ==> Some(
            (final(io).sesno_pgno_map@, final(io).ses_range_map@),
        ) == chain_maps(old(io).session_pages@, old(io).header->0.latest_ses_pgno, Map::empty(), Map::empty()),
        old(io).sesno_pgno_map@.is_empty() && old(io).header is None ==> r == Err::<NetChangeSet, DiffError>(
            DiffError::Open { error: IoError::NoHeader },
        ),
        old(io).sesno_pgno_map@.is_empty() && old(io).header is Some && chain_error(
            old(io).session_pages@,
            old(io).header->0.latest_ses_pgno,
        ) is Some ==> r == Err::<NetChangeSet, DiffError>(
            DiffError::Open { error: chain_error(old(io).session_pages@, old(io).header->0.latest_ses_pgno)->0 },
        ),
        net_opens(*old(io)) && !range@.exhausted ==> match net_refusal(*final(io), range@.start, range@.end) {
            Some(e) => r == Err::<NetChangeSet, DiffError>(e),
            None => r is Ok || (r matches Err(DiffError::NoLastTouchSession { refno, pgno }) && reported_loc(
                window_touched(*final(io), range@.start, range@.end).0,
                window_touched(*final(io), range@.start, range@.end).1,
                refno,
            ) matches Some(l) && l.pgno == pgno && !has_session_of(final(io).ses_range_map@, pgno)),
        },
        net_opens(*old(io)) && !range@.exhausted && net_refusal(*final(io), range@.start, range@.end) is None && (forall|k: u64|
            #[trigger] reported_loc(
                window_touched(*final(io), range@.start, range@.end).0,
                window_touched(*final(io), range@.start, range@.end).1,
                k,
            ) matches Some(l) ==> has_session_of(final(io).ses_range_map@, l.pgno)) ==> r is Ok,
        net_opens(*old(io)) && !range@.exhausted ==> final(io).page_reads@ == old(io).page_reads@ + window_requests(
            *final(io),
            range@.start,
            range@.end,
        ),
        !net_opens(*old(io)) ==> final(io).page_reads@ == old(io).page_reads@,
        net_opens(*old(io)) && !range@.exhausted ==> (window_plan_spec(*final(io), range@.start, range@.end) matches Ok(
            (base, target, None),
        ) ==> (r matches Ok(set) && set.base_sesno == base && set.target_sesno == target && set.added@.len() == 0
            && set.deleted@.len() == 0 && set.modified@.len() == 0)),
        net_opens(*old(io)) && !range@.exhausted ==> ((window_anchors(final(io).sesno_pgno_map@, range@.start, range@.end) matches Ok(
            (base, target),
        ) && target < range@.start) ==> (r matches Ok(set) && set.added@.len() == 0 && set.deleted@.len() == 0
            && set.modified@.len() == 0)),
        net_opens(*old(io)) && !range@.exhausted ==> ((window_anchors(final(io).sesno_pgno_map@, range@.start, range@.end) matches Ok(
            (Some(b), target),
        ) && spec_session_anchor(*final(io), b) is Some && spec_session_anchor(*final(io), target) is Some && anchor_root(
            *final(io),
            b,
        ) == anchor_root(*final(io), target)) ==> (r matches Ok(set) && set.added@.len() == 0 && set.deleted@.len() == 0
            && set.modified@.len() == 0)),
{
    let started = clock_now();
    let start = *range.start();
    let end = *range.end();
    match open_for_window(io) {
        Ok(()) => {},
        Err(e) => {
            return Err(e);
        },
    }
    let ghost io1 = *io;
    let (base_sesno, target_sesno, roots) = match window_plan(io, start, end) {
        Ok(p) => p,
        Err(e) => {
            return Err(e);
        },
    };
    let (base_root, base_end_pgno, target_root) = match roots {
        None => {
            let mut set = NetChangeSet::empty(start, end, base_sesno, target_sesno);
            set.stats.elapsed_ms = elapsed_ms(&started);
            proof {
                assert(set.added@ + set.deleted@ + set.modified@ =~= Seq::<NetEntry>::empty());
            }
            return Ok(set);
        },
        Some(r) => r,
    };
    let outcome = net_diff_set(io, (start, end, base_sesno, target_sesno), base_root, base_end_pgno, target_root, with_noun);
    proof {
        assert(page_fn(*io) =~= page_fn(io1));
        lemma_kept_plan(io1, *io, start, end);
    }
    let mut set = match outcome {
        Ok(s) => s,
        Err(e) => {
            return Err(e);
        },
    };
    proof {
        let touched = diff_touched(page_fn(io1), base_root, base_end_pgno, target_root);
        lemma_kept_classifies(io1, *io, set, with_noun, touched.0, touched.1);
    }
    set.stats.elapsed_ms = elapsed_ms(&started);
    Ok(set)
}

/// Two images that agree but for the page log and the storage of the pages classify
/// alike.
proof fn lemma_kept_classifies(a: PdmsIO, b: PdmsIO, set: NetChangeSet, with_noun: bool, x: Map<u64, RecordLoc>, y: Map<u64, RecordLoc>)
    requires
        image_kept(a, b),
        classifies(a, set, with_noun, x, y),
    ensures
        classifies(b, set, with_noun, x, y),
{
    assert forall|k: u64, l: RecordLoc| #[trigger] is_leaf_entry(a, k, l) implies is_leaf_entry(b, k, l) by {
        let (pg, i) = choose|pg: u32, i: int|
            #![trigger a.page_at(pg), leaf_loc(a.page_at(pg)->0.locs[i])]
            a.page_at(pg) is Some && a.page_at(pg)->0.level == 0 && 0 <= i < a.page_at(pg)->0.locs.len()
                && !a.page_at(pg)->0.locs[i].is_sentinel() && a.page_at(pg)->0.locs[i].key() == k && leaf_loc(
                a.page_at(pg)->0.locs[i],
            ) == l;
        assert(b.page_at(pg) == a.page_at(pg));
    }
    assert forall|e: NetEntry| #[trigger] enriched(a, with_noun, e) implies enriched(b, with_noun, e) by {
        assert(noun_at(a, e.loc) == noun_at(b, e.loc));
    }
    let (aa, dd, mm) = choose|aa: Seq<(u64, RecordLoc)>, dd: Seq<(u64, RecordLoc)>, mm: Seq<(u64, RecordLoc, RecordLoc)>|
        is_added_list(x, y, aa) && is_deleted_list(x, y, dd) && is_modified_list(x, y, mm) && entries2(aa, set.added@, a, with_noun)
            && entries2(dd, set.deleted@, a, with_noun) && entries3(mm, set.modified@, a, with_noun);
    assert(entries2(aa, set.added@, b, with_noun));
    assert(entries2(dd, set.deleted@, b, with_noun));
    assert(entries3(mm, set.modified@, b, with_noun));
}

/// Two images that agree but for the page log and the storage of the pages plan a
/// window alike.
proof fn lemma_kept_plan(a: PdmsIO, b: PdmsIO, start: i32, end: i32)
    requires
        image_kept(a, b),
    ensures
        window_plan_spec(a, start, end) == window_plan_spec(b, start, end),
        net_refusal(a, start, end) == net_refusal(b, start, end),
        window_touched(a, start, end) == window_touched(b, start, end),
        page_fn(a) == page_fn(b),
        forall|s: i32| #[trigger] spec_session_anchor(a, s) == spec_session_anchor(b, s),
        forall|s: i32| #[trigger] anchor_root(a, s) == anchor_root(b, s) && anchor_end(a, s) == anchor_end(b, s),
        forall|x: Option<i32>| #[trigger] window_base_root(a, x) == window_base_root(b, x) && window_base_end(a, x) == window_base_end(b, x),
{
    assert(page_fn(a) =~= page_fn(b));
    assert forall|s: i32| spec_session_anchor(a, s) == spec_session_anchor(b, s) by {}
    assert forall|s: i32| anchor_root(a, s) == anchor_root(b, s) && anchor_end(a, s) == anchor_end(b, s) by {}
    assert forall|x: Option<i32>| window_base_root(a, x) == window_base_root(b, x) && window_base_end(a, x) == window_base_end(b, x) by {}
}

/// Reads the `(index root, end page)` of a session page.
pub fn session_anchor(io: &PdmsIO, sesno: i32) -> (r: Result<(u32, u32), DiffError>)
    ensures
        match spec_session_anchor(*io, sesno) {
            Some(a) => r == Ok::<(u32, u32), DiffError>(a),
            None => r is Err,
        },
        !io.sesno_pgno_map@.contains_key(sesno) ==> r == Err::<(u32, u32), DiffError>(
            DiffError::UnknownSession { sesno },
        ),
        r matches Err(e) ==> (e is UnknownSession || e is UnreadableSessionPage),
        r is Err ==> r == Err::<(u32, u32), DiffError>(anchor_error(*io, sesno)),
{
    let ses_pgno = match io.get_ses_pageno(sesno) {
        Some(p) => p,
        None => {
            return Err(DiffError::UnknownSession { sesno });
        },
    };
    match io.read_ses_data(ses_pgno) {
        Ok(data) => Ok((data.index_root_pageno, data.end_pgno)),
        Err(_) => Err(DiffError::UnreadableSessionPage { sesno, ses_pgno }),
    }
}

} // verus!
