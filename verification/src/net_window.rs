//! Net window collection: the net changes of a session window, turned into an
//! operation stream of the same shape as per-session replay — a map from session
//! number to operations, one operation per reference number: a net addition
//! becomes `Add` of the final record, a net deletion becomes `Deleted` on the window
//! end session, a net modification becomes `Modified` from one diff of the base and
//! final records (nothing when both agree). Membership reconciliation then adds the
//! deletions the index cannot see and drops elements born and deleted inside the
//! window. Nothing here consults any store but the file.
use std::collections::{BTreeMap, BTreeSet};
use std::ops::RangeInclusive;

use vstd::prelude::*;
use vstd::std_specs::iter::IteratorSpec;
use vstd::string::StringExecFns;

pub use crate::io::diff_ele_data;
use crate::io::{
    chain_error, io_message, copy_ele, has_session_of, same_content, str_eq, EleData, EleOperationData, EleOperationDetail, EleView, IdentityView, IoError,
    PdmsIO, RawElementIdentity, identity_of, record_at, spec_identity_at,
};
use crate::point_search::point_loc;
use crate::text::{decimal_spec, push_decimal, push_refno, push_signed, refno_text_spec, signed_spec};
use crate::session_index_diff::{
    classifies, collect_net_changes, entries2, entries3, is_added_list, is_deleted_list, is_modified_list, net_changes_hold, net_opens,
    net_refusal, reported_loc, window_touched, DiffError, NetChangeSet, NetChangeStats, NetEntry, RecordLoc,
};
use crate::snapshot::{DabaconSnapshot, SnapshotError, SnapshotToken, StableFileId, TokenView};

verus! {

/// Why a record could not be resolved.
#[derive(Debug, Clone, Copy, PartialEq, Eq, Structural)]
pub enum ResolveError {
    /// No record decodes at the position.
    Undecodable { pgno: u32, offset: u32 },
    /// The record at the position belongs to another reference number.
    WrongRefno { expected: u64, actual: u64, pgno: u32, offset: u32 },
    /// Neither the record nor its minimal identity decodes.
    NoIdentity { refno: u64, pgno: u32, offset: u32 },
    /// A final record that fails to decode is not on the allow list.
    NotAllowlisted { refno: u64 },
    /// An added or modified entry carries no last-touch session.
    MissingLastTouch { refno: u64 },
    /// A last-touch session number is negative.
    NegativeSession { refno: u64, sesno: i32 },
    /// A modified entry carries no base position.
    MissingBaseLoc { refno: u64 },
    /// The membership lookup of an element failed, for the reason the resolver gave.
    MemberLookupFailed { refno: u64, sesno: i32, cause: IoError },
    /// A deletion candidate has an empty owner.
    EmptyOwner { refno: u64, sesno: i32 },
    /// The owner of a deletion candidate does not exist at the target session.
    MissingOwner { refno: u64, owner: u64, sesno: i32 },
    /// Membership deletions exist but the window has no base session to expand them from.
    NoBaseSession,
    /// An element of a deleted subtree does not exist at the base session.
    MissingAtBase { refno: u64, sesno: i32 },
    /// A session number is negative.
    InvalidSession { sesno: i32 },
}

/// The message of a record or membership resolution error.
pub open spec fn resolve_message(e: ResolveError) -> Seq<char> {
    match e {
        ResolveError::Undecodable { pgno, offset } => "解析记录（页 "@ + decimal_spec(pgno as nat) + " 偏移 "@ + decimal_spec(
            offset as nat,
        ) + "）失败"@,
        ResolveError::WrongRefno { expected, actual, pgno, offset } => "解析 "@ + refno_text_spec(expected) + " 的记录（页 "@
            + decimal_spec(pgno as nat) + " 偏移 "@ + decimal_spec(offset as nat) + "）返回错误 refno "@ + refno_text_spec(actual),
        ResolveError::NoIdentity { refno, pgno, offset } => "解析 "@ + refno_text_spec(refno) + " 的终稿失败，最小身份也无法解码（页 "@
            + decimal_spec(pgno as nat) + " 偏移 "@ + decimal_spec(offset as nat) + "）"@,
        ResolveError::NotAllowlisted { refno } => "非白名单终稿 "@ + refno_text_spec(refno) + " 解析失败"@,
        ResolveError::MissingLastTouch { refno } => "净变化 "@ + refno_text_spec(refno) + " 缺 last-touch 会话"@,
        ResolveError::NegativeSession { refno, sesno } => "净变化 "@ + refno_text_spec(refno) + " 的 last-touch 会话非法: "@
            + signed_spec(sesno as int),
        ResolveError::MissingBaseLoc { refno } => "净修改条目 "@ + refno_text_spec(refno) + " 缺 base 位置——classify 的不变量被破坏"@,
        ResolveError::MemberLookupFailed { refno, sesno, cause } => "解析 "@ + refno_text_spec(refno) + " 在 sesno="@ + signed_spec(
            sesno as int,
        ) + " 的成员记录失败: "@ + io_message(cause),
        ResolveError::EmptyOwner { refno, sesno } => "成员删除候选 "@ + refno_text_spec(refno) + " 在 sesno="@ + signed_spec(
            sesno as int,
        ) + " 的 OWNER 为空"@,
        ResolveError::MissingOwner { refno, owner, sesno } => "成员删除候选 "@ + refno_text_spec(refno) + " 的 OWNER "@
            + refno_text_spec(owner) + " 在 sesno="@ + signed_spec(sesno as int) + " 不存在"@,
        ResolveError::NoBaseSession => "成员删除候选存在，但窗口没有可展开删除子树的基会话"@,
        ResolveError::MissingAtBase { refno, sesno } => "删除子树元素 "@ + refno_text_spec(refno) + " 在基会话 sesno="@
            + signed_spec(sesno as int) + " 不存在，拒绝猜测"@,
        ResolveError::InvalidSession { sesno } => "成员审计目标会话非法: "@ + signed_spec(sesno as int),
    }
}

impl ResolveError {
    /// The error as text.
    pub fn message(&self) -> (s: String)
        ensures
            s@ == resolve_message(*self),
    {
        let mut s = String::new();
        match *self {
            ResolveError::Undecodable { pgno, offset } => {
                s.append("解析记录（页 ");
                push_decimal(&mut s, pgno as u64);
                s.append(" 偏移 ");
                push_decimal(&mut s, offset as u64);
                s.append("）失败");
            },
            ResolveError::WrongRefno { expected, actual, pgno, offset } => {
                s.append("解析 ");
                push_refno(&mut s, expected);
                s.append(" 的记录（页 ");
                push_decimal(&mut s, pgno as u64);
                s.append(" 偏移 ");
                push_decimal(&mut s, offset as u64);
                s.append("）返回错误 refno ");
                push_refno(&mut s, actual);
            },
            ResolveError::NoIdentity { refno, pgno, offset } => {
                s.append("解析 ");
                push_refno(&mut s, refno);
                s.append(" 的终稿失败，最小身份也无法解码（页 ");
                push_decimal(&mut s, pgno as u64);
                s.append(" 偏移 ");
                push_decimal(&mut s, offset as u64);
                s.append("）");
            },
            ResolveError::NotAllowlisted { refno } => {
                s.append("非白名单终稿 ");
                push_refno(&mut s, refno);
                s.append(" 解析失败");
            },
            ResolveError::MissingLastTouch { refno } => {
                s.append("净变化 ");
                push_refno(&mut s, refno);
                s.append(" 缺 last-touch 会话");
            },
            ResolveError::NegativeSession { refno, sesno } => {
                s.append("净变化 ");
                push_refno(&mut s, refno);
                s.append(" 的 last-touch 会话非法: ");
                push_signed(&mut s, sesno);
            },
            ResolveError::MissingBaseLoc { refno } => {
                s.append("净修改条目 ");
                push_refno(&mut s, refno);
                s.append(" 缺 base 位置——classify 的不变量被破坏");
            },
            ResolveError::MemberLookupFailed { refno, sesno, cause } => {
                s.append("解析 ");
                push_refno(&mut s, refno);
                s.append(" 在 sesno=");
                push_signed(&mut s, sesno);
                s.append(" 的成员记录失败: ");
                let m = cause.message();
                s.append(m.as_str());
            },
            ResolveError::EmptyOwner { refno, sesno } => {
                s.append("成员删除候选 ");
                push_refno(&mut s, refno);
                s.append(" 在 sesno=");
                push_signed(&mut s, sesno);
                s.append(" 的 OWNER 为空");
            },
            ResolveError::MissingOwner { refno, owner, sesno } => {
                s.append("成员删除候选 ");
                push_refno(&mut s, refno);
                s.append(" 的 OWNER ");
                push_refno(&mut s, owner);
                s.append(" 在 sesno=");
                push_signed(&mut s, sesno);
                s.append(" 不存在");
            },
            ResolveError::NoBaseSession => {
                s.append("成员删除候选存在，但窗口没有可展开删除子树的基会话");
            },
            ResolveError::MissingAtBase { refno, sesno } => {
                s.append("删除子树元素 ");
                push_refno(&mut s, refno);
                s.append(" 在基会话 sesno=");
                push_signed(&mut s, sesno);
                s.append(" 不存在，拒绝猜测");
            },
            ResolveError::InvalidSession { sesno } => {
                s.append("成员审计目标会话非法: ");
                push_signed(&mut s, sesno);
            },
        }
        proof {
            assert(s@ =~= resolve_message(*self));
        }
        s
    }
}

/// Source of element records by position. Every lookup is logged: a full decode as
/// `(position, true)`, a minimal identity as `(position, false)`.
pub trait RecordResolver {
    spec fn resolves(&self, loc: RecordLoc) -> Option<EleView>;

    spec fn identifies(&self, loc: RecordLoc) -> Option<IdentityView>;

    /// The lookups made so far, in order.
    spec fn asked(&self) -> Seq<(RecordLoc, bool)>;

    fn element_at(&mut self, loc: RecordLoc) -> (r: Result<EleData, ResolveError>)
        ensures
            match r {
                Ok(e) => old(self).resolves(loc) == Some(e@),
                Err(_) => old(self).resolves(loc) is None,
            },
            forall|q: RecordLoc| #[trigger] final(self).resolves(q) == old(self).resolves(q),
            forall|q: RecordLoc| #[trigger] final(self).identifies(q) == old(self).identifies(q),
            final(self).asked() == old(self).asked().push((loc, true)),
    ;

    fn identity_at(&mut self, loc: RecordLoc) -> (r: Result<RawElementIdentity, ResolveError>)
        ensures
            match r {
                Ok(i) => old(self).identifies(loc) == Some(i@),
                Err(_) => old(self).identifies(loc) is None,
            },
            forall|q: RecordLoc| #[trigger] final(self).resolves(q) == old(self).resolves(q),
            forall|q: RecordLoc| #[trigger] final(self).identifies(q) == old(self).identifies(q),
            final(self).asked() == old(self).asked().push((loc, false)),
    ;
}

/// Records of a database file image by position.
pub struct PdmsRecordResolver<'a> {
    pub io: &'a PdmsIO,
    pub asked: Ghost<Seq<(RecordLoc, bool)>>,
}

/// The resolver over a file image before any lookup.
pub open spec fn pdms_records<'a>(io: &'a PdmsIO) -> PdmsRecordResolver<'a> {
    PdmsRecordResolver { io, asked: Ghost(Seq::empty()) }
}

impl<'a> PdmsRecordResolver<'a> {
    /// A resolver over `io` with an empty log.
    pub fn new(io: &'a PdmsIO) -> (r: PdmsRecordResolver<'a>)
        ensures
            r == pdms_records(io),
    {
        PdmsRecordResolver { io, asked: Ghost(Seq::empty()) }
    }
}

impl<'a> RecordResolver for PdmsRecordResolver<'a> {
    open spec fn resolves(&self, loc: RecordLoc) -> Option<EleView> {
        record_at(self.io.records@, loc.spec_att_offset())
    }

    open spec fn identifies(&self, loc: RecordLoc) -> Option<IdentityView> {
        spec_identity_at(*self.io, loc.spec_att_offset())
    }

    open spec fn asked(&self) -> Seq<(RecordLoc, bool)> {
        self.asked@
    }

    fn element_at(&mut self, loc: RecordLoc) -> (r: Result<EleData, ResolveError>) {
        self.asked = Ghost(self.asked@.push((loc, true)));
        match self.io.parse_raw_element(loc.att_offset()) {
            Ok(e) => Ok(e),
            Err(_) => Err(ResolveError::Undecodable { pgno: loc.pgno, offset: loc.offset }),
        }
    }

    fn identity_at(&mut self, loc: RecordLoc) -> (r: Result<RawElementIdentity, ResolveError>) {
        self.asked = Ghost(self.asked@.push((loc, false)));
        match self.io.parse_raw_element_identity(loc.att_offset()) {
            Ok(i) => Ok(i),
            Err(_) => Err(ResolveError::Undecodable { pgno: loc.pgno, offset: loc.offset }),
        }
    }
}

/// In-memory records by position, with minimal identities for records whose full
/// decode fails; logs every lookup.
pub struct MemRecords {
    pub records: Vec<(RecordLoc, EleData)>,
    pub identities: Vec<(RecordLoc, RawElementIdentity)>,
    pub asked: Vec<(RecordLoc, bool)>,
}

pub open spec fn mem_record(records: Seq<(RecordLoc, EleData)>, loc: RecordLoc) -> Option<EleView>
    decreases records.len(),
{
    if records.len() == 0 {
        None
    } else if records[0].0 == loc {
        Some(records[0].1@)
    } else {
        mem_record(records.drop_first(), loc)
    }
}

pub open spec fn mem_identity(ids: Seq<(RecordLoc, RawElementIdentity)>, loc: RecordLoc) -> Option<IdentityView>
    decreases ids.len(),
{
    if ids.len() == 0 {
        None
    } else if ids[0].0 == loc {
        Some(ids[0].1@)
    } else {
        mem_identity(ids.drop_first(), loc)
    }
}

fn find_mem_record(records: &Vec<(RecordLoc, EleData)>, loc: RecordLoc) -> (r: Option<EleData>)
    ensures
        match r {
            Some(e) => mem_record(records@, loc) == Some(e@),
            None => mem_record(records@, loc) is None,
        },
{
    let mut i: usize = 0;
    assert(records@.skip(0) == records@);
    while i < records.len()
        invariant
            i <= records.len(),
            mem_record(records@, loc) == mem_record(records@.skip(i as int), loc),
        decreases records.len() - i,
    {
        assert(records@.skip(i as int).drop_first() == records@.skip(i + 1));
        if records[i].0 == loc {
            assert(records@.skip(i as int)[0] == records@[i as int]);
            return Some(copy_ele(&records[i].1));
        }
        i += 1;
    }
    None
}

fn find_mem_identity(ids: &Vec<(RecordLoc, RawElementIdentity)>, loc: RecordLoc) -> (r: Option<RawElementIdentity>)
    ensures
        match r {
            Some(e) => mem_identity(ids@, loc) == Some(e@),
            None => mem_identity(ids@, loc) is None,
        },
{
    let mut i: usize = 0;
    assert(ids@.skip(0) == ids@);
    while i < ids.len()
        invariant
            i <= ids.len(),
            mem_identity(ids@, loc) == mem_identity(ids@.skip(i as int), loc),
        decreases ids.len() - i,
    {
        assert(ids@.skip(i as int).drop_first() == ids@.skip(i + 1));
        if ids[i].0 == loc {
            assert(ids@.skip(i as int)[0] == ids@[i as int]);
            let id = &ids[i].1;
            return Some(
                RawElementIdentity {
                    refno: id.refno,
                    noun_hash: id.noun_hash,
                    noun_name: id.noun_name.clone(),
                    owner: id.owner,
                },
            );
        }
        i += 1;
    }
    None
}

impl MemRecords {
    /// A resolver over the given records and identities, with an empty log.
    pub fn new(records: Vec<(RecordLoc, EleData)>, identities: Vec<(RecordLoc, RawElementIdentity)>) -> (r: MemRecords)
        ensures
            r.records@ == records@,
            r.identities@ == identities@,
            r.asked@ == Seq::<(RecordLoc, bool)>::empty(),
    {
        MemRecords { records, identities, asked: Vec::new() }
    }
}

impl RecordResolver for MemRecords {
    open spec fn resolves(&self, loc: RecordLoc) -> Option<EleView> {
        mem_record(self.records@, loc)
    }

    open spec fn identifies(&self, loc: RecordLoc) -> Option<IdentityView> {
        match mem_identity(self.identities@, loc) {
            Some(i) => Some(i),
            None => match mem_record(self.records@, loc) {
                Some(v) => Some(identity_of(v)),
                None => None,
            },
        }
    }

    open spec fn asked(&self) -> Seq<(RecordLoc, bool)> {
        self.asked@
    }

    fn element_at(&mut self, loc: RecordLoc) -> (r: Result<EleData, ResolveError>) {
        self.asked.push((loc, true));
        match find_mem_record(&self.records, loc) {
            Some(e) => Ok(e),
            None => Err(ResolveError::Undecodable { pgno: loc.pgno, offset: loc.offset }),
        }
    }

    fn identity_at(&mut self, loc: RecordLoc) -> (r: Result<RawElementIdentity, ResolveError>) {
        self.asked.push((loc, false));
        match find_mem_identity(&self.identities, loc) {
            Some(i) => {
                return Ok(i);
            },
            None => {},
        }
        match find_mem_record(&self.records, loc) {
            Some(e) => Ok(RawElementIdentity { refno: e.refno, noun_hash: e.noun as i32, noun_name: e.noun_name, owner: e.owner }),
            None => Err(ResolveError::Undecodable { pgno: loc.pgno, offset: loc.offset }),
        }
    }
}

/// A final record that failed to decode and is skipped by the allow list.
#[derive(Debug)]
pub struct IgnoredFinalRecord {
    pub refno: u64,
    pub noun: String,
    pub reason: ResolveError,
}

/// A collection warning that must reach the receipt.
#[derive(Debug)]
pub enum WindowWarning {
    /// The base version of a net modification did not decode; the final version is
    /// emitted as a full addition.
    BaseDecodeFailed { refno: u64, error: ResolveError },
    /// Final records of allow-listed nouns failed to decode and were skipped.
    IgnoredFinals { count: usize, sample_refnos: Vec<u64> },
}

/// The sample reference numbers of a warning, joined by `；`.
pub open spec fn joined_refnos(s: Seq<u64>) -> Seq<char>
    decreases s.len(),
{
    if s.len() == 0 {
        Seq::empty()
    } else if s.len() == 1 {
        refno_text_spec(s[0])
    } else {
        joined_refnos(s.drop_last()) + "；"@ + refno_text_spec(s.last())
    }
}

/// The message of a collection warning.
pub open spec fn warning_message(w: WindowWarning) -> Seq<char> {
    match w {
        WindowWarning::BaseDecodeFailed { refno, error } => "净修改 "@ + refno_text_spec(refno)
            + " 的基版本解析失败，按新增全量处理（保守整根重生成）: "@ + resolve_message(error),
        WindowWarning::IgnoredFinals { count, sample_refnos } => decimal_spec(count as nat)
            + " 条 MNUM 系统记录终稿解析失败，按代码白名单跳过且不生成 PE 操作。样例："@ + joined_refnos(sample_refnos@),
    }
}

impl WindowWarning {
    /// The warning as text.
    pub fn message(&self) -> (s: String)
        ensures
            s@ == warning_message(*self),
    {
        let mut s = String::new();
        match self {
            WindowWarning::BaseDecodeFailed { refno, error } => {
                s.append("净修改 ");
                push_refno(&mut s, *refno);
                s.append(" 的基版本解析失败，按新增全量处理（保守整根重生成）: ");
                let m = error.message();
                s.append(m.as_str());
            },
            WindowWarning::IgnoredFinals { count, sample_refnos } => {
                push_decimal(&mut s, *count as u64);
                s.append(" 条 MNUM 系统记录终稿解析失败，按代码白名单跳过且不生成 PE 操作。样例：");
                let ghost head = s@;
                let mut i: usize = 0;
                while i < sample_refnos.len()
                    invariant
                        i <= sample_refnos.len(),
                        s@ == head + joined_refnos(sample_refnos@.take(i as int)),
                    decreases sample_refnos.len() - i,
                {
                    proof {
                        assert(sample_refnos@.take(i + 1).drop_last() =~= sample_refnos@.take(i as int));
                    }
                    if i > 0 {
                        s.append("；");
                    }
                    push_refno(&mut s, sample_refnos[i]);
                    i += 1;
                    proof {
                        assert(s@ =~= head + joined_refnos(sample_refnos@.take(i as int)));
                    }
                }
                proof {
                    assert(sample_refnos@.take(i as int) =~= sample_refnos@);
                }
            },
        }
        proof {
            assert(s@ =~= warning_message(*self));
        }
        s
    }
}

/// The product of one net window collection.
#[derive(Debug)]
pub struct NetWindowOutcome {
    /// Token of the file generation and target root that produced the window.
    pub snapshot_token: Option<SnapshotToken>,
    /// Operations by session, one per reference number.
    pub window: BTreeMap<u32, Vec<EleOperationData>>,
    pub warnings: Vec<WindowWarning>,
    /// Net modifications whose two versions agree (record rewritten unchanged).
    pub unchanged_rewrites: usize,
    /// Allow-listed final records skipped after a decode failure.
    pub unparseable_finals: usize,
    pub ignored_finals: Vec<IgnoredFinalRecord>,
    /// Deletions added by membership reconciliation.
    pub membership_deleted: usize,
    /// Additions dropped because the element was born and deleted inside the window.
    pub dropped_phantom_adds: usize,
    pub stats: NetChangeStats,
}

/// Every operation list of `old` is a prefix of the same list in `new`.
pub open spec fn window_extends(old_w: Map<u32, Vec<EleOperationData>>, new_w: Map<u32, Vec<EleOperationData>>) -> bool {
    forall|s: u32| #[trigger] old_w.contains_key(s) ==> new_w.contains_key(s) && new_w[s]@.len() >= old_w[s]@.len()
        && forall|j: int| 0 <= j < old_w[s]@.len() ==> #[trigger] new_w[s]@[j] == old_w[s]@[j]
}

/// The window holds an `Add` of `refno` in session `s` carrying record `v`.
pub open spec fn has_add(w: Map<u32, Vec<EleOperationData>>, s: u32, refno: u64, v: EleView) -> bool {
    w.contains_key(s) && exists|j: int|
        0 <= j < w[s]@.len() && (#[trigger] w[s]@[j]).refno == refno && w[s]@[j].sesno == s && (
        w[s]@[j].detail matches EleOperationDetail::Add(d) && d@ == v)
}

/// The window holds a `Deleted` of `refno` in session `s`.
pub open spec fn has_deleted(w: Map<u32, Vec<EleOperationData>>, s: u32, refno: u64) -> bool {
    w.contains_key(s) && exists|j: int|
        0 <= j < w[s]@.len() && (#[trigger] w[s]@[j]).refno == refno && w[s]@[j].sesno == s
            && w[s]@[j].detail is Deleted
}

/// The window holds a `Modified` of `refno` in session `s`, the diff of `b` to `f`.
pub open spec fn has_modified(w: Map<u32, Vec<EleOperationData>>, s: u32, refno: u64, b: EleView, f: EleView) -> bool {
    w.contains_key(s) && exists|j: int|
        0 <= j < w[s]@.len() && (#[trigger] w[s]@[j]).refno == refno && w[s]@[j].sesno == s && (
        w[s]@[j].detail matches EleOperationDetail::Modified(m) && crate::io::buckets_of(b, f, m)
            && m.current_data@ == f)
}

/// Growing a window keeps every operation it held.
proof fn lemma_window_extends(old_w: Map<u32, Vec<EleOperationData>>, new_w: Map<u32, Vec<EleOperationData>>)
    requires
        window_extends(old_w, new_w),
    ensures
        forall|s: u32, r: u64, v: EleView| #[trigger] has_add(old_w, s, r, v) ==> has_add(new_w, s, r, v),
        forall|s: u32, r: u64| #[trigger] has_deleted(old_w, s, r) ==> has_deleted(new_w, s, r),
        forall|s: u32, r: u64, b: EleView, f: EleView| #[trigger] has_modified(old_w, s, r, b, f) ==> has_modified(new_w, s, r, b, f),
{
    assert forall|s: u32, r: u64, v: EleView| #[trigger] has_add(old_w, s, r, v) implies has_add(new_w, s, r, v) by {
        let j = choose|j: int|
            0 <= j < old_w[s]@.len() && (#[trigger] old_w[s]@[j]).refno == r && old_w[s]@[j].sesno == s && (
            old_w[s]@[j].detail matches EleOperationDetail::Add(d) && d@ == v);
        assert(new_w[s]@[j] == old_w[s]@[j]);
    }
    assert forall|s: u32, r: u64| #[trigger] has_deleted(old_w, s, r) implies has_deleted(new_w, s, r) by {
        let j = choose|j: int|
            0 <= j < old_w[s]@.len() && (#[trigger] old_w[s]@[j]).refno == r && old_w[s]@[j].sesno == s
                && old_w[s]@[j].detail is Deleted;
        assert(new_w[s]@[j] == old_w[s]@[j]);
    }
    assert forall|s: u32, r: u64, b: EleView, f: EleView| #[trigger] has_modified(old_w, s, r, b, f) implies has_modified(new_w, s, r, b, f) by {
        let j = choose|j: int|
            0 <= j < old_w[s]@.len() && (#[trigger] old_w[s]@[j]).refno == r && old_w[s]@[j].sesno == s && (
            old_w[s]@[j].detail matches EleOperationDetail::Modified(m) && crate::io::buckets_of(b, f, m)
                && m.current_data@ == f);
        assert(new_w[s]@[j] == old_w[s]@[j]);
    }
}

/// `w1` is `w0` with `op` appended to its session's list.
pub open spec fn pushed(w0: Map<u32, Vec<EleOperationData>>, w1: Map<u32, Vec<EleOperationData>>, op: EleOperationData) -> bool {
    &&& w1.contains_key(op.sesno)
    &&& forall|s: u32| s != op.sesno ==> (#[trigger] w1.contains_key(s) == w0.contains_key(s))
    &&& forall|s: u32| s != op.sesno && w0.contains_key(s) ==> #[trigger] w1[s] == w0[s]
    &&& w0.contains_key(op.sesno) ==> w1[op.sesno]@ == w0[op.sesno]@.push(op)
    &&& !w0.contains_key(op.sesno) ==> w1[op.sesno]@ == seq![op]
}

/// The kind of an operation, without its data.
pub enum OpKind {
    Add,
    Modified,
    Deleted,
    NoOp,
}

pub open spec fn op_kind(d: EleOperationDetail) -> OpKind {
    match d {
        EleOperationDetail::Add(_) => OpKind::Add,
        EleOperationDetail::Modified(_) => OpKind::Modified,
        EleOperationDetail::Deleted => OpKind::Deleted,
        EleOperationDetail::NoOp => OpKind::NoOp,
    }
}

/// The window with each operation cut down to its reference number and kind, the
/// lists kept in order under their sessions.
pub open spec fn window_shape(w: Map<u32, Vec<EleOperationData>>) -> Map<u32, Seq<(u64, OpKind)>> {
    Map::new(
        |s: u32| w.contains_key(s),
        |s: u32| w[s]@.map_values(|op: EleOperationData| (op.refno, op_kind(op.detail))),
    )
}

/// `x` appended to the list of session `s`, a list of one when `s` had none.
pub open spec fn shape_push(m: Map<u32, Seq<(u64, OpKind)>>, s: u32, x: (u64, OpKind)) -> Map<u32, Seq<(u64, OpKind)>> {
    m.insert(
        s,
        if m.contains_key(s) {
            m[s].push(x)
        } else {
            seq![x]
        },
    )
}

/// Appending an operation appends its shape.
proof fn lemma_pushed_shape(w0: Map<u32, Vec<EleOperationData>>, w1: Map<u32, Vec<EleOperationData>>, op: EleOperationData)
    requires
        pushed(w0, w1, op),
    ensures
        window_shape(w1) == shape_push(window_shape(w0), op.sesno, (op.refno, op_kind(op.detail))),
{
    let a = window_shape(w1);
    let b = shape_push(window_shape(w0), op.sesno, (op.refno, op_kind(op.detail)));
    assert(a.dom() =~= b.dom());
    assert forall|s: u32| a.contains_key(s) implies a[s] == b[s] by {
        if s != op.sesno {
            assert(w1[s] == w0[s]);
        } else if w0.contains_key(s) {
            assert(a[s] =~= b[s]);
        } else {
            assert(a[s] =~= b[s]);
        }
    }
    assert(a =~= b);
}

/// Every operation hangs under its own session.
pub open spec fn keyed_by_session(w: Map<u32, Vec<EleOperationData>>) -> bool {
    forall|s: u32, j: int| #[trigger] in_window(w, s, j) ==> w[s]@[j].sesno == s
}

/// No reference number has two operations in the window.
pub open spec fn one_op_per_refno(w: Map<u32, Vec<EleOperationData>>) -> bool {
    forall|s1: u32, j1: int, s2: u32, j2: int| #[trigger] in_window(w, s1, j1) && #[trigger] in_window(w, s2, j2)
        && w[s1]@[j1].refno == w[s2]@[j2].refno ==> s1 == s2 && j1 == j2
}

/// The entries of a change set in synthesis order: additions, deletions,
/// modifications.
pub open spec fn entries_of(net: NetChangeSet) -> Seq<NetEntry> {
    net.added@ + net.deleted@ + net.modified@
}

/// The entries of the change set name pairwise distinct reference numbers.
pub open spec fn distinct_refnos(net: NetChangeSet) -> bool {
    forall|i: int, j: int| 0 <= i < j < entries_of(net).len() ==> #[trigger] entries_of(net)[i].refno != #[trigger] entries_of(net)[j].refno
}

/// One of the first `n` entries names `r`.
pub open spec fn refno_before(net: NetChangeSet, n: int, r: u64) -> bool {
    exists|k: int| 0 <= k < n && k < entries_of(net).len() && #[trigger] entries_of(net)[k].refno == r
}

/// What synthesis keeps of a window after the first `n` entries: each operation
/// under its own session and on one of those entries, and, when the entries name
/// distinct reference numbers, one operation per reference number.
pub open spec fn fresh_window(w: Map<u32, Vec<EleOperationData>>, net: NetChangeSet, n: int) -> bool {
    &&& keyed_by_session(w)
    &&& forall|s: u32, j: int| #[trigger] in_window(w, s, j) ==> refno_before(net, n, w[s]@[j].refno)
    &&& distinct_refnos(net) ==> one_op_per_refno(w)
}

/// Passing over an entry keeps what synthesis keeps.
proof fn lemma_fresh_skip(w: Map<u32, Vec<EleOperationData>>, net: NetChangeSet, n: int)
    requires
        fresh_window(w, net, n),
    ensures
        fresh_window(w, net, n + 1),
{
    assert forall|s: u32, j: int| #[trigger] in_window(w, s, j) implies refno_before(net, n + 1, w[s]@[j].refno) by {
        let k = choose|k: int| 0 <= k < n && k < entries_of(net).len() && #[trigger] entries_of(net)[k].refno == w[s]@[j].refno;
    }
}

/// Appending the operation of entry `n` keeps what synthesis keeps.
proof fn lemma_fresh_push(w0: Map<u32, Vec<EleOperationData>>, w1: Map<u32, Vec<EleOperationData>>, op: EleOperationData, net: NetChangeSet, n: int)
    requires
        fresh_window(w0, net, n),
        pushed(w0, w1, op),
        0 <= n < entries_of(net).len(),
        entries_of(net)[n].refno == op.refno,
    ensures
        fresh_window(w1, net, n + 1),
{
    let t = op.sesno;
    assert forall|s: u32, j: int| #[trigger] in_window(w1, s, j) implies w1[s]@[j].sesno == s && refno_before(net, n + 1, w1[s]@[j].refno)
        && (in_window(w0, s, j) && w1[s]@[j] == w0[s]@[j] || (s == t && w1[s]@[j] == op)) by {
        if s != t {
            assert(in_window(w0, s, j));
            assert(w1[s] == w0[s]);
            let k = choose|k: int| 0 <= k < n && k < entries_of(net).len() && #[trigger] entries_of(net)[k].refno == w0[s]@[j].refno;
        } else if w0.contains_key(t) && j < w0[t]@.len() {
            assert(in_window(w0, s, j));
            assert(w1[s]@[j] == w0[s]@[j]);
            let k = choose|k: int| 0 <= k < n && k < entries_of(net).len() && #[trigger] entries_of(net)[k].refno == w0[s]@[j].refno;
        } else {
            assert(w1[s]@[j] == op);
            assert(entries_of(net)[n].refno == op.refno);
        }
    }
    if distinct_refnos(net) {
        assert forall|s: u32, j: int| #[trigger] in_window(w0, s, j) implies w0[s]@[j].refno != op.refno by {
            let k = choose|k: int| 0 <= k < n && k < entries_of(net).len() && #[trigger] entries_of(net)[k].refno == w0[s]@[j].refno;
            assert(entries_of(net)[k].refno != entries_of(net)[n].refno);
        }
        assert forall|s1: u32, j1: int, s2: u32, j2: int| #[trigger] in_window(w1, s1, j1) && #[trigger] in_window(w1, s2, j2)
            && w1[s1]@[j1].refno == w1[s2]@[j2].refno implies s1 == s2 && j1 == j2 by {
            let new1 = !(in_window(w0, s1, j1) && w1[s1]@[j1] == w0[s1]@[j1]);
            let new2 = !(in_window(w0, s2, j2) && w1[s2]@[j2] == w0[s2]@[j2]);
            if !new1 && !new2 {
                assert(in_window(w0, s1, j1) && in_window(w0, s2, j2));
            } else if new1 && new2 {
                assert(s1 == t && s2 == t);
                if w0.contains_key(t) {
                    assert(j1 >= w0[t]@.len() && j2 >= w0[t]@.len());
                } else {
                    assert(w1[t]@.len() == 1);
                }
            } else if new1 {
                assert(in_window(w0, s2, j2));
            } else {
                assert(in_window(w0, s1, j1));
            }
        }
    }
}

/// Every operation of the window satisfies `p`.
pub open spec fn window_all(w: Map<u32, Vec<EleOperationData>>, p: spec_fn(EleOperationData) -> bool) -> bool {
    forall|s: u32, j: int| #[trigger] in_window(w, s, j) ==> p(w[s]@[j])
}

/// Appending an operation that satisfies `p` keeps every operation satisfying it.
proof fn lemma_push_all(
    w0: Map<u32, Vec<EleOperationData>>,
    w1: Map<u32, Vec<EleOperationData>>,
    op: EleOperationData,
    p: spec_fn(EleOperationData) -> bool,
)
    requires
        window_all(w0, p),
        p(op),
        pushed(w0, w1, op),
    ensures
        window_all(w1, p),
{
    assert forall|s: u32, j: int| #[trigger] in_window(w1, s, j) implies p(w1[s]@[j]) by {
        if s != op.sesno {
            assert(in_window(w0, s, j));
        } else if w0.contains_key(s) {
            if j < w0[s]@.len() {
                assert(in_window(w0, s, j));
                assert(w1[s]@[j] == w0[s]@[j]);
            }
        }
    }
}

/// Appends an operation to its session's list.
fn push_op(window: &mut BTreeMap<u32, Vec<EleOperationData>>, op: EleOperationData)
    ensures
        window_extends(old(window)@, final(window)@),
        final(window)@.contains_key(op.sesno),
        final(window)@[op.sesno]@.len() > 0,
        final(window)@[op.sesno]@.last() == op,
        forall|s: u32| s != op.sesno ==> (#[trigger] final(window)@.contains_key(s) == old(window)@.contains_key(s)),
        forall|s: u32| s != op.sesno && old(window)@.contains_key(s) ==> #[trigger] final(window)@[s] == old(window)@[s],
        final(window)@.contains_key(op.sesno) && !old(window)@.contains_key(op.sesno) ==> final(window)@[op.sesno]@.len() == 1,
        old(window)@.contains_key(op.sesno) ==> final(window)@[op.sesno]@ == old(window)@[op.sesno]@.push(op),
        pushed(old(window)@, final(window)@, op),
{
    broadcast use crate::order::group_key_order;

    let sesno = op.sesno;
    let mut list = match window.remove(&sesno) {
        Some(l) => l,
        None => Vec::new(),
    };
    let ghost before = list@;
    list.push(op);
    proof {
        if before.len() == 0 {
            assert(list@ =~= seq![op]);
        }
    }
    window.insert(sesno, list);
}

/// The position's record decodes and belongs to `refno`.
pub open spec fn final_ok<R: RecordResolver>(res: R, refno: u64, loc: RecordLoc) -> bool {
    res.resolves(loc) is Some && res.resolves(loc)->0.refno == refno
}

/// The position's minimal identity names `refno` with the allow-listed noun `MNUM`.
pub open spec fn mnum_ok<R: RecordResolver>(res: R, refno: u64, loc: RecordLoc) -> bool {
    res.identifies(loc) is Some && res.identifies(loc)->0.refno == refno && res.identifies(loc)->0.noun_name == "MNUM"@
}

/// Why the record at `loc` does not resolve for `refno`: it does not decode, or it
/// belongs to another reference number.
pub open spec fn resolve_error<R: RecordResolver>(res: R, refno: u64, loc: RecordLoc) -> ResolveError {
    match res.resolves(loc) {
        None => ResolveError::Undecodable { pgno: loc.pgno, offset: loc.offset },
        Some(v) => ResolveError::WrongRefno { expected: refno, actual: v.refno, pgno: loc.pgno, offset: loc.offset },
    }
}

/// Why an undecodable record at `loc` is not an allowed leftover of `refno`: no
/// identity, an identity of another reference number, or a noun off the allow-list.
pub open spec fn ignore_error<R: RecordResolver>(res: R, refno: u64, loc: RecordLoc) -> ResolveError {
    match res.identifies(loc) {
        None => ResolveError::NoIdentity { refno, pgno: loc.pgno, offset: loc.offset },
        Some(i) => if i.refno != refno {
            ResolveError::WrongRefno { expected: refno, actual: i.refno, pgno: loc.pgno, offset: loc.offset }
        } else {
            ResolveError::NotAllowlisted { refno }
        },
    }
}

/// Resolves the record at `loc` and checks that it belongs to `refno`.
pub fn resolve_record<R: RecordResolver>(resolver: &mut R, refno: u64, loc: RecordLoc) -> (r: Result<EleData, ResolveError>)
    ensures
        forall|q: RecordLoc| #[trigger] final(resolver).resolves(q) == old(resolver).resolves(q),
        forall|q: RecordLoc| #[trigger] final(resolver).identifies(q) == old(resolver).identifies(q),
        r is Ok <==> final_ok(*old(resolver), refno, loc),
        r matches Ok(e) ==> old(resolver).resolves(loc) == Some(e@),
        r matches Err(e) ==> e == resolve_error(*old(resolver), refno, loc),
        final(resolver).asked() == old(resolver).asked().push((loc, true)),
{
    let decoded = match resolver.element_at(loc) {
        Ok(d) => d,
        Err(_) => {
            return Err(ResolveError::Undecodable { pgno: loc.pgno, offset: loc.offset });
        },
    };
    if decoded.refno != refno {
        return Err(ResolveError::WrongRefno { expected: refno, actual: decoded.refno, pgno: loc.pgno, offset: loc.offset });
    }
    Ok(decoded)
}

/// A final record failed to decode: only an allow-listed `MNUM` record whose
/// minimal identity names the expected reference number may be skipped.
pub fn allowed_ignored_final<R: RecordResolver>(
    resolver: &mut R,
    expected_refno: u64,
    loc: RecordLoc,
    decode_error: ResolveError,
) -> (r: Result<IgnoredFinalRecord, ResolveError>)
    ensures
        forall|q: RecordLoc| #[trigger] final(resolver).resolves(q) == old(resolver).resolves(q),
        forall|q: RecordLoc| #[trigger] final(resolver).identifies(q) == old(resolver).identifies(q),
        r is Ok <==> mnum_ok(*old(resolver), expected_refno, loc),
        r matches Ok(i) ==> i.refno == expected_refno && i.noun@ == "MNUM"@ && i.reason == decode_error,
        r matches Err(e) ==> (e is NoIdentity || e is WrongRefno || e is NotAllowlisted),
        r matches Err(e) ==> e == ignore_error(*old(resolver), expected_refno, loc),
        final(resolver).asked() == old(resolver).asked().push((loc, false)),
{
    let identity = match resolver.identity_at(loc) {
        Ok(i) => i,
        Err(_) => {
            return Err(ResolveError::NoIdentity { refno: expected_refno, pgno: loc.pgno, offset: loc.offset });
        },
    };
    if identity.refno != expected_refno {
        return Err(ResolveError::WrongRefno { expected: expected_refno, actual: identity.refno, pgno: loc.pgno, offset: loc.offset });
    }
    if !str_eq(identity.noun_name.as_str(), "MNUM") {
        return Err(ResolveError::NotAllowlisted { refno: expected_refno });
    }
    Ok(IgnoredFinalRecord { refno: expected_refno, noun: identity.noun_name, reason: decode_error })
}

/// Facts a window keeps about a processed net addition.
pub open spec fn added_done<R: RecordResolver>(
    res: R,
    w: Map<u32, Vec<EleOperationData>>,
    ignored: Seq<IgnoredFinalRecord>,
    e: NetEntry,
) -> bool {
    &&& e.last_touch_sesno is Some && e.last_touch_sesno->0 >= 0
    &&& final_ok(res, e.refno, e.loc) ==> has_add(w, e.last_touch_sesno->0 as u32, e.refno, res.resolves(e.loc)->0)
    &&& !final_ok(res, e.refno, e.loc) ==> mnum_ok(res, e.refno, e.loc) && exists|k: int|
        0 <= k < ignored.len() && (#[trigger] ignored[k]).refno == e.refno
}

/// Facts a window keeps about a processed net modification.
pub open spec fn modified_done<R: RecordResolver>(
    res: R,
    w: Map<u32, Vec<EleOperationData>>,
    ignored: Seq<IgnoredFinalRecord>,
    e: NetEntry,
) -> bool {
    &&& e.last_touch_sesno is Some && e.last_touch_sesno->0 >= 0
    &&& !final_ok(res, e.refno, e.loc) ==> mnum_ok(res, e.refno, e.loc) && exists|k: int|
        0 <= k < ignored.len() && (#[trigger] ignored[k]).refno == e.refno
    &&& final_ok(res, e.refno, e.loc) ==> {
        &&& e.base_loc is Some
        &&& final_ok(res, e.refno, e.base_loc->0) && !same_content(
            res.resolves(e.base_loc->0)->0,
            res.resolves(e.loc)->0,
        ) ==> has_modified(
            w,
            e.last_touch_sesno->0 as u32,
            e.refno,
            res.resolves(e.base_loc->0)->0,
            res.resolves(e.loc)->0,
        )
        &&& !final_ok(res, e.refno, e.base_loc->0) ==> has_add(
            w,
            e.last_touch_sesno->0 as u32,
            e.refno,
            res.resolves(e.loc)->0,
        )
    }
}

/// Session of a net change: its last-touch session, which must exist and be non-negative.
fn entry_session(e: &NetEntry) -> (r: Result<u32, ResolveError>)
    ensures
        r matches Ok(s) ==> e.last_touch_sesno is Some && e.last_touch_sesno->0 >= 0 && s == e.last_touch_sesno->0 as u32,
        r is Err <==> (e.last_touch_sesno is None || e.last_touch_sesno->0 < 0),
        r matches Err(x) ==> x == (match e.last_touch_sesno {
            None => ResolveError::MissingLastTouch { refno: e.refno },
            Some(s) => ResolveError::NegativeSession { refno: e.refno, sesno: s },
        }),
{
    match e.last_touch_sesno {
        None => Err(ResolveError::MissingLastTouch { refno: e.refno }),
        Some(s) => {
            if s < 0 {
                Err(ResolveError::NegativeSession { refno: e.refno, sesno: s })
            } else {
                Ok(s as u32)
            }
        },
    }
}

/// Why a net entry does not synthesize: no last-touch session, a negative one, a
/// decoded modification without a base position, or an undecodable record that is
/// no allowed leftover. `None` when it synthesizes.
pub open spec fn entry_error<R: RecordResolver>(res: R, e: NetEntry, modified: bool) -> Option<ResolveError> {
    match e.last_touch_sesno {
        None => Some(ResolveError::MissingLastTouch { refno: e.refno }),
        Some(s) => if s < 0 {
            Some(ResolveError::NegativeSession { refno: e.refno, sesno: s })
        } else if final_ok(res, e.refno, e.loc) {
            if modified && e.base_loc is None {
                Some(ResolveError::MissingBaseLoc { refno: e.refno })
            } else {
                None
            }
        } else if mnum_ok(res, e.refno, e.loc) {
            None
        } else {
            Some(ignore_error(res, e.refno, e.loc))
        },
    }
}

/// The error of the first entry of `es` that does not synthesize.
pub open spec fn first_entry_error<R: RecordResolver>(res: R, es: Seq<NetEntry>, modified: bool) -> Option<ResolveError>
    decreases es.len(),
{
    if es.len() == 0 {
        None
    } else {
        match first_entry_error(res, es.drop_last(), modified) {
            Some(x) => Some(x),
            None => entry_error(res, es.last(), modified),
        }
    }
}

/// The error a synthesis meets: the first failing addition, else the first
/// failing modification.
pub open spec fn synth_error<R: RecordResolver>(res: R, net: NetChangeSet) -> Option<ResolveError> {
    match first_entry_error(res, net.added@, false) {
        Some(x) => Some(x),
        None => first_entry_error(res, net.modified@, true),
    }
}

/// An error met on a prefix is the error of the whole list.
proof fn lemma_first_error_prefix<R: RecordResolver>(res: R, es: Seq<NetEntry>, n: int, modified: bool)
    requires
        0 <= n <= es.len(),
        first_entry_error(res, es.take(n), modified) is Some,
    ensures
        first_entry_error(res, es, modified) == first_entry_error(res, es.take(n), modified),
    decreases es.len(),
{
    if n < es.len() {
        assert(es.drop_last().take(n) =~= es.take(n));
        lemma_first_error_prefix(res, es.drop_last(), n, modified);
    } else {
        assert(es.take(n) =~= es);
    }
}

/// The last-touch session of an entry as a session number.
pub open spec fn touch_session(e: NetEntry) -> u32 {
    e.last_touch_sesno->0 as u32
}

/// A net addition synthesizes: it has a non-negative last-touch session, and its
/// final record decodes or is an allow-listed `MNUM` record.
pub open spec fn added_ok<R: RecordResolver>(res: R, e: NetEntry) -> bool {
    &&& e.last_touch_sesno is Some && e.last_touch_sesno->0 >= 0
    &&& final_ok(res, e.refno, e.loc) || mnum_ok(res, e.refno, e.loc)
}

/// A net modification synthesizes: as an addition, and a decoded final record
/// comes with a base position.
pub open spec fn modified_ok<R: RecordResolver>(res: R, e: NetEntry) -> bool {
    &&& added_ok(res, e)
    &&& final_ok(res, e.refno, e.loc) ==> e.base_loc is Some
}

/// Every net addition and modification synthesizes.
pub open spec fn synth_ok<R: RecordResolver>(res: R, net: NetChangeSet) -> bool {
    &&& forall|i: int| 0 <= i < net.added@.len() ==> added_ok(res, #[trigger] net.added@[i])
    &&& forall|i: int| 0 <= i < net.modified@.len() ==> modified_ok(res, #[trigger] net.modified@[i])
}

/// A net modification whose two versions decode and agree field by field.
pub open spec fn is_rewrite<R: RecordResolver>(res: R, e: NetEntry) -> bool {
    &&& final_ok(res, e.refno, e.loc)
    &&& e.base_loc is Some
    &&& final_ok(res, e.refno, e.base_loc->0)
    &&& same_content(res.resolves(e.base_loc->0)->0, res.resolves(e.loc)->0)
}

/// Number of unchanged rewrites among net modifications.
pub open spec fn rewrites<R: RecordResolver>(res: R, s: Seq<NetEntry>) -> nat
    decreases s.len(),
{
    if s.len() == 0 {
        0
    } else {
        rewrites(res, s.drop_last()) + if is_rewrite(res, s.last()) {
            1nat
        } else {
            0nat
        }
    }
}

/// The operation a net modification synthesizes: `Modified` from the diff of the
/// two decoded versions, or `Add` of the final version when the base does not decode.
pub open spec fn modified_op<R: RecordResolver>(res: R, e: NetEntry, detail: EleOperationDetail) -> bool {
    &&& final_ok(res, e.refno, e.loc)
    &&& e.base_loc is Some
    &&& {
        ||| (detail matches EleOperationDetail::Modified(m) && final_ok(res, e.refno, e.base_loc->0) && crate::io::buckets_of(
            res.resolves(e.base_loc->0)->0,
            res.resolves(e.loc)->0,
            m,
        ) && m.current_data@ == res.resolves(e.loc)->0)
        ||| (detail matches EleOperationDetail::Add(d) && !final_ok(res, e.refno, e.base_loc->0) && d@ == res.resolves(e.loc)->0)
    }
}

/// The operation comes from one entry of the net change set.
pub open spec fn op_origin<R: RecordResolver>(res: R, net: NetChangeSet, t: u32, op: EleOperationData) -> bool {
    ||| exists|i: int| 0 <= i < net.added@.len() && (#[trigger] net.added@[i]).refno == op.refno && op.sesno == touch_session(
        net.added@[i],
    ) && (op.detail matches EleOperationDetail::Add(d) && res.resolves(net.added@[i].loc) == Some(d@))
    ||| exists|i: int| 0 <= i < net.deleted@.len() && (#[trigger] net.deleted@[i]).refno == op.refno && op.sesno == t && op.detail is Deleted
    ||| exists|i: int| 0 <= i < net.modified@.len() && (#[trigger] net.modified@[i]).refno == op.refno && op.sesno == touch_session(
        net.modified@[i],
    ) && modified_op(res, net.modified@[i], op.detail)
}

/// The session a net deletion is attached to: the window end (0 when negative).
pub open spec fn end_session(net: NetChangeSet) -> u32 {
    (if net.target_sesno < 0 {
        0
    } else {
        net.target_sesno
    }) as u32
}

/// The window shape of the net additions, in order, onto `m`: each addition whose
/// final record decodes adds one `Add` to its last-touch session; a skipped one adds
/// nothing.
pub open spec fn added_shape<R: RecordResolver>(res: R, es: Seq<NetEntry>, m: Map<u32, Seq<(u64, OpKind)>>) -> Map<u32, Seq<(u64, OpKind)>>
    decreases es.len(),
{
    if es.len() == 0 {
        m
    } else {
        let prev = added_shape(res, es.drop_last(), m);
        let e = es.last();
        if final_ok(res, e.refno, e.loc) {
            shape_push(prev, touch_session(e), (e.refno, OpKind::Add))
        } else {
            prev
        }
    }
}

/// The window shape of the net deletions, in order, onto `m`: one `Deleted` each
/// on session `t`.
pub open spec fn deleted_shape(es: Seq<NetEntry>, t: u32, m: Map<u32, Seq<(u64, OpKind)>>) -> Map<u32, Seq<(u64, OpKind)>>
    decreases es.len(),
{
    if es.len() == 0 {
        m
    } else {
        shape_push(deleted_shape(es.drop_last(), t, m), t, (es.last().refno, OpKind::Deleted))
    }
}

/// The window shape of the net modifications, in order, onto `m`: a skipped final
/// record and an unchanged rewrite add nothing; two decoded versions that differ add
/// one `Modified`; an undecodable base adds one `Add`; all on the last-touch session.
pub open spec fn modified_shape<R: RecordResolver>(res: R, es: Seq<NetEntry>, m: Map<u32, Seq<(u64, OpKind)>>) -> Map<u32, Seq<(u64, OpKind)>>
    decreases es.len(),
{
    if es.len() == 0 {
        m
    } else {
        let prev = modified_shape(res, es.drop_last(), m);
        let e = es.last();
        if !final_ok(res, e.refno, e.loc) || is_rewrite(res, e) {
            prev
        } else if final_ok(res, e.refno, e.base_loc->0) {
            shape_push(prev, touch_session(e), (e.refno, OpKind::Modified))
        } else {
            shape_push(prev, touch_session(e), (e.refno, OpKind::Add))
        }
    }
}

/// The lookups that synthesizing the net additions makes, in order: each final
/// record is decoded once, and, when it does not resolve, its minimal identity is
/// looked up once.
pub open spec fn added_asks<R: RecordResolver>(res: R, es: Seq<NetEntry>) -> Seq<(RecordLoc, bool)>
    decreases es.len(),
{
    if es.len() == 0 {
        Seq::empty()
    } else {
        let e = es.last();
        added_asks(res, es.drop_last()) + if final_ok(res, e.refno, e.loc) {
            seq![(e.loc, true)]
        } else {
            seq![(e.loc, true), (e.loc, false)]
        }
    }
}

/// The lookups that synthesizing the net modifications makes, in order: each final
/// record is decoded once; then the base record is decoded once when the final one
/// resolves, else the final record's minimal identity is looked up once.
pub open spec fn modified_asks<R: RecordResolver>(res: R, es: Seq<NetEntry>) -> Seq<(RecordLoc, bool)>
    decreases es.len(),
{
    if es.len() == 0 {
        Seq::empty()
    } else {
        let e = es.last();
        modified_asks(res, es.drop_last()) + if final_ok(res, e.refno, e.loc) {
            seq![(e.loc, true), (e.base_loc->0, true)]
        } else {
            seq![(e.loc, true), (e.loc, false)]
        }
    }
}

/// The lookups of a whole synthesis: the additions', then the modifications';
/// deletions look nothing up.
pub open spec fn synth_asks<R: RecordResolver>(res: R, net: NetChangeSet) -> Seq<(RecordLoc, bool)> {
    added_asks(res, net.added@) + modified_asks(res, net.modified@)
}

/// The whole window of a synthesis, by shape: the additions, then the deletions on
/// the window end, then the modifications. No session holds an empty list.
pub open spec fn expected_shape<R: RecordResolver>(res: R, net: NetChangeSet) -> Map<u32, Seq<(u64, OpKind)>> {
    modified_shape(res, net.modified@, deleted_shape(net.deleted@, end_session(net), added_shape(res, net.added@, Map::empty())))
}

/// What a successful synthesis returns: every addition, deletion and modification
/// is in the window as its operation (or skipped by the allow list), the window
/// holds nothing else, unchanged rewrites are counted, and the token and the
/// statistics are handed over.
/// A collection warning as a value.
pub enum WarningView {
    BaseDecodeFailed { refno: u64, error: ResolveError },
    IgnoredFinals { count: nat, sample_refnos: Seq<u64> },
}

pub open spec fn warning_view(w: WindowWarning) -> WarningView {
    match w {
        WindowWarning::BaseDecodeFailed { refno, error } => WarningView::BaseDecodeFailed { refno, error },
        WindowWarning::IgnoredFinals { count, sample_refnos } => WarningView::IgnoredFinals {
            count: count as nat,
            sample_refnos: sample_refnos@,
        },
    }
}

pub open spec fn warnings_view(s: Seq<WindowWarning>) -> Seq<WarningView> {
    s.map_values(|w: WindowWarning| warning_view(w))
}

/// One warning per net modification, in order, whose final record resolves and whose
/// base record does not: it names the reference number and why the base failed.
pub open spec fn base_warnings<R: RecordResolver>(res: R, mods: Seq<NetEntry>) -> Seq<WarningView>
    decreases mods.len(),
{
    if mods.len() == 0 {
        Seq::empty()
    } else {
        let w = base_warnings(res, mods.drop_last());
        let e = mods.last();
        if final_ok(res, e.refno, e.loc) && e.base_loc is Some && !final_ok(res, e.refno, e.base_loc->0) {
            w.push(WarningView::BaseDecodeFailed { refno: e.refno, error: resolve_error(res, e.refno, e.base_loc->0) })
        } else {
            w
        }
    }
}

/// A skipped final record as a value: reference number, noun, decode failure.
pub open spec fn ignored_view(x: IgnoredFinalRecord) -> (u64, Seq<char>, ResolveError) {
    (x.refno, x.noun@, x.reason)
}

pub open spec fn ignored_views(s: Seq<IgnoredFinalRecord>) -> Seq<(u64, Seq<char>, ResolveError)> {
    s.map_values(|x: IgnoredFinalRecord| ignored_view(x))
}

/// One skipped record per entry, in order, whose final record does not resolve.
pub open spec fn skipped_finals<R: RecordResolver>(res: R, entries: Seq<NetEntry>) -> Seq<(u64, Seq<char>, ResolveError)>
    decreases entries.len(),
{
    if entries.len() == 0 {
        Seq::empty()
    } else {
        let r = skipped_finals(res, entries.drop_last());
        let e = entries.last();
        if final_ok(res, e.refno, e.loc) {
            r
        } else {
            r.push((e.refno, "MNUM"@, resolve_error(res, e.refno, e.loc)))
        }
    }
}

/// The reference numbers of the first (at most) five skipped final records.
pub open spec fn sample_refnos(ignored: Seq<IgnoredFinalRecord>) -> Seq<u64> {
    ignored.take(if ignored.len() < 5 {
        ignored.len() as int
    } else {
        5
    }).map_values(|x: IgnoredFinalRecord| x.refno)
}

/// One aggregated warning when final records were skipped: their count and sample
/// reference numbers.
pub open spec fn final_warnings(ignored: Seq<IgnoredFinalRecord>) -> Seq<WarningView> {
    if ignored.len() == 0 {
        Seq::empty()
    } else {
        seq![WarningView::IgnoredFinals { count: ignored.len(), sample_refnos: sample_refnos(ignored) }]
    }
}

pub open spec fn synthesis_holds<R: RecordResolver>(res: R, net: NetChangeSet, token: SnapshotToken, o: NetWindowOutcome) -> bool {
    &&& warnings_view(o.warnings@) == base_warnings(res, net.modified@) + final_warnings(o.ignored_finals@)
    &&& ignored_views(o.ignored_finals@) == skipped_finals(res, net.added@) + skipped_finals(res, net.modified@)
    &&& forall|i: int| 0 <= i < net.added@.len() ==> added_done(res, o.window@, o.ignored_finals@, #[trigger] net.added@[i])
    &&& forall|i: int| 0 <= i < net.deleted@.len() ==> has_deleted(o.window@, end_session(net), (#[trigger] net.deleted@[i]).refno)
    &&& forall|i: int| 0 <= i < net.modified@.len() ==> modified_done(res, o.window@, o.ignored_finals@, #[trigger] net.modified@[i])
    &&& window_all(o.window@, |op: EleOperationData| op_origin(res, net, end_session(net), op))
    &&& window_shape(o.window@) == expected_shape(res, net)
    &&& keyed_by_session(o.window@)
    &&& distinct_refnos(net) ==> one_op_per_refno(o.window@)
    &&& o.unchanged_rewrites == rewrites(res, net.modified@)
    &&& o.unparseable_finals == o.ignored_finals@.len()
    &&& forall|k: int| 0 <= k < o.ignored_finals@.len() ==> (#[trigger] o.ignored_finals@[k]).noun@ == "MNUM"@
    &&& o.membership_deleted == 0
    &&& o.dropped_phantom_adds == 0
    &&& o.snapshot_token == Some(token)
    &&& o.stats == net.stats
}

/// Pure synthesis: net changes to an operation stream of replay shape. A net
/// addition becomes `Add` of its final record on its last-touch session (an
/// undecodable final record is skipped only when allow-listed, else the window
/// fails); a net deletion becomes `Deleted` on the window end session without
/// decoding anything; a net modification decodes the final then the base record and
/// becomes `Modified` from one diff, nothing when the versions agree (counted), or
/// `Add` of the final record with a warning when the base does not decode. A
/// modification without a base position is a broken classification and fails.
#[verifier::rlimit(40)]
pub fn synthesize_net_window_with_resolver<R: RecordResolver>(
    net: NetChangeSet,
    snapshot_token: SnapshotToken,
    resolver: &mut R,
) -> (r: Result<NetWindowOutcome, ResolveError>)
    ensures
        forall|q: RecordLoc| #[trigger] final(resolver).resolves(q) == old(resolver).resolves(q),
        r is Ok <==> synth_ok(*old(resolver), net),
        r matches Ok(o) ==> synthesis_holds(*old(resolver), net, snapshot_token, o),
        r matches Err(e) ==> synth_error(*old(resolver), net) == Some(e),
        r is Ok ==> final(resolver).asked() == old(resolver).asked() + synth_asks(*old(resolver), net),
{
    let ghost r0 = *resolver;
    let target_sesno: u32 = if net.target_sesno < 0 { 0 } else { net.target_sesno as u32 };
    let ghost origin = |op: EleOperationData| op_origin(r0, net, target_sesno, op);
    let mut window: BTreeMap<u32, Vec<EleOperationData>> = BTreeMap::new();
    let mut warnings: Vec<WindowWarning> = Vec::new();
    let mut unchanged_rewrites: usize = 0;
    let mut ignored_finals: Vec<IgnoredFinalRecord> = Vec::new();
    proof {
        assert(target_sesno == end_session(net));
        assert(window_shape(window@) =~= Map::empty());
    }

    let mut i: usize = 0;
    while i < net.added.len()
        invariant
            i <= net.added.len(),
            r0 == *old(resolver),
            target_sesno == end_session(net),
            origin == |op: EleOperationData| op_origin(r0, net, target_sesno, op),
            forall|q: RecordLoc| #[trigger] resolver.resolves(q) == r0.resolves(q),
            forall|q: RecordLoc| #[trigger] resolver.identifies(q) == r0.identifies(q),
            forall|j: int| 0 <= j < i ==> added_done(r0, window@, ignored_finals@, #[trigger] net.added@[j]),
            forall|k: int| 0 <= k < ignored_finals@.len() ==> (#[trigger] ignored_finals@[k]).noun@ == "MNUM"@,
            window_all(window@, origin),
            window_shape(window@) == added_shape(r0, net.added@.take(i as int), Map::empty()),
            fresh_window(window@, net, i as int),
            resolver.asked() == r0.asked() + added_asks(r0, net.added@.take(i as int)),
            warnings@.len() == 0,
            ignored_views(ignored_finals@) == skipped_finals(r0, net.added@.take(i as int)),
            first_entry_error(r0, net.added@.take(i as int), false) is None,
        decreases net.added.len() - i,
    {
        let e = &net.added[i];
        proof {
            assert(net.added@.take(i + 1).drop_last() =~= net.added@.take(i as int));
            assert(net.added@.take(i + 1).last() == net.added@[i as int]);
        }
        let sesno = match entry_session(e) {
            Ok(s) => s,
            Err(err) => {
                proof {
                    assert(!added_ok(r0, net.added@[i as int]));
                    lemma_first_error_prefix(r0, net.added@, i + 1, false);
                }
                return Err(err);
            },
        };
        let ghost w0 = window@;
        let ghost ig0 = ignored_finals@;
        match resolve_record(resolver, e.refno, e.loc) {
            Ok(data) => {
                let op = EleOperationData::new(e.refno, sesno, EleOperationDetail::Add(data));
                proof {
                    assert(op_origin(r0, net, target_sesno, op)) by {
                        assert(net.added@[i as int].refno == op.refno);
                    }
                }
                push_op(&mut window, op);
                proof {
                    lemma_window_extends(w0, window@);
                    lemma_push_all(w0, window@, op, origin);
                lemma_pushed_shape(w0, window@, op);
                assert(entries_of(net)[i as int] == net.added@[i as int]);
                lemma_fresh_push(w0, window@, op, net, i as int);
                    let n = (window@[sesno]@.len() - 1) as int;
                    assert(window@[sesno]@[n].refno == e.refno);
                    assert(has_add(window@, sesno, e.refno, r0.resolves(e.loc)->0));
                }
            },
            Err(err) => {
                let ignored = match allowed_ignored_final(resolver, e.refno, e.loc, err) {
                    Ok(x) => x,
                    Err(e2) => {
                        proof {
                            assert(!added_ok(r0, net.added@[i as int]));
                            lemma_first_error_prefix(r0, net.added@, i + 1, false);
                        }
                        return Err(e2);
                    },
                };
                ignored_finals.push(ignored);
                proof {
                    assert(ignored_finals@[ignored_finals@.len() - 1].refno == e.refno);
                    assert(ignored_views(ignored_finals@) =~= ignored_views(ig0).push(ignored_view(ignored)));
                    lemma_fresh_skip(window@, net, i as int);
                }
            },
        }
        proof {
            assert(resolver.asked() =~= r0.asked() + added_asks(r0, net.added@.take(i + 1)));
            assert forall|j: int| 0 <= j < i + 1 implies added_done(r0, window@, ignored_finals@, #[trigger] net.added@[j]) by {
                let ej = net.added@[j];
                if j < i {
                    assert(added_done(r0, w0, ig0, ej));
                    if !final_ok(r0, ej.refno, ej.loc) {
                        let k = choose|k: int| 0 <= k < ig0.len() && (#[trigger] ig0[k]).refno == ej.refno;
                        assert(ignored_finals@[k] == ig0[k]);
                    }
                }
            }
        }
        i += 1;
    }

    proof {
        assert(net.added@.take(i as int) =~= net.added@);
    }
    let mut d: usize = 0;
    while d < net.deleted.len()
        invariant
            d <= net.deleted.len(),
            r0 == *old(resolver),
            target_sesno == end_session(net),
            origin == |op: EleOperationData| op_origin(r0, net, target_sesno, op),
            forall|q: RecordLoc| #[trigger] resolver.resolves(q) == r0.resolves(q),
            forall|q: RecordLoc| #[trigger] resolver.identifies(q) == r0.identifies(q),
            forall|j: int| 0 <= j < net.added@.len() ==> added_done(r0, window@, ignored_finals@, #[trigger] net.added@[j]),
            forall|j: int| 0 <= j < net.added@.len() ==> added_ok(r0, #[trigger] net.added@[j]),
            forall|j: int| 0 <= j < d ==> has_deleted(window@, target_sesno, (#[trigger] net.deleted@[j]).refno),
            forall|k: int| 0 <= k < ignored_finals@.len() ==> (#[trigger] ignored_finals@[k]).noun@ == "MNUM"@,
            window_all(window@, origin),
            window_shape(window@) == deleted_shape(net.deleted@.take(d as int), target_sesno, added_shape(r0, net.added@, Map::empty())),
            fresh_window(window@, net, net.added@.len() + d),
            resolver.asked() == r0.asked() + added_asks(r0, net.added@),
            warnings@.len() == 0,
            ignored_views(ignored_finals@) == skipped_finals(r0, net.added@),
        decreases net.deleted.len() - d,
    {
        let refno = net.deleted[d].refno;
        let ghost w0 = window@;
        proof {
            assert(net.deleted@.take(d + 1).drop_last() =~= net.deleted@.take(d as int));
            assert(net.deleted@.take(d + 1).last() == net.deleted@[d as int]);
        }
        let op = EleOperationData::new(refno, target_sesno, EleOperationDetail::Deleted);
        proof {
            assert(op_origin(r0, net, target_sesno, op)) by {
                assert(net.deleted@[d as int].refno == op.refno);
            }
        }
        push_op(&mut window, op);
        proof {
            lemma_window_extends(w0, window@);
            lemma_push_all(w0, window@, op, origin);
                lemma_pushed_shape(w0, window@, op);
                assert(entries_of(net)[net.added@.len() + d] == net.deleted@[d as int]);
                lemma_fresh_push(w0, window@, op, net, net.added@.len() + d);
            let n = (window@[target_sesno]@.len() - 1) as int;
            assert(window@[target_sesno]@[n].refno == refno);
            assert(has_deleted(window@, target_sesno, refno));
            assert forall|j: int| 0 <= j < net.added@.len() implies added_done(r0, window@, ignored_finals@, #[trigger] net.added@[j]) by {
                assert(added_done(r0, w0, ignored_finals@, net.added@[j]));
            }
        }
        d += 1;
    }

    proof {
        assert(net.deleted@.take(d as int) =~= net.deleted@);
    }
    let mut m: usize = 0;
    while m < net.modified.len()
        invariant
            m <= net.modified.len(),
            r0 == *old(resolver),
            target_sesno == end_session(net),
            origin == |op: EleOperationData| op_origin(r0, net, target_sesno, op),
            forall|q: RecordLoc| #[trigger] resolver.resolves(q) == r0.resolves(q),
            forall|q: RecordLoc| #[trigger] resolver.identifies(q) == r0.identifies(q),
            forall|j: int| 0 <= j < net.added@.len() ==> added_done(r0, window@, ignored_finals@, #[trigger] net.added@[j]),
            forall|j: int| 0 <= j < net.added@.len() ==> added_ok(r0, #[trigger] net.added@[j]),
            forall|j: int| 0 <= j < net.deleted@.len() ==> has_deleted(window@, target_sesno, (#[trigger] net.deleted@[j]).refno),
            forall|j: int| 0 <= j < m ==> modified_done(r0, window@, ignored_finals@, #[trigger] net.modified@[j]),
            forall|j: int| 0 <= j < m ==> modified_ok(r0, #[trigger] net.modified@[j]),
            forall|k: int| 0 <= k < ignored_finals@.len() ==> (#[trigger] ignored_finals@[k]).noun@ == "MNUM"@,
            window_all(window@, origin),
            window_shape(window@) == modified_shape(
                r0,
                net.modified@.take(m as int),
                deleted_shape(net.deleted@, target_sesno, added_shape(r0, net.added@, Map::empty())),
            ),
            fresh_window(window@, net, net.added@.len() + net.deleted@.len() + m),
            resolver.asked() == r0.asked() + added_asks(r0, net.added@) + modified_asks(r0, net.modified@.take(m as int)),
            unchanged_rewrites == rewrites(r0, net.modified@.take(m as int)),
            unchanged_rewrites <= m,
            warnings_view(warnings@) == base_warnings(r0, net.modified@.take(m as int)),
            ignored_views(ignored_finals@) == skipped_finals(r0, net.added@) + skipped_finals(r0, net.modified@.take(m as int)),
            first_entry_error(r0, net.added@, false) is None,
            first_entry_error(r0, net.modified@.take(m as int), true) is None,
        decreases net.modified.len() - m,
    {
        let e = &net.modified[m];
        let ghost em = net.modified@[m as int];
        proof {
            assert(net.modified@.take(m + 1).drop_last() =~= net.modified@.take(m as int));
            assert(net.modified@.take(m + 1).last() == em);
        }
        let sesno = match entry_session(e) {
            Ok(s) => s,
            Err(err) => {
                proof {
                    assert(!modified_ok(r0, em));
                    lemma_first_error_prefix(r0, net.modified@, m + 1, true);
                }
                return Err(err);
            },
        };
        let ghost w0 = window@;
        let ghost ig0 = ignored_finals@;
        let latest = match resolve_record(resolver, e.refno, e.loc) {
            Ok(l) => Some(l),
            Err(err) => {
                let ignored = match allowed_ignored_final(resolver, e.refno, e.loc, err) {
                    Ok(x) => x,
                    Err(e2) => {
                        proof {
                            assert(!modified_ok(r0, em));
                            lemma_first_error_prefix(r0, net.modified@, m + 1, true);
                        }
                        return Err(e2);
                    },
                };
                ignored_finals.push(ignored);
                proof {
                    assert(ignored_finals@[ignored_finals@.len() - 1].refno == e.refno);
                    assert(!is_rewrite(r0, em));
                    assert(ignored_views(ignored_finals@) =~= ignored_views(ig0).push(ignored_view(ignored)));
                }
                None
            },
        };
        if let Some(latest) = latest {
            let base_loc = match e.base_loc {
                Some(b) => b,
                None => {
                    proof {
                        assert(!modified_ok(r0, em));
                        lemma_first_error_prefix(r0, net.modified@, m + 1, true);
                    }
                    return Err(ResolveError::MissingBaseLoc { refno: e.refno });
                },
            };
            match resolve_record(resolver, e.refno, base_loc) {
                Ok(base) => {
                    match diff_ele_data(&base, &latest) {
                        Some(modified) => {
                            let op = EleOperationData::new(e.refno, sesno, EleOperationDetail::Modified(modified));
                            proof {
                                assert(op_origin(r0, net, target_sesno, op)) by {
                                    assert(net.modified@[m as int].refno == op.refno);
                                    assert(modified_op(r0, em, op.detail));
                                }
                                assert(!is_rewrite(r0, em));
                            }
                            push_op(&mut window, op);
                            proof {
                                lemma_window_extends(w0, window@);
                                lemma_push_all(w0, window@, op, origin);
                lemma_pushed_shape(w0, window@, op);
                assert(entries_of(net)[net.added@.len() + net.deleted@.len() + m] == net.modified@[m as int]);
                lemma_fresh_push(w0, window@, op, net, net.added@.len() + net.deleted@.len() + m);
                                let n = (window@[sesno]@.len() - 1) as int;
                                assert(window@[sesno]@[n].refno == e.refno);
                            }
                        },
                        None => {
                            proof {
                                assert(is_rewrite(r0, em));
                            }
                            unchanged_rewrites = unchanged_rewrites + 1;
                        },
                    }
                },
                Err(error) => {
                    let ghost wv0 = warnings@;
                    warnings.push(WindowWarning::BaseDecodeFailed { refno: e.refno, error });
                    proof {
                        assert(warnings_view(warnings@) =~= warnings_view(wv0).push(
                            WarningView::BaseDecodeFailed { refno: e.refno, error },
                        ));
                    }
                    let op = EleOperationData::new(e.refno, sesno, EleOperationDetail::Add(latest));
                    proof {
                        assert(op_origin(r0, net, target_sesno, op)) by {
                            assert(net.modified@[m as int].refno == op.refno);
                            assert(modified_op(r0, em, op.detail));
                        }
                        assert(!is_rewrite(r0, em));
                    }
                    push_op(&mut window, op);
                    proof {
                        lemma_window_extends(w0, window@);
                        lemma_push_all(w0, window@, op, origin);
                lemma_pushed_shape(w0, window@, op);
                assert(entries_of(net)[net.added@.len() + net.deleted@.len() + m] == net.modified@[m as int]);
                lemma_fresh_push(w0, window@, op, net, net.added@.len() + net.deleted@.len() + m);
                        let n = (window@[sesno]@.len() - 1) as int;
                        assert(window@[sesno]@[n].refno == e.refno);
                    }
                },
            }
        }
        proof {
            lemma_window_extends(w0, window@);
            assert(modified_ok(r0, em));
            assert forall|j: int| 0 <= j < net.added@.len() implies added_done(r0, window@, ignored_finals@, #[trigger] net.added@[j]) by {
                let ej = net.added@[j];
                assert(added_done(r0, w0, ig0, ej));
                if !final_ok(r0, ej.refno, ej.loc) {
                    let k = choose|k: int| 0 <= k < ig0.len() && (#[trigger] ig0[k]).refno == ej.refno;
                    assert(ignored_finals@[k] == ig0[k]);
                }
            }
            assert(resolver.asked() =~= r0.asked() + added_asks(r0, net.added@) + modified_asks(r0, net.modified@.take(m + 1)));
            assert forall|j: int| 0 <= j < m + 1 implies modified_done(r0, window@, ignored_finals@, #[trigger] net.modified@[j]) by {
                let ej = net.modified@[j];
                if j < m {
                    assert(modified_done(r0, w0, ig0, ej));
                    if !final_ok(r0, ej.refno, ej.loc) {
                        let k = choose|k: int| 0 <= k < ig0.len() && (#[trigger] ig0[k]).refno == ej.refno;
                        assert(ignored_finals@[k] == ig0[k]);
                    }
                }
            }
            if window@ == w0 {
                lemma_fresh_skip(w0, net, net.added@.len() + net.deleted@.len() + m);
            }
        }
        m += 1;
    }
    proof {
        assert(net.modified@.take(m as int) =~= net.modified@);
    }

    let count = ignored_finals.len();
    let ghost wv_base = warnings@;
    if count > 0 {
        let mut samples: Vec<u64> = Vec::new();
        let mut k: usize = 0;
        while k < count && k < 5
            invariant
                count == ignored_finals.len(),
                k <= count,
                k <= 5,
                samples@ == ignored_finals@.take(k as int).map_values(|x: IgnoredFinalRecord| x.refno),
            decreases count - k,
        {
            samples.push(ignored_finals[k].refno);
            k += 1;
            proof {
                assert(ignored_finals@.take(k as int).map_values(|x: IgnoredFinalRecord| x.refno) =~= ignored_finals@.take(k - 1).map_values(
                    |x: IgnoredFinalRecord| x.refno,
                ).push(ignored_finals@[k - 1].refno));
            }
        }
        proof {
            assert(samples@ =~= sample_refnos(ignored_finals@));
        }
        warnings.push(WindowWarning::IgnoredFinals { count, sample_refnos: samples });
        proof {
            assert(warnings_view(warnings@) =~= warnings_view(wv_base) + final_warnings(ignored_finals@));
        }
    } else {
        proof {
            assert(warnings_view(warnings@) =~= warnings_view(wv_base) + final_warnings(ignored_finals@));
        }
    }
    let outcome = NetWindowOutcome {
        snapshot_token: Some(snapshot_token),
        window,
        warnings,
        unchanged_rewrites,
        unparseable_finals: count,
        ignored_finals,
        membership_deleted: 0,
        dropped_phantom_adds: 0,
        stats: net.stats,
    };
    proof {
        assert(synth_ok(r0, net));
        assert(synthesis_holds(r0, net, snapshot_token, outcome));
    }
    Ok(outcome)
}

/// Source of element records by reference number as of a session.
pub trait MembershipResolver {
    /// The record of `refno` as of session `sesno`: `None` when the lookup fails,
    /// `Some(None)` when the element does not exist then.
    spec fn member_record(&self, refno: u64, sesno: i32) -> Option<Option<EleView>>;

    /// Why the lookup of `refno` as of session `sesno` fails, when it does.
    spec fn lookup_cause(&self, refno: u64, sesno: i32) -> IoError;

    /// The lookups made so far, in order.
    spec fn lookups(&self) -> Seq<(u64, i32)>;

    fn element_at(&mut self, refno: u64, sesno: i32) -> (r: Result<Option<EleData>, ResolveError>)
        ensures
            match r {
                Ok(Some(e)) => old(self).member_record(refno, sesno) == Some(Some(e@)),
                Ok(None) => old(self).member_record(refno, sesno) == Some(None::<EleView>),
                Err(e) => old(self).member_record(refno, sesno) is None && e == (if sesno < 0 {
                    ResolveError::InvalidSession { sesno }
                } else {
                    ResolveError::MemberLookupFailed { refno, sesno, cause: old(self).lookup_cause(refno, sesno) }
                }),
            },
            forall|a: u64, b: i32| #[trigger] final(self).member_record(a, b) == old(self).member_record(a, b),
            forall|a: u64, b: i32| #[trigger] final(self).lookup_cause(a, b) == old(self).lookup_cause(a, b),
            final(self).lookups() == old(self).lookups().push((refno, sesno)),
    ;
}

/// The error of a failed lookup of `refno` as of session `sesno`: the session number
/// is negative, or the lookup fails for the resolver's reason.
pub open spec fn lookup_error<R: MembershipResolver>(res: R, refno: u64, sesno: i32) -> ResolveError {
    if sesno < 0 {
        ResolveError::InvalidSession { sesno }
    } else {
        ResolveError::MemberLookupFailed { refno, sesno, cause: res.lookup_cause(refno, sesno) }
    }
}

/// Two resolvers agree on every record and on every reason of failure.
pub open spec fn same_lookups<R: MembershipResolver>(r1: R, r2: R) -> bool {
    &&& forall|a: u64, b: i32| #[trigger] r1.member_record(a, b) == r2.member_record(a, b)
    &&& forall|a: u64, b: i32| #[trigger] r1.lookup_cause(a, b) == r2.lookup_cause(a, b)
}

/// Element records of a database file image as of a session: a point search in
/// the session's index tree, then the record at the hit.
pub struct PdmsMembershipResolver<'a> {
    pub io: &'a PdmsIO,
    pub asked: Ghost<Seq<(u64, i32)>>,
}

/// The membership resolver over a file image before any lookup.
pub open spec fn pdms_members<'a>(io: &'a PdmsIO) -> PdmsMembershipResolver<'a> {
    PdmsMembershipResolver { io, asked: Ghost(Seq::empty()) }
}

impl<'a> PdmsMembershipResolver<'a> {
    /// A membership resolver over `io` with an empty log.
    pub fn new(io: &'a PdmsIO) -> (r: PdmsMembershipResolver<'a>)
        ensures
            r == pdms_members(io),
    {
        PdmsMembershipResolver { io, asked: Ghost(Seq::empty()) }
    }
}

/// Why the membership lookup of `refno` as of session `sesno` fails in a file
/// image: the record at the point-search hit does not decode.
pub open spec fn io_lookup_cause(io: PdmsIO, refno: u64, sesno: i32) -> IoError {
    match point_loc(io, refno, Some(sesno as u32)) {
        Some(loc) => IoError::UnreadableRecord { offset: loc.spec_att_offset() },
        None => IoError::NotFound { refno },
    }
}

/// The record of `refno` as of session `sesno` in a file image.
pub open spec fn io_member_record(io: PdmsIO, refno: u64, sesno: i32) -> Option<Option<EleView>> {
    if sesno < 0 {
        None
    } else {
        match point_loc(io, refno, Some(sesno as u32)) {
            None => Some(None),
            Some(loc) => match record_at(io.records@, loc.spec_att_offset()) {
                None => None,
                Some(v) => Some(Some(v)),
            },
        }
    }
}

impl<'a> MembershipResolver for PdmsMembershipResolver<'a> {
    open spec fn member_record(&self, refno: u64, sesno: i32) -> Option<Option<EleView>> {
        io_member_record(*self.io, refno, sesno)
    }

    open spec fn lookup_cause(&self, refno: u64, sesno: i32) -> IoError {
        io_lookup_cause(*self.io, refno, sesno)
    }

    open spec fn lookups(&self) -> Seq<(u64, i32)> {
        self.asked@
    }

    fn element_at(&mut self, refno: u64, sesno: i32) -> (r: Result<Option<EleData>, ResolveError>) {
        self.asked = Ghost(self.asked@.push((refno, sesno)));
        if sesno < 0 {
            return Err(ResolveError::InvalidSession { sesno });
        }
        match self.io.search_latest_refno(refno, Some(sesno as u32)) {
            None => Ok(None),
            Some((_, offset)) => match self.io.parse_raw_element(offset) {
                Ok(e) => Ok(Some(e)),
                Err(cause) => Err(ResolveError::MemberLookupFailed { refno, sesno, cause }),
            },
        }
    }
}

/// In-memory element records by `(session, reference number)`, with lookups that
/// fail on purpose.
pub struct MemMembership {
    pub elements: Vec<((i32, u64), EleData)>,
    pub failures: Vec<((i32, u64), IoError)>,
    pub asked: Vec<(u64, i32)>,
}

/// The reason given for the first failure registered for `(sesno, refno)`.
pub open spec fn mem_failure(failures: Seq<((i32, u64), IoError)>, sesno: i32, refno: u64) -> Option<IoError>
    decreases failures.len(),
{
    if failures.len() == 0 {
        None
    } else if failures[0].0 == (sesno, refno) {
        Some(failures[0].1)
    } else {
        mem_failure(failures.drop_first(), sesno, refno)
    }
}

pub open spec fn mem_member(elements: Seq<((i32, u64), EleData)>, sesno: i32, refno: u64) -> Option<EleView>
    decreases elements.len(),
{
    if elements.len() == 0 {
        None
    } else if elements[0].0 == (sesno, refno) {
        Some(elements[0].1@)
    } else {
        mem_member(elements.drop_first(), sesno, refno)
    }
}

impl MemMembership {
    /// No records and no failures.
    pub fn new() -> (r: MemMembership)
        ensures
            r.elements@.len() == 0,
            r.failures@.len() == 0,
            r.asked@.len() == 0,
    {
        MemMembership { elements: Vec::new(), failures: Vec::new(), asked: Vec::new() }
    }

    /// Adds the record of `data.refno` as of session `sesno` (an earlier record of
    /// the same element and session wins).
    pub fn insert(&mut self, sesno: i32, data: EleData)
        ensures
            final(self).elements@ == old(self).elements@.push(((sesno, data.refno), data)),
            final(self).failures@ == old(self).failures@,
    {
        let refno = data.refno;
        self.elements.push(((sesno, refno), data));
    }

    /// Makes the lookup of `refno` as of session `sesno` fail for `cause` (an
    /// earlier failure of the same element and session wins).
    pub fn fail(&mut self, sesno: i32, refno: u64, cause: IoError)
        ensures
            final(self).failures@ == old(self).failures@.push(((sesno, refno), cause)),
            final(self).elements@ == old(self).elements@,
    {
        self.failures.push(((sesno, refno), cause));
    }
}

impl MembershipResolver for MemMembership {
    open spec fn member_record(&self, refno: u64, sesno: i32) -> Option<Option<EleView>> {
        if sesno < 0 || mem_failure(self.failures@, sesno, refno) is Some {
            None
        } else {
            Some(mem_member(self.elements@, sesno, refno))
        }
    }

    open spec fn lookup_cause(&self, refno: u64, sesno: i32) -> IoError {
        match mem_failure(self.failures@, sesno, refno) {
            Some(c) => c,
            None => IoError::NotFound { refno },
        }
    }

    open spec fn lookups(&self) -> Seq<(u64, i32)> {
        self.asked@
    }

    fn element_at(&mut self, refno: u64, sesno: i32) -> (r: Result<Option<EleData>, ResolveError>) {
        self.asked.push((refno, sesno));
        self.lookup(refno, sesno)
    }
}

impl MemMembership {
    /// The record of `refno` as of session `sesno`, or the registered failure.
    fn lookup(&self, refno: u64, sesno: i32) -> (r: Result<Option<EleData>, ResolveError>)
        ensures
            match r {
                Ok(Some(e)) => self.member_record(refno, sesno) == Some(Some(e@)),
                Ok(None) => self.member_record(refno, sesno) == Some(None::<EleView>),
                Err(e) => self.member_record(refno, sesno) is None && e == (if sesno < 0 {
                    ResolveError::InvalidSession { sesno }
                } else {
                    ResolveError::MemberLookupFailed { refno, sesno, cause: self.lookup_cause(refno, sesno) }
                }),
            },
    {
        if sesno < 0 {
            return Err(ResolveError::InvalidSession { sesno });
        }
        let mut f: usize = 0;
        assert(self.failures@.skip(0) == self.failures@);
        while f < self.failures.len()
            invariant
                f <= self.failures.len(),
                sesno >= 0,
                mem_failure(self.failures@, sesno, refno) == mem_failure(self.failures@.skip(f as int), sesno, refno),
            decreases self.failures.len() - f,
        {
            assert(self.failures@.skip(f as int).drop_first() == self.failures@.skip(f + 1));
            assert(self.failures@.skip(f as int)[0] == self.failures@[f as int]);
            if self.failures[f].0.0 == sesno && self.failures[f].0.1 == refno {
                return Err(ResolveError::MemberLookupFailed { refno, sesno, cause: self.failures[f].1 });
            }
            f += 1;
        }
        assert(mem_failure(self.failures@, sesno, refno) is None);
        let mut i: usize = 0;
        assert(self.elements@.skip(0) == self.elements@);
        while i < self.elements.len()
            invariant
                i <= self.elements.len(),
                sesno >= 0,
                mem_failure(self.failures@, sesno, refno) is None,
                mem_member(self.elements@, sesno, refno) == mem_member(self.elements@.skip(i as int), sesno, refno),
            decreases self.elements.len() - i,
        {
            assert(self.elements@.skip(i as int).drop_first() == self.elements@.skip(i + 1));
            assert(self.elements@.skip(i as int)[0] == self.elements@[i as int]);
            if self.elements[i].0.0 == sesno && self.elements[i].0.1 == refno {
                return Ok(Some(copy_ele(&self.elements[i].1)));
            }
            i += 1;
        }
        Ok(None)
    }
}

/// Whether `v` holds `x`.
pub fn vec_contains(v: &Vec<u64>, x: u64) -> (r: bool)
    ensures
        r == v@.contains(x),
{
    let mut i: usize = 0;
    while i < v.len()
        invariant
            i <= v.len(),
            forall|k: int| 0 <= k < i ==> v@[k] != x,
        decreases v.len() - i,
    {
        if v[i] == x {
            assert(v@[i as int] == x);
            return true;
        }
        i += 1;
    }
    false
}

/// The element exists at session `t`, has an owner, and that owner lists it.
pub open spec fn target_member<R: MembershipResolver>(res: R, refno: u64, t: i32) -> bool {
    &&& res.member_record(refno, t) matches Some(Some(e))
    &&& e.owner != 0
    &&& res.member_record(e.owner, t) matches Some(Some(o))
    &&& o.children.contains(refno)
}

/// An error of membership reconciliation that a lookup at session `s1` or `s2`
/// justifies: a failed lookup, an element without an owner, or an owner that does
/// not exist.
pub open spec fn member_error<R: MembershipResolver>(res: R, e: ResolveError, s1: i32, s2: i32) -> bool {
    ||| exists|a: u64, b: i32| (b == s1 || b == s2) && #[trigger] res.member_record(a, b) is None && e == lookup_error(res, a, b)
    ||| e matches ResolveError::EmptyOwner { refno, sesno } && res.member_record(refno, sesno) matches Some(Some(x))
        && x.owner == 0 && (sesno == s1 || sesno == s2)
    ||| e matches ResolveError::MissingOwner { refno, owner, sesno } && res.member_record(refno, sesno) matches Some(
        Some(x),
    ) && x.owner == owner && res.member_record(owner, sesno) == Some(None::<EleView>) && (sesno == s1 || sesno == s2)
}

/// A lookup error justified at two sessions is justified at any pair holding both.
proof fn lemma_member_error_widen<R: MembershipResolver>(res: R, e: ResolveError, a1: i32, a2: i32, b1: i32, b2: i32)
    requires
        member_error(res, e, a1, a2),
        a1 == b1 || a1 == b2,
        a2 == b1 || a2 == b2,
    ensures
        member_error(res, e, b1, b2),
{
    if exists|a: u64, b: i32| (b == a1 || b == a2) && #[trigger] res.member_record(a, b) is None && e == lookup_error(res, a, b) {
        let (a, b) = choose|a: u64, b: i32| (b == a1 || b == a2) && #[trigger] res.member_record(a, b) is None && e == lookup_error(res, a, b);
        assert((b == b1 || b == b2) && res.member_record(a, b) is None && e == lookup_error(res, a, b));
    }
}

/// The answer of the membership test of `refno` at session `t`: a failed lookup of
/// the element or its owner is that lookup's error; an element that does not exist
/// is no member; an element without an owner, or whose owner does not exist, is an
/// error; otherwise whether the owner's member list holds the element.
pub open spec fn target_member_result<R: MembershipResolver>(res: R, refno: u64, t: i32) -> Result<bool, ResolveError> {
    match res.member_record(refno, t) {
        None => Err(lookup_error(res, refno, t)),
        Some(None) => Ok(false),
        Some(Some(e)) => if e.owner == 0 {
            Err(ResolveError::EmptyOwner { refno, sesno: t })
        } else {
            match res.member_record(e.owner, t) {
                None => Err(lookup_error(res, e.owner, t)),
                Some(None) => Err(ResolveError::MissingOwner { refno, owner: e.owner, sesno: t }),
                Some(Some(o)) => Ok(o.children.contains(refno)),
            }
        },
    }
}

/// Whether the element is still accepted by the member list of its owner at session
/// `target_sesno`. An element that does not exist then is not; an element without
/// an owner, or whose owner does not exist then, is an error.
pub fn is_target_member<R: MembershipResolver>(resolver: &mut R, refno: u64, target_sesno: i32) -> (r: Result<bool, ResolveError>)
    ensures
        same_lookups(*final(resolver), *old(resolver)),
        r matches Ok(b) ==> b == target_member(*old(resolver), refno, target_sesno)
            && old(resolver).member_record(refno, target_sesno) is Some,
        r matches Err(e) ==> member_error(*old(resolver), e, target_sesno, target_sesno),
        r == target_member_result(*old(resolver), refno, target_sesno),
{
    let element = match resolver.element_at(refno, target_sesno) {
        Err(e) => {
            return Err(e);
        },
        Ok(None) => {
            return Ok(false);
        },
        Ok(Some(x)) => x,
    };
    if element.owner == 0 {
        return Err(ResolveError::EmptyOwner { refno, sesno: target_sesno });
    }
    let owner = match resolver.element_at(element.owner, target_sesno) {
        Err(e) => {
            return Err(e);
        },
        Ok(None) => {
            return Err(ResolveError::MissingOwner { refno, owner: element.owner, sesno: target_sesno });
        },
        Ok(Some(o)) => o,
    };
    Ok(vec_contains(&owner.children, refno))
}


/// `(s, j)` addresses an operation of the window.
pub open spec fn in_window(w: Map<u32, Vec<EleOperationData>>, s: u32, j: int) -> bool {
    w.contains_key(s) && 0 <= j < w[s]@.len()
}

/// Some operation of the window satisfies `p`.
pub open spec fn window_any(w: Map<u32, Vec<EleOperationData>>, p: spec_fn(EleOperationData) -> bool) -> bool {
    exists|s: u32, j: int| #[trigger] in_window(w, s, j) && p(w[s]@[j])
}

/// A modification whose member list lost `c`.
pub open spec fn op_removes(op: EleOperationData, c: u64) -> bool {
    op.detail matches EleOperationDetail::Modified(m) && m.children_changed matches Some(p) && p.0@.contains(c)
        && !p.1@.contains(c)
}

/// A modification whose member list gained `c`.
pub open spec fn op_attaches(op: EleOperationData, c: u64) -> bool {
    op.detail matches EleOperationDetail::Modified(m) && m.children_changed matches Some(p) && p.1@.contains(c)
        && !p.0@.contains(c)
}

/// An addition of `r` whose record names the owner `o`, which is not empty.
pub open spec fn op_owned_add(op: EleOperationData, r: u64, o: u64) -> bool {
    op.refno == r && (op.detail matches EleOperationDetail::Add(d) && d.owner == o && o != 0)
}

/// Some parent lost `c` from its member list.
pub open spec fn removed_in(w: Map<u32, Vec<EleOperationData>>, c: u64) -> bool {
    window_any(w, |op: EleOperationData| op_removes(op, c))
}

/// Some parent gained `c` in its member list.
pub open spec fn attached_in(w: Map<u32, Vec<EleOperationData>>, c: u64) -> bool {
    window_any(w, |op: EleOperationData| op_attaches(op, c))
}

/// The window deletes `r`.
pub open spec fn deleted_in(w: Map<u32, Vec<EleOperationData>>, r: u64) -> bool {
    window_any(w, |op: EleOperationData| op.refno == r && op.detail is Deleted)
}

/// The window adds `r`: the element was born inside the window.
pub open spec fn born_in(w: Map<u32, Vec<EleOperationData>>, r: u64) -> bool {
    window_any(w, |op: EleOperationData| op.refno == r && op.detail is Add)
}

/// The window adds `r` with the non-empty owner `o`.
pub open spec fn owned_add_in(w: Map<u32, Vec<EleOperationData>>, r: u64, o: u64) -> bool {
    window_any(w, |op: EleOperationData| op_owned_add(op, r, o))
}

/// `o` owns an addition of the window.
pub open spec fn add_owner(w: Map<u32, Vec<EleOperationData>>, o: u64) -> bool {
    exists|x: u64| #[trigger] owned_add_in(w, x, o)
}

/// `ol` lists the owners of the window's additions, each once, in increasing order.
pub open spec fn owner_order(w: Map<u32, Vec<EleOperationData>>, ol: Seq<u64>) -> bool {
    &&& forall|i: int, j: int| 0 <= i < j < ol.len() ==> ol[i] < ol[j]
    &&& forall|o: u64| ol.contains(o) <==> #[trigger] add_owner(w, o)
}

/// The lookup of an addition's owner at session `t` fails.
pub open spec fn owner_lookup_fails<R: MembershipResolver>(res: R, w: Map<u32, Vec<EleOperationData>>, o: u64, t: i32) -> bool {
    add_owner(w, o) && res.member_record(o, t) is None
}

/// `e` is the failed lookup of the least addition owner whose lookup fails.
pub open spec fn least_owner_failure<R: MembershipResolver>(res: R, w: Map<u32, Vec<EleOperationData>>, t: i32, e: ResolveError) -> bool {
    exists|o: u64|
        #[trigger] owner_lookup_fails(res, w, o, t) && e == lookup_error(res, o, t) && forall|o2: u64| #[trigger]
            add_owner(w, o2) && o2 < o ==> res.member_record(o2, t) is Some
}

/// A dropped element whose membership at the target session is checked: some
/// parent dropped it and none took it up, and neither the window deletes it nor is
/// it an orphaned addition.
pub open spec fn checked_candidate<R: MembershipResolver>(res: R, w: Map<u32, Vec<EleOperationData>>, x: u64, t: i32) -> bool {
    removed_in(w, x) && !attached_in(w, x) && !deleted_in(w, x) && !orphan_in(res, w, x, t)
}

/// `e` is the error of the membership check of the least checked candidate whose
/// check fails.
pub open spec fn least_candidate_failure<R: MembershipResolver>(res: R, w: Map<u32, Vec<EleOperationData>>, t: i32, e: ResolveError) -> bool {
    exists|x: u64|
        #[trigger] checked_candidate(res, w, x, t) && target_member_result(res, x, t) == Err::<bool, ResolveError>(e) && forall|x2: u64|
            #[trigger] checked_candidate(res, w, x2, t) && x2 < x ==> target_member_result(res, x2, t) is Ok
}

/// An addition whose owner exists at the target session and does not list it.
pub open spec fn orphan_in<R: MembershipResolver>(res: R, w: Map<u32, Vec<EleOperationData>>, r: u64, t: i32) -> bool {
    exists|o: u64| #[trigger] owned_add_in(w, r, o) && (res.member_record(o, t) matches Some(Some(x)) && !x.children.contains(r))
}

/// Every position of the list addresses an operation, and every operation is listed.
pub open spec fn positions_of(w: Map<u32, Vec<EleOperationData>>, pos: Seq<(u32, usize)>) -> bool {
    &&& forall|k: int| 0 <= k < pos.len() ==> in_window(w, (#[trigger] pos[k]).0, pos[k].1 as int)
    &&& forall|s: u32, j: int| #[trigger] in_window(w, s, j) ==> exists|k: int| 0 <= k < pos.len() && pos[k].0 == s && pos[k].1 == j
}

/// `(s, j)` is among the positions.
pub open spec fn listed(pos: Seq<(u32, usize)>, s: u32, j: int) -> bool {
    exists|q: int| 0 <= q < pos.len() && (#[trigger] pos[q]).0 == s && pos[q].1 == j
}

/// Every operation position of the window.
fn window_positions(w: &BTreeMap<u32, Vec<EleOperationData>>) -> (r: Vec<(u32, usize)>)
    ensures
        positions_of(w@, r@),
{
    broadcast use crate::order::group_key_order;

    let mut r: Vec<(u32, usize)> = Vec::new();
    let iter = w.iter();
    let ghost s0 = iter.remaining();
    for (k, list) in it: iter
        invariant
            it.seq() == s0,
            forall|i: int| 0 <= i < s0.len() ==> w@.contains_key(*(#[trigger] s0[i]).0) && w@[*s0[i].0] == *s0[i].1,
            forall|q: int| 0 <= q < r@.len() ==> in_window(w@, (#[trigger] r@[q]).0, r@[q].1 as int),
            forall|i: int, j: int| 0 <= i < it.index() && 0 <= j < s0[i].1@.len() ==> #[trigger] listed(r@, *s0[i].0, j),
    {
        let ghost idx = it.index();
        proof {
            assert(s0[idx] == (k, list));
        }
        let mut j: usize = 0;
        while j < list.len()
            invariant
                j <= list.len(),
                w@.contains_key(*k) && w@[*k] == *list,
                forall|q: int| 0 <= q < r@.len() ==> in_window(w@, (#[trigger] r@[q]).0, r@[q].1 as int),
                forall|i: int, jj: int| 0 <= i < idx && 0 <= jj < s0[i].1@.len() ==> #[trigger] listed(r@, *s0[i].0, jj),
                forall|jj: int| 0 <= jj < j ==> #[trigger] listed(r@, *k, jj),
            decreases list.len() - j,
        {
            let ghost r_before = r@;
            r.push((*k, j));
            proof {
                let n = r@.len() - 1;
                assert(r@[n] == (*k, j));
                assert(listed(r@, *k, j as int));
                assert forall|i: int, jj: int| 0 <= i < idx && 0 <= jj < s0[i].1@.len() implies #[trigger] listed(r@, *s0[i].0, jj) by {
                    assert(listed(r_before, *s0[i].0, jj));
                    let q = choose|q: int| 0 <= q < r_before.len() && (#[trigger] r_before[q]).0 == *s0[i].0 && r_before[q].1 == jj;
                    assert(r@[q] == r_before[q]);
                }
                assert forall|jj: int| 0 <= jj < j implies #[trigger] listed(r@, *k, jj) by {
                    assert(listed(r_before, *k, jj));
                    let q = choose|q: int| 0 <= q < r_before.len() && (#[trigger] r_before[q]).0 == *k && r_before[q].1 == jj;
                    assert(r@[q] == r_before[q]);
                }
            }
            j += 1;
        }
    }
    proof {
        assert forall|s: u32, j: int| #[trigger] in_window(w@, s, j) implies exists|k: int|
            0 <= k < r@.len() && r@[k].0 == s && r@[k].1 == j by {
            assert(s0.contains((&s, &w@[s])));
            let i = choose|i: int| 0 <= i < s0.len() && s0[i] == (&s, &w@[s]);
            assert(s0[i].1@.len() == w@[s]@.len());
            assert(listed(r@, *s0[i].0, j));
        }
    }
    r
}

/// The operation at position `q` of the list.
pub open spec fn pos_op(w: Map<u32, Vec<EleOperationData>>, pos: Seq<(u32, usize)>, q: int) -> EleOperationData {
    w[pos[q].0]@[pos[q].1 as int]
}

/// Some listed position before `n` holds an operation satisfying `p`.
pub open spec fn pos_any(w: Map<u32, Vec<EleOperationData>>, pos: Seq<(u32, usize)>, n: int, p: spec_fn(EleOperationData) -> bool) -> bool {
    exists|q: int| 0 <= q < n && p(#[trigger] pos_op(w, pos, q))
}

/// Some listed position before `n` holds an addition of `a` owned by `o`.
pub open spec fn pos_owned_add(w: Map<u32, Vec<EleOperationData>>, pos: Seq<(u32, usize)>, n: int, a: u64, o: u64) -> bool {
    pos_any(w, pos, n, |op: EleOperationData| op_owned_add(op, a, o))
}

/// Over a complete position list, "some listed position" is "some operation".
proof fn lemma_positions_any(w: Map<u32, Vec<EleOperationData>>, pos: Seq<(u32, usize)>, p: spec_fn(EleOperationData) -> bool)
    requires
        positions_of(w, pos),
    ensures
        pos_any(w, pos, pos.len() as int, p) == window_any(w, p),
{
    if pos_any(w, pos, pos.len() as int, p) {
        let q = choose|q: int| 0 <= q < pos.len() && p(#[trigger] pos_op(w, pos, q));
        assert(in_window(w, pos[q].0, pos[q].1 as int));
    }
    if window_any(w, p) {
        let (s, j) = choose|s: u32, j: int| #[trigger] in_window(w, s, j) && p(w[s]@[j]);
        let q = choose|q: int| 0 <= q < pos.len() && pos[q].0 == s && pos[q].1 == j;
        assert(pos_op(w, pos, q) == w[s]@[j]);
    }
}

/// Adds to `out` every element of `a` that `b` lacks.
fn insert_difference(out: &mut BTreeSet<u64>, a: &Vec<u64>, b: &Vec<u64>)
    ensures
        final(out)@ == old(out)@.union(Set::new(|c: u64| a@.contains(c) && !b@.contains(c))),
{
    broadcast use crate::order::group_key_order;

    let ghost start = out@;
    let mut i: usize = 0;
    while i < a.len()
        invariant
            i <= a.len(),
            out@ == start.union(Set::new(|c: u64| a@.take(i as int).contains(c) && !b@.contains(c))),
        decreases a.len() - i,
    {
        let c = a[i];
        let ghost before = out@;
        let ghost t0 = a@.take(i as int);
        let ghost t1 = a@.take(i + 1);
        if !vec_contains(b, c) {
            out.insert(c);
        }
        proof {
            assert(t1 == t0.push(c));
            assert forall|x: u64| t1.contains(x) <==> (t0.contains(x) || x == c) by {
                if t1.contains(x) {
                    let k = choose|k: int| 0 <= k < t1.len() && t1[k] == x;
                    if k < t0.len() {
                        assert(t0[k] == x);
                    }
                }
                if t0.contains(x) {
                    let k = choose|k: int| 0 <= k < t0.len() && t0[k] == x;
                    assert(t1[k] == x);
                }
                if x == c {
                    assert(t1[t0.len() as int] == x);
                }
            }
            assert(out@ =~= start.union(Set::new(|x: u64| t1.contains(x) && !b@.contains(x))));
        }
        i += 1;
    }
    proof {
        assert(a@.take(i as int) == a@);
    }
}

/// The member-list deltas, deletions, births and owned additions of a window.
struct WindowScan {
    removed: BTreeSet<u64>,
    attached: BTreeSet<u64>,
    deleted: BTreeSet<u64>,
    born: BTreeSet<u64>,
    adds: Vec<(u64, u64)>,
}

fn scan_window(window: &BTreeMap<u32, Vec<EleOperationData>>) -> (r: WindowScan)
    ensures
        r.removed@ == Set::new(|c: u64| removed_in(window@, c)),
        r.attached@ == Set::new(|c: u64| attached_in(window@, c)),
        r.deleted@ == Set::new(|c: u64| deleted_in(window@, c)),
        r.born@ == Set::new(|c: u64| born_in(window@, c)),
        forall|q: int| 0 <= q < r.adds@.len() ==> owned_add_in(window@, (#[trigger] r.adds@[q]).0, r.adds@[q].1),
        forall|a: u64, o: u64| #[trigger] owned_add_in(window@, a, o) ==> r.adds@.contains((a, o)),
{
    broadcast use crate::order::group_key_order;

    let pos = window_positions(window);
    let ghost w = window@;
    let mut removed: BTreeSet<u64> = BTreeSet::new();
    let mut attached: BTreeSet<u64> = BTreeSet::new();
    let mut deleted: BTreeSet<u64> = BTreeSet::new();
    let mut born: BTreeSet<u64> = BTreeSet::new();
    let mut adds: Vec<(u64, u64)> = Vec::new();
    let mut i: usize = 0;
    while i < pos.len()
        invariant
            i <= pos.len(),
            w == window@,
            positions_of(w, pos@),
            removed@ == Set::new(|c: u64| pos_any(w, pos@, i as int, |op: EleOperationData| op_removes(op, c))),
            attached@ == Set::new(|c: u64| pos_any(w, pos@, i as int, |op: EleOperationData| op_attaches(op, c))),
            deleted@ == Set::new(|c: u64| pos_any(w, pos@, i as int, |op: EleOperationData| op.refno == c && op.detail is Deleted)),
            born@ == Set::new(|c: u64| pos_any(w, pos@, i as int, |op: EleOperationData| op.refno == c && op.detail is Add)),
            forall|q: int| 0 <= q < adds@.len() ==> owned_add_in(w, (#[trigger] adds@[q]).0, adds@[q].1),
            forall|a: u64, o: u64| #[trigger] pos_owned_add(w, pos@, i as int, a, o) ==> adds@.contains((a, o)),
        decreases pos.len() - i,
    {
        let (s, j) = pos[i];
        proof {
            assert(in_window(w, pos@[i as int].0, pos@[i as int].1 as int));
        }
        let list = window.get(&s).unwrap();
        let op = &list[j];
        assert(*op == pos_op(w, pos@, i as int));
        let ghost adds_before = adds@;
        match &op.detail {
            EleOperationDetail::Modified(m) => {
                match &m.children_changed {
                    Some(pair) => {
                        insert_difference(&mut removed, &pair.0, &pair.1);
                        insert_difference(&mut attached, &pair.1, &pair.0);
                    },
                    None => {},
                }
            },
            EleOperationDetail::Deleted => {
                deleted.insert(op.refno);
            },
            EleOperationDetail::Add(d) => {
                born.insert(op.refno);
                if d.owner != 0 {
                    adds.push((op.refno, d.owner));
                    proof {
                        assert(op_owned_add(pos_op(w, pos@, i as int), op.refno, d.owner));
                        assert(in_window(w, s, j as int));
                        assert(owned_add_in(w, op.refno, d.owner));
                        assert(adds@[adds@.len() - 1] == (op.refno, d.owner));
                    }
                }
            },
            EleOperationDetail::NoOp => {},
        }
        proof {
            let n = i as int + 1;
            assert forall|c: u64| #![auto] removed@.contains(c) == pos_any(w, pos@, n, |op: EleOperationData| op_removes(op, c)) by {
                if pos_any(w, pos@, n, |op: EleOperationData| op_removes(op, c)) {
                    let q = choose|q: int| 0 <= q < n && op_removes(#[trigger] pos_op(w, pos@, q), c);
                    if q < i {
                        assert(pos_any(w, pos@, i as int, |op: EleOperationData| op_removes(op, c)));
                    }
                }
                if pos_any(w, pos@, i as int, |op: EleOperationData| op_removes(op, c)) {
                    let q = choose|q: int| 0 <= q < i && op_removes(#[trigger] pos_op(w, pos@, q), c);
                    assert(pos_any(w, pos@, n, |op: EleOperationData| op_removes(op, c)));
                }
                if op_removes(pos_op(w, pos@, i as int), c) {
                    assert(pos_any(w, pos@, n, |op: EleOperationData| op_removes(op, c)));
                }
            }
            assert forall|c: u64| #![auto] attached@.contains(c) == pos_any(w, pos@, n, |op: EleOperationData| op_attaches(op, c)) by {
                if pos_any(w, pos@, n, |op: EleOperationData| op_attaches(op, c)) {
                    let q = choose|q: int| 0 <= q < n && op_attaches(#[trigger] pos_op(w, pos@, q), c);
                    if q < i {
                        assert(pos_any(w, pos@, i as int, |op: EleOperationData| op_attaches(op, c)));
                    }
                }
                if pos_any(w, pos@, i as int, |op: EleOperationData| op_attaches(op, c)) {
                    let q = choose|q: int| 0 <= q < i && op_attaches(#[trigger] pos_op(w, pos@, q), c);
                    assert(pos_any(w, pos@, n, |op: EleOperationData| op_attaches(op, c)));
                }
                if op_attaches(pos_op(w, pos@, i as int), c) {
                    assert(pos_any(w, pos@, n, |op: EleOperationData| op_attaches(op, c)));
                }
            }
            assert forall|c: u64| #![auto] deleted@.contains(c) == pos_any(w, pos@, n, |op: EleOperationData| op.refno == c && op.detail is Deleted) by {
                if pos_any(w, pos@, n, |op: EleOperationData| op.refno == c && op.detail is Deleted) {
                    let q = choose|q: int| 0 <= q < n && (#[trigger] pos_op(w, pos@, q)).refno == c && pos_op(w, pos@, q).detail is Deleted;
                    if q < i {
                        assert(pos_any(w, pos@, i as int, |op: EleOperationData| op.refno == c && op.detail is Deleted));
                    }
                }
                if pos_any(w, pos@, i as int, |op: EleOperationData| op.refno == c && op.detail is Deleted) {
                    let q = choose|q: int| 0 <= q < i && (#[trigger] pos_op(w, pos@, q)).refno == c && pos_op(w, pos@, q).detail is Deleted;
                    assert(pos_any(w, pos@, n, |op: EleOperationData| op.refno == c && op.detail is Deleted));
                }
                if pos_op(w, pos@, i as int).refno == c && pos_op(w, pos@, i as int).detail is Deleted {
                    assert(pos_any(w, pos@, n, |op: EleOperationData| op.refno == c && op.detail is Deleted));
                }
            }
            assert forall|c: u64| #![auto] born@.contains(c) == pos_any(w, pos@, n, |op: EleOperationData| op.refno == c && op.detail is Add) by {
                if pos_any(w, pos@, n, |op: EleOperationData| op.refno == c && op.detail is Add) {
                    let q = choose|q: int| 0 <= q < n && (#[trigger] pos_op(w, pos@, q)).refno == c && pos_op(w, pos@, q).detail is Add;
                    if q < i {
                        assert(pos_any(w, pos@, i as int, |op: EleOperationData| op.refno == c && op.detail is Add));
                    }
                }
                if pos_any(w, pos@, i as int, |op: EleOperationData| op.refno == c && op.detail is Add) {
                    let q = choose|q: int| 0 <= q < i && (#[trigger] pos_op(w, pos@, q)).refno == c && pos_op(w, pos@, q).detail is Add;
                    assert(pos_any(w, pos@, n, |op: EleOperationData| op.refno == c && op.detail is Add));
                }
                if pos_op(w, pos@, i as int).refno == c && pos_op(w, pos@, i as int).detail is Add {
                    assert(pos_any(w, pos@, n, |op: EleOperationData| op.refno == c && op.detail is Add));
                }
            }
            assert(removed@ =~= Set::new(|c: u64| pos_any(w, pos@, n, |op: EleOperationData| op_removes(op, c))));
            assert(attached@ =~= Set::new(|c: u64| pos_any(w, pos@, n, |op: EleOperationData| op_attaches(op, c))));
            assert(deleted@ =~= Set::new(|c: u64| pos_any(w, pos@, n, |op: EleOperationData| op.refno == c && op.detail is Deleted)));
            assert(born@ =~= Set::new(|c: u64| pos_any(w, pos@, n, |op: EleOperationData| op.refno == c && op.detail is Add)));
            assert forall|a: u64, o: u64| #[trigger] pos_owned_add(w, pos@, n, a, o) implies adds@.contains((a, o)) by {
                let q = choose|q: int| 0 <= q < n && op_owned_add(#[trigger] pos_op(w, pos@, q), a, o);
                if q < i {
                    assert(pos_owned_add(w, pos@, i as int, a, o));
                    let k = choose|k: int| 0 <= k < adds_before.len() && adds_before[k] == (a, o);
                    assert(adds@[k] == adds_before[k]);
                } else {
                    assert(adds@[adds@.len() - 1] == (a, o));
                }
            }
            assert forall|q: int| 0 <= q < adds@.len() implies owned_add_in(w, (#[trigger] adds@[q]).0, adds@[q].1) by {
                if q < adds_before.len() {
                    assert(adds@[q] == adds_before[q]);
                }
            }
        }
        i += 1;
    }
    proof {
        assert forall|c: u64| #![auto] removed@.contains(c) == removed_in(w, c) by {
            lemma_positions_any(w, pos@, |op: EleOperationData| op_removes(op, c));
        }
        assert forall|c: u64| #![auto] attached@.contains(c) == attached_in(w, c) by {
            lemma_positions_any(w, pos@, |op: EleOperationData| op_attaches(op, c));
        }
        assert forall|c: u64| #![auto] deleted@.contains(c) == deleted_in(w, c) by {
            lemma_positions_any(w, pos@, |op: EleOperationData| op.refno == c && op.detail is Deleted);
        }
        assert forall|c: u64| #![auto] born@.contains(c) == born_in(w, c) by {
            lemma_positions_any(w, pos@, |op: EleOperationData| op.refno == c && op.detail is Add);
        }
        assert forall|a: u64, o: u64| #[trigger] owned_add_in(w, a, o) implies adds@.contains((a, o)) by {
            lemma_positions_any(w, pos@, |op: EleOperationData| op_owned_add(op, a, o));
            assert(pos_owned_add(w, pos@, pos@.len() as int, a, o));
        }
        assert(removed@ =~= Set::new(|c: u64| removed_in(w, c)));
        assert(attached@ =~= Set::new(|c: u64| attached_in(w, c)));
        assert(deleted@ =~= Set::new(|c: u64| deleted_in(w, c)));
        assert(born@ =~= Set::new(|c: u64| born_in(w, c)));
    }
    WindowScan { removed, attached, deleted, born, adds }
}

/// The elements of a set in increasing order.
pub fn set_elements(s: &BTreeSet<u64>) -> (r: Vec<u64>)
    ensures
        forall|k: int| 0 <= k < r@.len() ==> s@.contains(#[trigger] r@[k]),
        forall|x: u64| #[trigger] s@.contains(x) ==> r@.contains(x),
        forall|i: int, j: int| 0 <= i < j < r@.len() ==> r@[i] < r@[j],
        r@.len() == s@.len(),
{
    broadcast use crate::order::group_key_order;

    let mut r: Vec<u64> = Vec::new();
    let iter = s.iter();
    let ghost s0 = iter.remaining();
    proof {
        assert(s0 == vstd::std_specs::btree::spec_btree_keys_iter(s).remaining());
        crate::order::lemma_increasing_u64_elements(s0);
    }
    for x in it: iter
        invariant
            it.seq() == s0,
            r@.len() == it.index(),
            forall|i: int| 0 <= i < it.index() ==> #[trigger] r@[i] == *s0[i],
    {
        r.push(*x);
    }
    proof {
        assert forall|k: int| 0 <= k < r@.len() implies s@.contains(#[trigger] r@[k]) by {
            assert(s0.unref()[k] == *s0[k]);
            assert(s0.unref().contains(*s0[k]));
        }
        assert forall|x: u64| #[trigger] s@.contains(x) implies r@.contains(x) by {
            assert(s0.unref().to_set().contains(x));
            let k = choose|k: int| 0 <= k < s0.unref().len() && s0.unref()[k] == x;
            assert(r@[k] == x);
        }
    }
    r
}

/// Additions whose owner exists at the target session and no longer lists them.
/// Each owner is looked up once; an owner that does not exist then decides nothing.
pub fn orphaned_adds<R: MembershipResolver>(
    window: &BTreeMap<u32, Vec<EleOperationData>>,
    target_sesno: i32,
    resolver: &mut R,
) -> (r: Result<BTreeSet<u64>, ResolveError>)
    ensures
        same_lookups(*final(resolver), *old(resolver)),
        r is Ok ==> exists|ol: Seq<u64>| #[trigger] owner_order(window@, ol) && final(resolver).lookups() == old(resolver).lookups()
            + ol.map_values(|o: u64| (o, target_sesno)),
        r matches Ok(o) ==> o@ == Set::new(|x: u64| orphan_in(*old(resolver), window@, x, target_sesno)),
        r matches Err(e) ==> member_error(*old(resolver), e, target_sesno, target_sesno),
        r is Err <==> exists|o: u64| #[trigger] owner_lookup_fails(*old(resolver), window@, o, target_sesno),
        r matches Err(e) ==> least_owner_failure(*old(resolver), window@, target_sesno, e),
{
    broadcast use crate::order::group_key_order;

    let ghost r0 = *resolver;
    let scan = scan_window(window);
    let adds = scan.adds;
    let mut owners: BTreeSet<u64> = BTreeSet::new();
    let mut q: usize = 0;
    while q < adds.len()
        invariant
            q <= adds.len(),
            forall|k: int| 0 <= k < q ==> owners@.contains(#[trigger] adds@[k].1),
            forall|o: u64| #[trigger] owners@.contains(o) ==> exists|k: int| 0 <= k < q && adds@[k].1 == o,
        decreases adds.len() - q,
    {
        owners.insert(adds[q].1);
        q += 1;
    }
    let owner_list = set_elements(&owners);
    let mut orphans: BTreeSet<u64> = BTreeSet::new();
    let mut k: usize = 0;
    while k < owner_list.len()
        invariant
            k <= owner_list.len(),
            same_lookups(*resolver, r0),
            r0 == *old(resolver),
            resolver.lookups() == r0.lookups() + owner_list@.take(k as int).map_values(|o: u64| (o, target_sesno)),
            forall|x: u64| #[trigger] orphans@.contains(x) == exists|p: int| 0 <= p < adds@.len() && adds@[p].0 == x
                && owner_list@.take(k as int).contains(adds@[p].1) && (r0.member_record(adds@[p].1, target_sesno) matches Some(Some(rec))
                && !rec.children.contains(x)),
            forall|j: int| 0 <= j < k ==> r0.member_record(#[trigger] owner_list@[j], target_sesno) is Some,
            forall|j: int| 0 <= j < owner_list@.len() ==> owners@.contains(#[trigger] owner_list@[j]),
            forall|o: u64| #[trigger] owners@.contains(o) ==> owner_list@.contains(o),
            forall|i: int, j: int| 0 <= i < j < owner_list@.len() ==> owner_list@[i] < owner_list@[j],
            forall|o: u64| #[trigger] owners@.contains(o) ==> exists|kk: int| 0 <= kk < adds@.len() && adds@[kk].1 == o,
            forall|kk: int| 0 <= kk < adds@.len() ==> owners@.contains(#[trigger] adds@[kk].1),
            forall|qq: int| 0 <= qq < adds@.len() ==> owned_add_in(window@, (#[trigger] adds@[qq]).0, adds@[qq].1),
            forall|a: u64, o: u64| #[trigger] owned_add_in(window@, a, o) ==> adds@.contains((a, o)),
        decreases owner_list.len() - k,
    {
        let owner = owner_list[k];
        let ghost taken0 = owner_list@.take(k as int);
        let ghost taken1 = owner_list@.take(k + 1);
        proof {
            assert(taken1 == taken0.push(owner));
            assert forall|y: u64| taken1.contains(y) <==> (taken0.contains(y) || y == owner) by {
                if taken1.contains(y) {
                    let i = choose|i: int| 0 <= i < taken1.len() && taken1[i] == y;
                    if i < taken0.len() {
                        assert(taken0[i] == y);
                    }
                }
                if taken0.contains(y) {
                    let i = choose|i: int| 0 <= i < taken0.len() && taken0[i] == y;
                    assert(taken1[i] == y);
                }
                if y == owner {
                    assert(taken1[taken0.len() as int] == y);
                }
            }
        }
        let ghost asked0 = resolver.lookups();
        let member = resolver.element_at(owner, target_sesno);
        proof {
            assert(resolver.lookups() =~= r0.lookups() + taken1.map_values(|o: u64| (o, target_sesno)));
        }
        match member {
            Err(e) => {
                proof {
                    assert(r0.member_record(owner, target_sesno) is None && e == lookup_error(r0, owner, target_sesno));
                    assert(owners@.contains(owner));
                    let kk = choose|kk: int| 0 <= kk < adds@.len() && adds@[kk].1 == owner;
                    assert(owned_add_in(window@, adds@[kk].0, owner));
                    assert(owner_lookup_fails(r0, window@, owner, target_sesno));
                    assert forall|o2: u64| #[trigger] add_owner(window@, o2) && o2 < owner implies r0.member_record(o2, target_sesno) is Some by {
                        let x2 = choose|x2: u64| #[trigger] owned_add_in(window@, x2, o2);
                        assert(adds@.contains((x2, o2)));
                        let kq = choose|kq: int| 0 <= kq < adds@.len() && adds@[kq] == (x2, o2);
                        assert(owners@.contains(adds@[kq].1));
                        assert(owner_list@.contains(o2));
                        let j = choose|j: int| 0 <= j < owner_list@.len() && owner_list@[j] == o2;
                        if j >= k {
                            if j > k {
                                assert(owner_list@[k as int] < owner_list@[j]);
                            }
                        }
                    }
                }
                return Err(e);
            },
            Ok(None) => {
                proof {
                    assert forall|x: u64| #[trigger] orphans@.contains(x) == exists|p: int| 0 <= p < adds@.len() && adds@[p].0 == x
                        && taken1.contains(adds@[p].1) && (r0.member_record(adds@[p].1, target_sesno) matches Some(Some(rec))
                        && !rec.children.contains(x)) by {
                    }
                }
            },
            Ok(Some(rec)) => {
                let ghost before = orphans@;
                let mut p: usize = 0;
                while p < adds.len()
                    invariant
                        p <= adds.len(),
                        r0.member_record(owner, target_sesno) == Some(Some(rec@)),
                        forall|x: u64| #[trigger] orphans@.contains(x) == (before.contains(x) || exists|pp: int| 0 <= pp < p && adds@[pp].0 == x
                            && adds@[pp].1 == owner && !rec.children@.contains(x)),
                    decreases adds.len() - p,
                {
                    let ghost o_before = orphans@;
                    let hit = adds[p].1 == owner && !vec_contains(&rec.children, adds[p].0);
                    if hit {
                        orphans.insert(adds[p].0);
                    }
                    proof {
                        assert forall|x: u64| #[trigger] orphans@.contains(x) == (before.contains(x) || exists|pp: int| 0 <= pp < p + 1 && adds@[pp].0 == x
                            && adds@[pp].1 == owner && !rec.children@.contains(x)) by {
                            if exists|pp: int| 0 <= pp < p + 1 && adds@[pp].0 == x && adds@[pp].1 == owner && !rec.children@.contains(x) {
                                let pp = choose|pp: int| 0 <= pp < p + 1 && adds@[pp].0 == x && adds@[pp].1 == owner && !rec.children@.contains(x);
                                if pp < p {
                                    assert(o_before.contains(x));
                                } else {
                                    assert(hit);
                                }
                            }
                            if o_before.contains(x) && !before.contains(x) {
                                let pp = choose|pp: int| 0 <= pp < p && adds@[pp].0 == x && adds@[pp].1 == owner && !rec.children@.contains(x);
                                assert(0 <= pp < p + 1);
                            }
                            if hit && x == adds@[p as int].0 {
                                assert(0 <= p < p + 1 && adds@[p as int].0 == x && adds@[p as int].1 == owner && !rec.children@.contains(x));
                            }
                        }
                    }
                    p += 1;
                }
                proof {
                    assert forall|x: u64| #[trigger] orphans@.contains(x) == exists|pp: int| 0 <= pp < adds@.len() && adds@[pp].0 == x
                        && taken1.contains(adds@[pp].1) && (r0.member_record(adds@[pp].1, target_sesno) matches Some(Some(rr))
                        && !rr.children.contains(x)) by {
                        if orphans@.contains(x) && !before.contains(x) {
                            let pp = choose|pp: int| 0 <= pp < p && adds@[pp].0 == x && adds@[pp].1 == owner && !rec.children@.contains(x);
                            assert(taken1.contains(adds@[pp].1));
                        }
                        if exists|pp: int| 0 <= pp < adds@.len() && adds@[pp].0 == x
                            && taken1.contains(adds@[pp].1) && (r0.member_record(adds@[pp].1, target_sesno) matches Some(Some(rr))
                            && !rr.children.contains(x)) {
                            let pp = choose|pp: int| 0 <= pp < adds@.len() && adds@[pp].0 == x
                                && taken1.contains(adds@[pp].1) && (r0.member_record(adds@[pp].1, target_sesno) matches Some(Some(rr))
                                && !rr.children.contains(x));
                            if !taken0.contains(adds@[pp].1) {
                                assert(adds@[pp].1 == owner);
                            }
                        }
                    }
                }
            },
        }
        k += 1;
    }
    proof {
        assert(owner_list@.take(k as int) == owner_list@);
        assert forall|x: u64| #[trigger] orphans@.contains(x) == orphan_in(r0, window@, x, target_sesno) by {
            if orphans@.contains(x) {
                let pp = choose|pp: int| 0 <= pp < adds@.len() && adds@[pp].0 == x
                    && owner_list@.contains(adds@[pp].1) && (r0.member_record(adds@[pp].1, target_sesno) matches Some(Some(rr))
                    && !rr.children.contains(x));
                assert(owned_add_in(window@, adds@[pp].0, adds@[pp].1));
            }
            if orphan_in(r0, window@, x, target_sesno) {
                let o = choose|o: u64| #[trigger] owned_add_in(window@, x, o) && (r0.member_record(o, target_sesno) matches Some(Some(rr))
                    && !rr.children.contains(x));
                assert(adds@.contains((x, o)));
                let pp = choose|pp: int| 0 <= pp < adds@.len() && adds@[pp] == (x, o);
                assert(owners@.contains(adds@[pp].1));
                assert(owner_list@.contains(o));
            }
        }
        assert(orphans@ =~= Set::new(|x: u64| orphan_in(r0, window@, x, target_sesno)));
        assert forall|o: u64| !#[trigger] owner_lookup_fails(r0, window@, o, target_sesno) by {
            if add_owner(window@, o) {
                let x2 = choose|x2: u64| #[trigger] owned_add_in(window@, x2, o);
                assert(adds@.contains((x2, o)));
                let kq = choose|kq: int| 0 <= kq < adds@.len() && adds@[kq] == (x2, o);
                assert(owners@.contains(adds@[kq].1));
                assert(owner_list@.contains(o));
                let j = choose|j: int| 0 <= j < owner_list@.len() && owner_list@[j] == o;
                assert(r0.member_record(owner_list@[j], target_sesno) is Some);
            }
        }
        assert forall|o: u64| owner_list@.contains(o) <==> #[trigger] add_owner(window@, o) by {
            if owner_list@.contains(o) {
                assert(owners@.contains(o));
                let kk = choose|kk: int| 0 <= kk < adds@.len() && adds@[kk].1 == o;
                assert(owned_add_in(window@, adds@[kk].0, o));
            }
            if add_owner(window@, o) {
                let x2 = choose|x2: u64| #[trigger] owned_add_in(window@, x2, o);
                assert(adds@.contains((x2, o)));
                let kq = choose|kq: int| 0 <= kq < adds@.len() && adds@[kq] == (x2, o);
                assert(owners@.contains(adds@[kq].1));
            }
        }
        assert(owner_order(window@, owner_list@));
    }
    Ok(orphans)
}

/// The member list a dead element's subtree is expanded from: its record at the
/// base session; for an element born inside the window, which has none there, its
/// record at the target session.
pub open spec fn expansion<R: MembershipResolver>(res: R, y: u64, base: i32, t: i32, born: bool) -> Option<Seq<u64>> {
    match res.member_record(y, base) {
        Some(Some(b)) => Some(b.children),
        Some(None) => if born {
            match res.member_record(y, t) {
                Some(Some(x)) => Some(x.children),
                _ => None,
            }
        } else {
            None
        },
        None => None,
    }
}

/// At the target session the element belongs to a living owner that lists it.
pub open spec fn moved_live<R: MembershipResolver>(res: R, c: u64, t: i32, dead: Set<u64>) -> bool {
    &&& res.member_record(c, t) matches Some(Some(x))
    &&& !dead.contains(x.owner)
    &&& target_member(res, c, t)
}

/// `x` is a member of the expansion of some dead element and has not moved to a
/// living owner.
pub open spec fn queued_child<R: MembershipResolver>(res: R, born: Set<u64>, base: i32, t: i32, dead: Set<u64>, x: u64) -> bool {
    exists|y: u64| #[trigger] dead.contains(y) && (expansion(res, y, base, t, born.contains(y)) matches Some(cs)
        && cs.contains(x)) && !moved_live(res, x, t, dead)
}

/// As `queued_child`, with a parent of lower rank.
pub open spec fn dead_parent<R: MembershipResolver>(
    res: R,
    born: Set<u64>,
    base: i32,
    t: i32,
    dead: Set<u64>,
    rank: Map<u64, nat>,
    x: u64,
) -> bool {
    exists|y: u64| #[trigger] dead.contains(y) && rank[y] < rank[x] && (expansion(res, y, base, t, born.contains(y)) matches Some(cs)
        && cs.contains(x)) && !moved_live(res, x, t, dead)
}

/// `dead` is a deletion closure of `roots`: it holds every root; every other member
/// descends, through lower ranks, from a dead element's expansion without having
/// moved to a living owner; every member expands (it exists at the base session, or
/// was born in the window and its target lookup answers); and every member of a dead
/// element's expansion is dead or lives under its owner at the target session.
pub open spec fn member_closure<R: MembershipResolver>(
    res: R,
    roots: Set<u64>,
    born: Set<u64>,
    base: i32,
    t: i32,
    dead: Set<u64>,
    rank: Map<u64, nat>,
) -> bool {
    &&& dead.finite()
    &&& rank.dom() == dead
    &&& roots.subset_of(dead)
    &&& forall|x: u64| #[trigger] dead.contains(x) ==> roots.contains(x) || dead_parent(res, born, base, t, dead, rank, x)
    &&& forall|x: u64| #[trigger] dead.contains(x) ==> expand_error(res, x, base, t, born.contains(x)) is None
    &&& forall|y: u64, c: u64| #![trigger dead.contains(y), expansion(res, y, base, t, born.contains(y))->0.contains(c)]
        dead.contains(y) && expansion(res, y, base, t, born.contains(y)) is Some && expansion(res, y, base, t, born.contains(y))->0.contains(c)
            ==> dead.contains(c) || target_member(res, c, t)
}

/// A queued element not yet taken.
pub open spec fn pending(queue: Seq<u64>, head: int, c: u64) -> bool {
    exists|k: int| head <= k < queue.len() && queue[k] == c
}

/// `s.len() < 2^64` for a finite set of `u64` missing some value.
proof fn lemma_u64_set_room(s: Set<u64>, x: u64)
    requires
        s.finite(),
        !s.contains(x),
    ensures
        s.len() < 0x1_0000_0000_0000_0000,
{
    let t = s.insert(x);
    let f = |v: u64| v as int;
    vstd::set_lib::lemma_int_range(0, 0x1_0000_0000_0000_0000);
    assert(vstd::relations::injective_on(f, t));
    vstd::set_lib::lemma_map_size(t, t.map(f), f);
    assert(t.map(f).subset_of(vstd::set_lib::set_int_range(0, 0x1_0000_0000_0000_0000)));
    vstd::set_lib::lemma_len_subset(t.map(f), vstd::set_lib::set_int_range(0, 0x1_0000_0000_0000_0000));
}

/// The error of checking whether member `c` has moved to a living owner at session
/// `t`: a failed lookup of it or of its owner, an element without an owner, or an
/// owner that does not exist; `None` when the check answers.
pub open spec fn moved_error<R: MembershipResolver>(res: R, c: u64, t: i32, dead: Set<u64>) -> Option<ResolveError> {
    match res.member_record(c, t) {
        None => Some(lookup_error(res, c, t)),
        Some(None) => None,
        Some(Some(x)) => if dead.contains(x.owner) {
            None
        } else if x.owner == 0 {
            Some(ResolveError::EmptyOwner { refno: c, sesno: t })
        } else {
            match res.member_record(x.owner, t) {
                None => Some(lookup_error(res, x.owner, t)),
                Some(None) => Some(ResolveError::MissingOwner { refno: c, owner: x.owner, sesno: t }),
                Some(Some(_o)) => None,
            }
        },
    }
}

/// The error of finding the member list a dead element is expanded from (see
/// `expansion`): a failed lookup, or an element that is missing at the base session
/// without being born inside the window.
pub open spec fn expand_error<R: MembershipResolver>(res: R, y: u64, base: i32, t: i32, born: bool) -> Option<ResolveError> {
    match res.member_record(y, base) {
        None => Some(lookup_error(res, y, base)),
        Some(Some(_b)) => None,
        Some(None) => if !born {
            Some(ResolveError::MissingAtBase { refno: y, sesno: base })
        } else {
            match res.member_record(y, t) {
                None => Some(lookup_error(res, y, t)),
                _ => None,
            }
        },
    }
}

/// `dead` is part of a deletion closure of `roots`: every member is a root or
/// descends, through lower ranks, from a dead element's expansion.
pub open spec fn partial_closure<R: MembershipResolver>(
    res: R,
    roots: Set<u64>,
    born: Set<u64>,
    base: i32,
    t: i32,
    dead: Set<u64>,
    rank: Map<u64, nat>,
) -> bool {
    &&& dead.finite()
    &&& rank.dom() == dead
    &&& forall|x: u64| #[trigger] dead.contains(x) ==> roots.contains(x) || dead_parent(res, born, base, t, dead, rank, x)
}

/// `e` is met while spreading the deletion of `roots`: for an element of a partial
/// deletion closure, finding its member list fails, or checking one of its members
/// that is not dead fails.
pub open spec fn expansion_failure<R: MembershipResolver>(res: R, roots: Set<u64>, born: Set<u64>, base: i32, t: i32, e: ResolveError) -> bool {
    exists|dead: Set<u64>, rank: Map<u64, nat>, y: u64|
        #![trigger partial_closure(res, roots, born, base, t, dead, rank), dead.contains(y)]
        partial_closure(res, roots, born, base, t, dead, rank) && dead.contains(y) && (expand_error(res, y, base, t, born.contains(y))
            == Some(e) || (expand_error(res, y, base, t, born.contains(y)) is None && expansion(res, y, base, t, born.contains(y)) is Some
            && exists|c: u64| expansion(res, y, base, t, born.contains(y))->0.contains(c) && !dead.contains(c) && #[trigger] moved_error(
            res,
            c,
            t,
            dead,
        ) == Some(e)))
}

proof fn lemma_partial_closure<R: MembershipResolver>(
    res: R,
    s0: Seq<u64>,
    born: Set<u64>,
    base: i32,
    t: i32,
    dead: Set<u64>,
    rank: Map<u64, nat>,
)
    requires
        dead.finite(),
        rank.dom() == dead,
        forall|x: u64| #[trigger] dead.contains(x) ==> s0.contains(x) || dead_parent(res, born, base, t, dead, rank, x),
    ensures
        partial_closure(res, s0.to_set(), born, base, t, dead, rank),
{
    assert forall|x: u64| #[trigger] dead.contains(x) implies s0.to_set().contains(x) || dead_parent(res, born, base, t, dead, rank, x) by {
        if s0.contains(x) {
            assert(s0.to_set().contains(x));
        }
    }
}

/// Queues each member of `children` that is not dead and has not moved to a
/// living owner at session `t`.
fn queue_children<R: MembershipResolver>(
    resolver: &mut R,
    children: &Vec<u64>,
    dead: &BTreeSet<u64>,
    queue: &mut Vec<u64>,
    t: i32,
) -> (r: Result<(), ResolveError>)
    ensures
        same_lookups(*final(resolver), *old(resolver)),
        final(queue)@.len() >= old(queue)@.len(),
        forall|k: int| 0 <= k < old(queue)@.len() ==> #[trigger] final(queue)@[k] == old(queue)@[k],
        forall|k: int| old(queue)@.len() <= k < final(queue)@.len() ==> children@.contains(#[trigger] final(queue)@[k])
            && !moved_live(*old(resolver), final(queue)@[k], t, dead@),
        r is Ok ==> forall|j: int| 0 <= j < children@.len() ==> dead@.contains(#[trigger] children@[j])
            || pending(final(queue)@, old(queue)@.len() as int, children@[j]) || target_member(*old(resolver), children@[j], t),
        r matches Err(e) ==> member_error(*old(resolver), e, t, t),
        r matches Err(e) ==> exists|j: int|
            0 <= j < children@.len() && !dead@.contains(#[trigger] children@[j]) && moved_error(*old(resolver), children@[j], t, dead@)
                == Some(e),
{
    broadcast use crate::order::group_key_order;

    let ghost r0 = *resolver;
    let ghost q0 = queue@;
    let mut ci: usize = 0;
    while ci < children.len()
        invariant
            ci <= children.len(),
            r0 == *old(resolver),
            q0 == old(queue)@,
            same_lookups(*resolver, r0),
            queue@.len() >= q0.len(),
            forall|k: int| 0 <= k < q0.len() ==> #[trigger] queue@[k] == q0[k],
            forall|k: int| q0.len() <= k < queue@.len() ==> children@.contains(#[trigger] queue@[k])
                && !moved_live(r0, queue@[k], t, dead@),
            forall|j: int| 0 <= j < ci ==> dead@.contains(#[trigger] children@[j]) || pending(queue@, q0.len() as int, children@[j])
                || target_member(r0, children@[j], t),
        decreases children.len() - ci,
    {
        let child = children[ci];
        let ghost qb = queue@;
        if !dead.contains(&child) {
            let moved = match resolver.element_at(child, t) {
                Err(e) => {
                    return Err(e);
                },
                Ok(None) => false,
                Ok(Some(tt)) => {
                    if dead.contains(&tt.owner) {
                        false
                    } else {
                        if tt.owner == 0 {
                            return Err(ResolveError::EmptyOwner { refno: child, sesno: t });
                        }
                        match resolver.element_at(tt.owner, t) {
                            Err(e) => {
                                return Err(e);
                            },
                            Ok(None) => {
                                return Err(ResolveError::MissingOwner { refno: child, owner: tt.owner, sesno: t });
                            },
                            Ok(Some(o)) => vec_contains(&o.children, child),
                        }
                    }
                },
            };
            assert(moved == moved_live(r0, child, t, dead@));
            if !moved {
                queue.push(child);
                proof {
                    assert(queue@[queue@.len() - 1] == child);
                    assert(children@[ci as int] == child);
                }
            }
        }
        proof {
            assert forall|j: int| 0 <= j < ci + 1 implies dead@.contains(#[trigger] children@[j]) || pending(queue@, q0.len() as int, children@[j])
                || target_member(r0, children@[j], t) by {
                if j < ci {
                    if pending(qb, q0.len() as int, children@[j]) {
                        let k = choose|k: int| q0.len() <= k < qb.len() && qb[k] == children@[j];
                        assert(queue@[k] == qb[k]);
                    }
                } else if !dead@.contains(child) && !target_member(r0, child, t) {
                    assert(queue@[queue@.len() - 1] == child);
                }
            }
            assert forall|k: int| 0 <= k < q0.len() implies #[trigger] queue@[k] == q0[k] by {
                assert(queue@[k] == qb[k]);
            }
            assert forall|k: int| q0.len() <= k < queue@.len() implies children@.contains(#[trigger] queue@[k])
                && !moved_live(r0, queue@[k], t, dead@) by {
                if k < qb.len() {
                    assert(queue@[k] == qb[k]);
                } else {
                    assert(queue@[k] == child);
                    assert(children@[ci as int] == child);
                }
            }
        }
        ci += 1;
    }
    Ok(())
}

/// Growing the dead set keeps every justification of a queued or dead element.
proof fn lemma_dead_grows<R: MembershipResolver>(
    res: R,
    born: Set<u64>,
    base: i32,
    t: i32,
    d1: Set<u64>,
    rank1: Map<u64, nat>,
    d2: Set<u64>,
    rank2: Map<u64, nat>,
)
    requires
        d1.subset_of(d2),
        forall|y: u64| #[trigger] d1.contains(y) ==> rank2[y] == rank1[y],
    ensures
        forall|x: u64| #[trigger] queued_child(res, born, base, t, d1, x) ==> queued_child(res, born, base, t, d2, x),
        forall|x: u64| d1.contains(x) && #[trigger] dead_parent(res, born, base, t, d1, rank1, x) ==> dead_parent(res, born, base, t, d2, rank2, x),
{
    assert forall|x: u64| #[trigger] queued_child(res, born, base, t, d1, x) implies queued_child(res, born, base, t, d2, x) by {
        let y = choose|y: u64| #[trigger] d1.contains(y) && (expansion(res, y, base, t, born.contains(y)) matches Some(cs)
            && cs.contains(x)) && !moved_live(res, x, t, d1);
        assert(d2.contains(y));
    }
    assert forall|x: u64| d1.contains(x) && #[trigger] dead_parent(res, born, base, t, d1, rank1, x) implies dead_parent(res, born, base, t, d2, rank2, x) by {
        let y = choose|y: u64| #[trigger] d1.contains(y) && rank1[y] < rank1[x] && (expansion(res, y, base, t, born.contains(y)) matches Some(cs)
            && cs.contains(x)) && !moved_live(res, x, t, d1);
        assert(d2.contains(y));
    }
}

/// Breadth-first expansion of the deletions queued in `start`: a taken element
/// becomes dead and its expansion's members that have not moved to a living owner
/// are queued after it.
fn expand_dead<R: MembershipResolver>(
    resolver: &mut R,
    start: Vec<u64>,
    born: &BTreeSet<u64>,
    base: i32,
    t: i32,
) -> (r: Result<(BTreeSet<u64>, Ghost<Map<u64, nat>>), ResolveError>)
    ensures
        same_lookups(*final(resolver), *old(resolver)),
        r matches Ok(p) ==> member_closure(*old(resolver), start@.to_set(), born@, base, t, p.0@, p.1@),
        r matches Err(e) ==> member_error(*old(resolver), e, base, t) || (e matches ResolveError::MissingAtBase { refno, sesno }
            && sesno == base && old(resolver).member_record(refno, base) == Some(None::<EleView>) && !born@.contains(refno)),
        r matches Err(e) ==> expansion_failure(*old(resolver), start@.to_set(), born@, base, t, e),
{
    broadcast use crate::order::group_key_order;

    let ghost r0 = *resolver;
    let ghost s0 = start@;
    let mut queue = start;
    let mut head: usize = 0;
    let mut dead: BTreeSet<u64> = BTreeSet::new();
    let ghost mut rank: Map<u64, nat> = Map::empty();
    loop
        invariant
            r0 == *old(resolver),
            s0 == start@,
            same_lookups(*resolver, r0),
            head <= queue@.len(),
            s0.len() <= queue@.len(),
            forall|k: int| 0 <= k < s0.len() ==> #[trigger] queue@[k] == s0[k],
            dead@.finite(),
            dead@.len() <= 0x1_0000_0000_0000_0000,
            rank.dom() == dead@,
            forall|k: int| 0 <= k < head ==> dead@.contains(#[trigger] queue@[k]),
            forall|k: int| s0.len() <= k < queue@.len() ==> #[trigger] queued_child(r0, born@, base, t, dead@, queue@[k]),
            forall|x: u64| #[trigger] dead@.contains(x) ==> s0.contains(x) || dead_parent(r0, born@, base, t, dead@, rank, x),
            forall|x: u64| #[trigger] dead@.contains(x) ==> rank[x] < dead@.len(),
            forall|x: u64| #[trigger] dead@.contains(x) ==> expand_error(r0, x, base, t, born@.contains(x)) is None,
            forall|y: u64, c: u64| #![trigger dead@.contains(y), expansion(r0, y, base, t, born@.contains(y))->0.contains(c)]
                dead@.contains(y) && expansion(r0, y, base, t, born@.contains(y)) is Some && expansion(r0, y, base, t, born@.contains(y))->0.contains(c)
                    ==> dead@.contains(c) || pending(queue@, head as int, c) || target_member(r0, c, t),
        ensures
            head == queue@.len(),
        decreases 0x1_0000_0000_0000_0000 - dead@.len(), queue@.len() - head,
    {
        if head >= queue.len() {
            break;
        }
        let x = queue[head];
        let ghost q_before = queue@;
        let ghost h_before = head as int;
        head += 1;
        if dead.contains(&x) {
            proof {
                assert forall|y: u64, c: u64| #![trigger dead@.contains(y), expansion(r0, y, base, t, born@.contains(y))->0.contains(c)]
                    dead@.contains(y) && expansion(r0, y, base, t, born@.contains(y)) is Some && expansion(r0, y, base, t, born@.contains(y))->0.contains(c)
                        implies dead@.contains(c) || pending(queue@, head as int, c) || target_member(r0, c, t) by {
                    if pending(q_before, h_before, c) && c != x {
                        let k = choose|k: int| h_before <= k < q_before.len() && q_before[k] == c;
                        assert(k != h_before);
                    }
                }
            }
            continue;
        }
        let ghost d_before = dead@;
        let ghost rank_before = rank;
        proof {
            lemma_u64_set_room(dead@, x);
            rank = rank.insert(x, dead@.len());
        }
        dead.insert(x);
        proof {
            lemma_dead_grows(r0, born@, base, t, d_before, rank_before, dead@, rank);
            assert(s0.contains(x) || queued_child(r0, born@, base, t, d_before, x)) by {
                if h_before < s0.len() {
                    assert(q_before[h_before] == s0[h_before]);
                }
            }
            if !s0.contains(x) {
                let y = choose|y: u64| #[trigger] d_before.contains(y) && (expansion(r0, y, base, t, born@.contains(y)) matches Some(cs)
                    && cs.contains(x)) && !moved_live(r0, x, t, d_before);
                assert(dead@.contains(y) && rank[y] < rank[x]);
                assert(dead_parent(r0, born@, base, t, dead@, rank, x));
            }
            assert forall|xx: u64| #[trigger] dead@.contains(xx) implies s0.contains(xx) || dead_parent(r0, born@, base, t, dead@, rank, xx) by {
                if xx != x {
                    assert(d_before.contains(xx));
                }
            }
            assert forall|k: int| s0.len() <= k < queue@.len() implies #[trigger] queued_child(r0, born@, base, t, dead@, queue@[k]) by {
                assert(queued_child(r0, born@, base, t, d_before, queue@[k]));
            }
        }
        let ghost born_x = born@.contains(x);
        proof {
            assert(rank.dom() =~= dead@);
            lemma_partial_closure(r0, s0, born@, base, t, dead@, rank);
            assert(dead@.contains(x));
        }
        let expand_from: EleData = match resolver.element_at(x, base) {
            Err(e) => {
                proof {
                    assert(expand_error(r0, x, base, t, born@.contains(x)) == Some(e));
                    assert(expansion_failure(r0, s0.to_set(), born@, base, t, e));
                }
                return Err(e);
            },
            Ok(Some(b)) => b,
            Ok(None) => {
                if !born.contains(&x) {
                    proof {
                        assert(expand_error(r0, x, base, t, born@.contains(x)) == Some(ResolveError::MissingAtBase { refno: x, sesno: base }));
                        assert(expansion_failure(r0, s0.to_set(), born@, base, t, ResolveError::MissingAtBase { refno: x, sesno: base }));
                    }
                    return Err(ResolveError::MissingAtBase { refno: x, sesno: base });
                }
                match resolver.element_at(x, t) {
                    Err(e) => {
                        proof {
                            assert(expand_error(r0, x, base, t, born@.contains(x)) == Some(e));
                            assert(expansion_failure(r0, s0.to_set(), born@, base, t, e));
                        }
                        return Err(e);
                    },
                    Ok(None) => {
                        proof {
                            assert(expansion(r0, x, base, t, born@.contains(x)) is None);
                            assert forall|y: u64, c: u64| #![trigger dead@.contains(y), expansion(r0, y, base, t, born@.contains(y))->0.contains(c)]
                                dead@.contains(y) && expansion(r0, y, base, t, born@.contains(y)) is Some && expansion(r0, y, base, t, born@.contains(y))->0.contains(c)
                                    implies dead@.contains(c) || pending(queue@, head as int, c) || target_member(r0, c, t) by {
                                if y != x {
                                    assert(d_before.contains(y));
                                    if pending(q_before, h_before, c) && c != x {
                                        let k = choose|k: int| h_before <= k < q_before.len() && q_before[k] == c;
                                        assert(k != h_before);
                                    }
                                }
                            }
                        }
                        continue;
                    },
                    Ok(Some(e)) => e,
                }
            },
        };
        proof {
            assert(expansion(r0, x, base, t, born@.contains(x)) == Some(expand_from.children@));
        }
        let ghost q_mid = queue@;
        match queue_children(resolver, &expand_from.children, &dead, &mut queue, t) {
            Err(e) => {
                proof {
                    assert(expand_error(r0, x, base, t, born@.contains(x)) is None);
                    let j = choose|j: int|
                        0 <= j < expand_from.children@.len() && !dead@.contains(#[trigger] expand_from.children@[j]) && moved_error(
                            r0,
                            expand_from.children@[j],
                            t,
                            dead@,
                        ) == Some(e);
                    assert(expansion(r0, x, base, t, born@.contains(x))->0.contains(expand_from.children@[j]));
                    assert(expansion_failure(r0, s0.to_set(), born@, base, t, e));
                }
                return Err(e);
            },
            Ok(()) => {},
        }
        proof {
            assert forall|k: int| 0 <= k < s0.len() implies #[trigger] queue@[k] == s0[k] by {
                assert(queue@[k] == q_mid[k]);
            }
            assert forall|k: int| 0 <= k < head implies dead@.contains(#[trigger] queue@[k]) by {
                assert(queue@[k] == q_mid[k]);
                if k < h_before {
                    assert(d_before.contains(q_before[k]));
                }
            }
            assert forall|k: int| s0.len() <= k < queue@.len() implies #[trigger] queued_child(r0, born@, base, t, dead@, queue@[k]) by {
                if k < q_mid.len() {
                    assert(queue@[k] == q_mid[k]);
                } else {
                    assert(expand_from.children@.contains(queue@[k]));
                    assert(dead@.contains(x));
                }
            }
            assert forall|y: u64, c: u64| #![trigger dead@.contains(y), expansion(r0, y, base, t, born@.contains(y))->0.contains(c)]
                dead@.contains(y) && expansion(r0, y, base, t, born@.contains(y)) is Some && expansion(r0, y, base, t, born@.contains(y))->0.contains(c)
                    implies dead@.contains(c) || pending(queue@, head as int, c) || target_member(r0, c, t) by {
                if y != x {
                    assert(d_before.contains(y));
                    if pending(q_before, h_before, c) && c != x {
                        let k = choose|k: int| h_before <= k < q_before.len() && q_before[k] == c;
                        assert(k != h_before);
                        assert(queue@[k] == q_mid[k]);
                    }
                } else {
                    let j = choose|j: int| 0 <= j < expand_from.children@.len() && expand_from.children@[j] == c;
                    if pending(queue@, q_mid.len() as int, expand_from.children@[j]) {
                        let k = choose|k: int| q_mid.len() <= k < queue@.len() && queue@[k] == c;
                        assert(head <= k);
                    }
                }
            }
        }
    }
    proof {
        assert forall|x: u64| s0.to_set().contains(x) implies dead@.contains(x) by {
            let k = choose|k: int| 0 <= k < s0.len() && s0[k] == x;
            assert(queue@[k] == s0[k]);
        }
        assert forall|x: u64| #[trigger] dead@.contains(x) implies s0.to_set().contains(x) || dead_parent(r0, born@, base, t, dead@, rank, x) by {
        }
    }
    Ok((dead, Ghost(rank)))
}

/// The two products of membership reconciliation.
#[derive(Debug, Clone, Copy, PartialEq, Eq, Structural)]
pub struct MemberReconciliation {
    /// Deletions that the two-root diff did not find and the target membership adds.
    pub membership_deleted: usize,
    /// Additions dropped whole because the element was born and deleted inside the window.
    pub dropped_phantom_adds: usize,
}

impl Default for MemberReconciliation {
    fn default() -> (r: MemberReconciliation)
        ensures
            r.membership_deleted == 0,
            r.dropped_phantom_adds == 0,
    {
        MemberReconciliation { membership_deleted: 0, dropped_phantom_adds: 0 }
    }
}

/// A deletion candidate: an element its parent dropped and no parent took up, an
/// element the window deletes, or an addition its target owner does not list.
pub open spec fn root_in<R: MembershipResolver>(res: R, w: Map<u32, Vec<EleOperationData>>, r: u64, t: i32) -> bool {
    ||| removed_in(w, r) && !attached_in(w, r)
    ||| deleted_in(w, r)
    ||| orphan_in(res, w, r, t)
}

pub open spec fn has_root<R: MembershipResolver>(res: R, w: Map<u32, Vec<EleOperationData>>, t: i32) -> bool {
    exists|x: u64| #[trigger] root_in(res, w, x, t)
}

/// A candidate that is dead for certain: deleted by the window, an orphaned
/// addition, or dropped by its parent and not a member of its owner at the target.
pub open spec fn queued_root<R: MembershipResolver>(res: R, w: Map<u32, Vec<EleOperationData>>, r: u64, t: i32) -> bool {
    ||| deleted_in(w, r)
    ||| orphan_in(res, w, r, t)
    ||| removed_in(w, r) && !attached_in(w, r) && !target_member(res, r, t)
}

/// The operations of `s` on elements that are not dead, in order.
pub open spec fn keep_live(s: Seq<EleOperationData>, dead: Set<u64>) -> Seq<EleOperationData>
    decreases s.len(),
{
    if s.len() == 0 {
        s
    } else if dead.contains(s.last().refno) {
        keep_live(s.drop_last(), dead)
    } else {
        keep_live(s.drop_last(), dead).push(s.last())
    }
}

/// One `Deleted` operation on session `t` per element of `refnos`, in increasing order.
pub open spec fn deletion_run(d: Seq<EleOperationData>, refnos: Set<u64>, t: u32) -> bool {
    &&& d.len() == refnos.len()
    &&& forall|i: int| 0 <= i < d.len() ==> refnos.contains((#[trigger] d[i]).refno) && d[i].sesno == t && d[i].detail
        == EleOperationDetail::Deleted
    &&& forall|x: u64| #[trigger] refnos.contains(x) ==> exists|i: int| 0 <= i < d.len() && d[i].refno == x
    &&& forall|i: int, j: int| 0 <= i < j < d.len() ==> d[i].refno < d[j].refno
}

/// Every list loses the operations on dead elements; session `t` then gains the
/// deletions of the dead elements not born inside the window.
pub open spec fn reconciled_window(
    old_w: Map<u32, Vec<EleOperationData>>,
    new_w: Map<u32, Vec<EleOperationData>>,
    dead: Set<u64>,
    born: Set<u64>,
    t: u32,
) -> bool {
    &&& forall|s: u32| s != t ==> (#[trigger] new_w.contains_key(s) == old_w.contains_key(s))
    &&& forall|s: u32| s != t && old_w.contains_key(s) ==> #[trigger] new_w[s]@ == keep_live(old_w[s]@, dead)
    &&& new_w.contains_key(t)
    &&& exists|d: Seq<EleOperationData>| #[trigger] deletion_run(d, dead.difference(born), t) && new_w[t]@ == keep_live(
        if old_w.contains_key(t) {
            old_w[t]@
        } else {
            Seq::empty()
        },
        dead,
    ) + d
}

/// What a successful reconciliation did: `dead` is the deletion closure of the
/// certain candidates; nothing changed when it is empty; otherwise the window is
/// rewritten and the counts are those of the dead elements outside the window's own
/// deletions and births, and of the dead elements born in the window.
pub open spec fn reconciliation_holds<R: MembershipResolver>(
    res: R,
    old_w: Map<u32, Vec<EleOperationData>>,
    new_w: Map<u32, Vec<EleOperationData>>,
    base: i32,
    t: i32,
    dead: Set<u64>,
    rank: Map<u64, nat>,
    rec: MemberReconciliation,
) -> bool {
    let born = Set::new(|x: u64| born_in(old_w, x));
    let existing = Set::new(|x: u64| deleted_in(old_w, x));
    &&& member_closure(res, Set::new(|x: u64| queued_root(res, old_w, x, t)), born, base, t, dead, rank)
    &&& dead.is_empty() ==> new_w == old_w && rec.membership_deleted == 0 && rec.dropped_phantom_adds == 0
    &&& !dead.is_empty() ==> {
        &&& t >= 0
        &&& reconciled_window(old_w, new_w, dead, born, t as u32)
        &&& rec.membership_deleted == dead.difference(born).difference(existing).len()
        &&& rec.dropped_phantom_adds == dead.intersect(born).len()
    }
}

/// Every operation that `keep_live` keeps is an operation of the list on an element
/// that is not dead.
proof fn lemma_keep_live_members(s: Seq<EleOperationData>, dead: Set<u64>)
    ensures
        forall|i: int| 0 <= i < keep_live(s, dead).len() ==> !dead.contains((#[trigger] keep_live(s, dead)[i]).refno)
            && s.contains(keep_live(s, dead)[i]),
    decreases s.len(),
{
    if s.len() > 0 {
        lemma_keep_live_members(s.drop_last(), dead);
        let k = keep_live(s, dead);
        let k0 = keep_live(s.drop_last(), dead);
        assert forall|i: int| 0 <= i < k.len() implies !dead.contains((#[trigger] k[i]).refno) && s.contains(k[i]) by {
            if i < k0.len() {
                assert(k[i] == k0[i]);
                let j = choose|j: int| 0 <= j < s.drop_last().len() && s.drop_last()[j] == k0[i];
                assert(s[j] == k0[i]);
            } else {
                assert(k[i] == s.last());
                assert(s[s.len() - 1] == s.last());
            }
        }
    }
}

/// With no dead element every operation is kept.
proof fn lemma_keep_live_none(s: Seq<EleOperationData>, dead: Set<u64>)
    requires
        dead.is_empty(),
    ensures
        keep_live(s, dead) == s,
    decreases s.len(),
{
    if s.len() > 0 {
        lemma_keep_live_none(s.drop_last(), dead);
        assert(s.drop_last().push(s.last()) =~= s);
    }
}

/// Membership reconciliation rewrites the window so that an element found dead has
/// at most one operation left, a `Deleted` on the target session: exactly one when
/// the element was not born inside the window, none when it was (its addition is
/// dropped and no deletion is made up for it). Operations on elements left alive
/// are kept in order under their sessions.
pub proof fn law_reconciliation<R: MembershipResolver>(
    res: R,
    old_w: Map<u32, Vec<EleOperationData>>,
    new_w: Map<u32, Vec<EleOperationData>>,
    base: i32,
    t: i32,
    dead: Set<u64>,
    rank: Map<u64, nat>,
    rec: MemberReconciliation,
)
    requires
        reconciliation_holds(res, old_w, new_w, base, t, dead, rank, rec),
    ensures
        forall|s: u32, j: int| #[trigger] in_window(new_w, s, j) && dead.contains(new_w[s]@[j].refno) ==> t >= 0 && s == t as u32
            && new_w[s]@[j].detail == EleOperationDetail::Deleted && !born_in(old_w, new_w[s]@[j].refno),
        forall|x: u64| #[trigger] dead.contains(x) && !born_in(old_w, x) ==> exists|j: int| #[trigger] in_window(new_w, t as u32, j)
            && new_w[t as u32]@[j].refno == x,
        forall|s1: u32, j1: int, s2: u32, j2: int| #[trigger] in_window(new_w, s1, j1) && #[trigger] in_window(new_w, s2, j2)
            && new_w[s1]@[j1].refno == new_w[s2]@[j2].refno && dead.contains(new_w[s1]@[j1].refno) ==> s1 == s2 && j1 == j2,
        forall|s: u32| s != t && old_w.contains_key(s) ==> #[trigger] new_w[s]@ == keep_live(old_w[s]@, dead),
{
    let born = Set::new(|x: u64| born_in(old_w, x));
    if dead.is_empty() {
        assert forall|s: u32| s != t && old_w.contains_key(s) implies #[trigger] new_w[s]@ == keep_live(old_w[s]@, dead) by {
            lemma_keep_live_none(old_w[s]@, dead);
        }
        return;
    }
    let tu = t as u32;
    let d = choose|d: Seq<EleOperationData>| #[trigger] deletion_run(d, dead.difference(born), tu) && new_w[tu]@ == keep_live(
        if old_w.contains_key(tu) {
            old_w[tu]@
        } else {
            Seq::empty()
        },
        dead,
    ) + d;
    let old_t: Seq<EleOperationData> = if old_w.contains_key(tu) {
        old_w[tu]@
    } else {
        Seq::empty()
    };
    let live = keep_live(old_t, dead);
    lemma_keep_live_members(old_t, dead);
    assert forall|s: u32| s != t && old_w.contains_key(s) implies #[trigger] new_w[s]@ == keep_live(old_w[s]@, dead) by {
        assert(s != tu);
    }
    assert forall|s: u32, j: int| #[trigger] in_window(new_w, s, j) && dead.contains(new_w[s]@[j].refno) implies t >= 0 && s == t as u32
        && new_w[s]@[j].detail == EleOperationDetail::Deleted && !born_in(old_w, new_w[s]@[j].refno) by {
        if s != tu {
            lemma_keep_live_members(old_w[s]@, dead);
            assert(new_w[s]@[j] == keep_live(old_w[s]@, dead)[j]);
        } else if j < live.len() {
            assert(new_w[s]@[j] == live[j]);
        } else {
            assert(new_w[s]@[j] == d[j - live.len()]);
            assert(dead.difference(born).contains(d[j - live.len()].refno));
        }
    }
    assert forall|x: u64| #[trigger] dead.contains(x) && !born_in(old_w, x) implies exists|j: int| #[trigger] in_window(new_w, t as u32, j)
        && new_w[t as u32]@[j].refno == x by {
        assert(dead.difference(born).contains(x));
        let k = choose|k: int| 0 <= k < d.len() && d[k].refno == x;
        assert(new_w[tu]@[live.len() + k] == d[k]);
        assert(in_window(new_w, tu, live.len() + k));
    }
    assert forall|s1: u32, j1: int, s2: u32, j2: int| #[trigger] in_window(new_w, s1, j1) && #[trigger] in_window(new_w, s2, j2)
        && new_w[s1]@[j1].refno == new_w[s2]@[j2].refno && dead.contains(new_w[s1]@[j1].refno) implies s1 == s2 && j1 == j2 by {
        let x = new_w[s1]@[j1].refno;
        assert(s1 == tu && s2 == tu);
        assert(j1 >= live.len()) by {
            if j1 < live.len() {
                assert(new_w[tu]@[j1] == live[j1]);
            }
        }
        assert(j2 >= live.len()) by {
            if j2 < live.len() {
                assert(new_w[tu]@[j2] == live[j2]);
            }
        }
        let k1 = j1 - live.len();
        let k2 = j2 - live.len();
        assert(new_w[tu]@[j1] == d[k1]);
        assert(new_w[tu]@[j2] == d[k2]);
        if k1 < k2 {
            assert(d[k1].refno < d[k2].refno);
        } else if k2 < k1 {
            assert(d[k2].refno < d[k1].refno);
        }
    }
}

/// A list whose operations name distinct reference numbers keeps them distinct
/// after `keep_live`.
proof fn lemma_keep_live_distinct(s: Seq<EleOperationData>, dead: Set<u64>)
    requires
        forall|i: int, j: int| 0 <= i < j < s.len() ==> #[trigger] s[i].refno != #[trigger] s[j].refno,
    ensures
        forall|i: int, j: int| 0 <= i < j < keep_live(s, dead).len() ==> #[trigger] keep_live(s, dead)[i].refno
            != #[trigger] keep_live(s, dead)[j].refno,
    decreases s.len(),
{
    if s.len() > 0 {
        let s0 = s.drop_last();
        lemma_keep_live_distinct(s0, dead);
        lemma_keep_live_members(s0, dead);
        let k = keep_live(s, dead);
        let k0 = keep_live(s0, dead);
        if !dead.contains(s.last().refno) {
            assert forall|i: int, j: int| 0 <= i < j < k.len() implies #[trigger] k[i].refno != #[trigger] k[j].refno by {
                if j < k0.len() {
                    assert(k[i] == k0[i] && k[j] == k0[j]);
                } else {
                    assert(k[j] == s.last());
                    assert(k[i] == k0[i]);
                    let x = choose|x: int| 0 <= x < s0.len() && s0[x] == k0[i];
                    assert(s[x] == s0[x]);
                    assert(s[s.len() - 1] == s.last());
                }
            }
        }
    }
}

/// Reconciliation keeps every operation under its own session and one operation
/// per reference number.
pub proof fn law_reconciliation_keeps_one_op<R: MembershipResolver>(
    res: R,
    old_w: Map<u32, Vec<EleOperationData>>,
    new_w: Map<u32, Vec<EleOperationData>>,
    base: i32,
    t: i32,
    dead: Set<u64>,
    rank: Map<u64, nat>,
    rec: MemberReconciliation,
)
    requires
        reconciliation_holds(res, old_w, new_w, base, t, dead, rank, rec),
        keyed_by_session(old_w),
        one_op_per_refno(old_w),
    ensures
        keyed_by_session(new_w),
        one_op_per_refno(new_w),
{
    if dead.is_empty() {
        return;
    }
    law_reconciliation(res, old_w, new_w, base, t, dead, rank, rec);
    let born = Set::new(|x: u64| born_in(old_w, x));
    let tu = t as u32;
    let d = choose|d: Seq<EleOperationData>| #[trigger] deletion_run(d, dead.difference(born), tu) && new_w[tu]@ == keep_live(
        if old_w.contains_key(tu) {
            old_w[tu]@
        } else {
            Seq::empty()
        },
        dead,
    ) + d;
    let old_t: Seq<EleOperationData> = if old_w.contains_key(tu) {
        old_w[tu]@
    } else {
        Seq::empty()
    };
    let live = keep_live(old_t, dead);
    lemma_keep_live_members(old_t, dead);
    // Every live operation of the new window is an operation of the old window at the same session.
    assert forall|s: u32, j: int| #[trigger] in_window(new_w, s, j) && !dead.contains(new_w[s]@[j].refno) implies exists|k: int|
        in_window(old_w, s, k) && old_w[s]@[k] == new_w[s]@[j] by {
        if s != tu {
            lemma_keep_live_members(old_w[s]@, dead);
            assert(new_w[s]@[j] == keep_live(old_w[s]@, dead)[j]);
            let k = choose|k: int| 0 <= k < old_w[s]@.len() && old_w[s]@[k] == keep_live(old_w[s]@, dead)[j];
            assert(in_window(old_w, s, k));
        } else {
            if j >= live.len() {
                assert(new_w[s]@[j] == d[j - live.len()]);
                assert(dead.difference(born).contains(d[j - live.len()].refno));
            }
            assert(new_w[s]@[j] == live[j]);
            let k = choose|k: int| 0 <= k < old_t.len() && old_t[k] == live[j];
            assert(in_window(old_w, s, k));
        }
    }
    assert forall|s: u32, j: int| #[trigger] in_window(new_w, s, j) implies new_w[s]@[j].sesno == s by {
        if dead.contains(new_w[s]@[j].refno) {
            assert(s == tu);
            if j < live.len() {
                assert(new_w[s]@[j] == live[j]);
            } else {
                assert(new_w[s]@[j] == d[j - live.len()]);
            }
        } else {
            let k = choose|k: int| in_window(old_w, s, k) && old_w[s]@[k] == new_w[s]@[j];
        }
    }
    assert forall|s1: u32, j1: int, s2: u32, j2: int| #[trigger] in_window(new_w, s1, j1) && #[trigger] in_window(new_w, s2, j2)
        && new_w[s1]@[j1].refno == new_w[s2]@[j2].refno implies s1 == s2 && j1 == j2 by {
        let x = new_w[s1]@[j1].refno;
        if !dead.contains(x) {
            let k1 = choose|k: int| in_window(old_w, s1, k) && old_w[s1]@[k] == new_w[s1]@[j1];
            let k2 = choose|k: int| in_window(old_w, s2, k) && old_w[s2]@[k] == new_w[s2]@[j2];
            assert(s1 == s2 && k1 == k2);
            if j1 != j2 {
                let l: Seq<EleOperationData> = if s1 == tu {
                    live
                } else {
                    keep_live(old_w[s1]@, dead)
                };
                let base_l: Seq<EleOperationData> = if s1 == tu {
                    old_t
                } else {
                    old_w[s1]@
                };
                assert forall|i: int, j: int| 0 <= i < j < base_l.len() implies #[trigger] base_l[i].refno != #[trigger] base_l[j].refno by {
                    assert(in_window(old_w, s1, i) && in_window(old_w, s1, j));
                }
                lemma_keep_live_distinct(base_l, dead);
                assert(j1 < l.len() && j2 < l.len()) by {
                    if s1 == tu {
                        if j1 >= live.len() {
                            assert(new_w[tu]@[j1] == d[j1 - live.len()]);
                            assert(dead.difference(born).contains(d[j1 - live.len()].refno));
                        }
                        if j2 >= live.len() {
                            assert(new_w[tu]@[j2] == d[j2 - live.len()]);
                            assert(dead.difference(born).contains(d[j2 - live.len()].refno));
                        }
                    }
                }
                assert(new_w[s1]@[j1] == l[j1] && new_w[s2]@[j2] == l[j2]);
                if j1 < j2 {
                    assert(l[j1].refno != l[j2].refno);
                } else {
                    assert(l[j2].refno != l[j1].refno);
                }
            }
        }
    }
}

/// Some deletion closure and ranking make the reconciliation hold.
pub open spec fn reconciled_by_closure<R: MembershipResolver>(
    res: R,
    old_w: Map<u32, Vec<EleOperationData>>,
    new_w: Map<u32, Vec<EleOperationData>>,
    base: i32,
    t: i32,
    rec: MemberReconciliation,
) -> bool {
    exists|dead: Set<u64>, rank: Map<u64, nat>| #[trigger] reconciliation_holds(res, old_w, new_w, base, t, dead, rank, rec)
}

/// An error of reconciliation that the lookups or the inputs justify.
pub open spec fn reconcile_error<R: MembershipResolver>(
    res: R,
    w: Map<u32, Vec<EleOperationData>>,
    base: Option<i32>,
    t: i32,
    e: ResolveError,
) -> bool {
    ||| member_error(res, e, match base {
        Some(b) => b,
        None => t,
    }, t)
    ||| e == ResolveError::NoBaseSession && base is None && has_root(res, w, t)
    ||| e matches ResolveError::MissingAtBase { refno, sesno } && base == Some(sesno) && res.member_record(refno, sesno) == Some(
        None::<EleView>,
    ) && !born_in(w, refno)
    ||| e == ResolveError::InvalidSession { sesno: t } && t < 0
}

/// The keys of a window in increasing order.
fn window_keys(w: &BTreeMap<u32, Vec<EleOperationData>>) -> (r: Vec<u32>)
    ensures
        forall|k: int| 0 <= k < r@.len() ==> w@.contains_key(#[trigger] r@[k]),
        forall|s: u32| #[trigger] w@.contains_key(s) ==> r@.contains(s),
        forall|i: int, j: int| 0 <= i < j < r@.len() ==> r@[i] != r@[j],
{
    broadcast use crate::order::group_key_order;

    let mut r: Vec<u32> = Vec::new();
    let iter = w.iter();
    let ghost s0 = iter.remaining();
    for (k, list) in it: iter
        invariant
            it.seq() == s0,
            s0.no_duplicates(),
            forall|i: int| 0 <= i < s0.len() ==> w@.contains_key(*(#[trigger] s0[i]).0) && w@[*s0[i].0] == *s0[i].1,
            r@.len() == it.index(),
            forall|i: int| 0 <= i < it.index() ==> #[trigger] r@[i] == *s0[i].0,
    {
        r.push(*k);
    }
    proof {
        assert forall|s: u32| #[trigger] w@.contains_key(s) implies r@.contains(s) by {
            assert(s0.contains((&s, &w@[s])));
            let i = choose|i: int| 0 <= i < s0.len() && s0[i] == (&s, &w@[s]);
            assert(r@[i] == s);
        }
        assert forall|i: int, j: int| 0 <= i < j < r@.len() implies r@[i] != r@[j] by {
            assert(s0[i] != s0[j]);
            assert(w@[*s0[i].0] == *s0[i].1);
        }
    }
    r
}

/// Removes the operations on dead elements, keeping the order of the rest.
fn drop_dead(list: Vec<EleOperationData>, dead: &BTreeSet<u64>) -> (r: Vec<EleOperationData>)
    ensures
        r@ == keep_live(list@, dead@),
{
    broadcast use crate::order::group_key_order;

    let ghost orig = list@;
    let mut list = list;
    let mut i: usize = 0;
    let ghost mut j: int = 0;
    proof {
        assert(orig.take(0) =~= Seq::<EleOperationData>::empty());
        assert(orig.skip(0) =~= orig);
        assert(list@ =~= keep_live(orig.take(0), dead@) + orig.skip(0));
    }
    while i < list.len()
        invariant
            0 <= j <= orig.len(),
            list@ == keep_live(orig.take(j), dead@) + orig.skip(j),
            i == keep_live(orig.take(j), dead@).len(),
        decreases list.len() - i,
    {
        let ghost kl = keep_live(orig.take(j), dead@);
        proof {
            assert(j < orig.len());
            assert(list@[i as int] == orig[j]);
            assert(orig.take(j + 1).drop_last() =~= orig.take(j));
            assert(orig.take(j + 1).last() == orig[j]);
        }
        if dead.contains(&list[i].refno) {
            let _gone = list.remove(i);
            proof {
                assert(list@ =~= kl + orig.skip(j + 1));
            }
        } else {
            i += 1;
            proof {
                assert(list@ =~= kl.push(orig[j]) + orig.skip(j + 1));
            }
        }
        proof {
            j = j + 1;
        }
    }
    proof {
        assert(j == orig.len());
        assert(orig.take(j) =~= orig);
        assert(list@ =~= keep_live(orig, dead@));
    }
    list
}

/// Removes the operations on dead elements from every list of the window.
fn drop_dead_everywhere(window: &mut BTreeMap<u32, Vec<EleOperationData>>, dead: &BTreeSet<u64>)
    ensures
        forall|s: u32| #[trigger] final(window)@.contains_key(s) == old(window)@.contains_key(s),
        forall|s: u32| old(window)@.contains_key(s) ==> #[trigger] final(window)@[s]@ == keep_live(old(window)@[s]@, dead@),
{
    broadcast use crate::order::group_key_order;

    let keys = window_keys(window);
    let ghost w0 = window@;
    let mut i: usize = 0;
    while i < keys.len()
        invariant
            i <= keys.len(),
            w0 == old(window)@,
            forall|k: int| 0 <= k < keys@.len() ==> w0.contains_key(#[trigger] keys@[k]),
            forall|a: int, b: int| 0 <= a < b < keys@.len() ==> keys@[a] != keys@[b],
            forall|s: u32| #[trigger] window@.contains_key(s) == w0.contains_key(s),
            forall|s: u32| w0.contains_key(s) && keys@.take(i as int).contains(s) ==> #[trigger] window@[s]@ == keep_live(w0[s]@, dead@),
            forall|s: u32| w0.contains_key(s) && !keys@.take(i as int).contains(s) ==> #[trigger] window@[s] == w0[s],
        decreases keys.len() - i,
    {
        let k = keys[i];
        let ghost t0 = keys@.take(i as int);
        let ghost t1 = keys@.take(i + 1);
        proof {
            assert(t1 == t0.push(k));
            assert forall|y: u32| t1.contains(y) <==> (t0.contains(y) || y == k) by {
                if t1.contains(y) {
                    let a = choose|a: int| 0 <= a < t1.len() && t1[a] == y;
                    if a < t0.len() {
                        assert(t0[a] == y);
                    }
                }
                if t0.contains(y) {
                    let a = choose|a: int| 0 <= a < t0.len() && t0[a] == y;
                    assert(t1[a] == y);
                }
                if y == k {
                    assert(t1[t0.len() as int] == y);
                }
            }
            assert(!t0.contains(k)) by {
                if t0.contains(k) {
                    let a = choose|a: int| 0 <= a < t0.len() && t0[a] == k;
                    assert(keys@[a] == keys@[i as int]);
                }
            }
            assert(w0.contains_key(keys@[i as int]));
        }
        let list = match window.remove(&k) {
            Some(l) => l,
            None => Vec::new(),
        };
        let kept = drop_dead(list, dead);
        window.insert(k, kept);
        i += 1;
    }
    proof {
        assert forall|s: u32| w0.contains_key(s) implies keys@.take(i as int).contains(s) by {
            assert(keys@.take(i as int) == keys@);
        }
    }
}

/// Appends one `Deleted` operation on session `target` per element of `dead`
/// (strictly increasing) that was not born in the window, and counts the appended
/// ones the window did not already delete, and the born ones.
#[verifier::rlimit(40)]
fn emit_deletions(
    list: &mut Vec<EleOperationData>,
    dead: &Vec<u64>,
    born: &BTreeSet<u64>,
    existing: &BTreeSet<u64>,
    target: u32,
) -> (r: (usize, usize))
    requires
        forall|a: int, b: int| 0 <= a < b < dead@.len() ==> dead@[a] < dead@[b],
    ensures
        exists|d: Seq<EleOperationData>| #[trigger] deletion_run(d, dead@.to_set().difference(born@), target) && final(list)@ == old(list)@ + d,
        r.0 == dead@.to_set().difference(born@).difference(existing@).len(),
        r.1 == dead@.to_set().intersect(born@).len(),
{
    broadcast use crate::order::group_key_order;

    let ghost l0 = list@;
    let mut membership_deleted: usize = 0;
    let mut dropped: usize = 0;
    let ghost mut dels: Seq<EleOperationData> = Seq::empty();
    let ghost mut md: Seq<u64> = Seq::empty();
    let ghost mut dr: Seq<u64> = Seq::empty();
    let mut i: usize = 0;
    while i < dead.len()
        invariant
            i <= dead.len(),
            forall|a: int, b: int| 0 <= a < b < dead@.len() ==> dead@[a] < dead@[b],
            list@ == l0 + dels,
            dels.len() + dr.len() == i,
            md.len() <= dels.len(),
            membership_deleted == md.len(),
            dropped == dr.len(),
            forall|k: int| 0 <= k < dels.len() ==> dead@.take(i as int).contains((#[trigger] dels[k]).refno) && !born@.contains(dels[k].refno)
                && dels[k].sesno == target && dels[k].detail == EleOperationDetail::Deleted,
            forall|a: int, b: int| 0 <= a < b < dels.len() ==> dels[a].refno < dels[b].refno,
            forall|k: int| 0 <= k < i && !born@.contains(#[trigger] dead@[k]) ==> exists|q: int| 0 <= q < dels.len() && dels[q].refno == dead@[k],
            forall|k: int| 0 <= k < md.len() ==> dead@.take(i as int).contains(#[trigger] md[k]) && !born@.contains(md[k]) && !existing@.contains(md[k]),
            forall|a: int, b: int| 0 <= a < b < md.len() ==> md[a] < md[b],
            forall|k: int| 0 <= k < i && !born@.contains(#[trigger] dead@[k]) && !existing@.contains(dead@[k]) ==> md.contains(dead@[k]),
            forall|k: int| 0 <= k < dr.len() ==> dead@.take(i as int).contains(#[trigger] dr[k]) && born@.contains(dr[k]),
            forall|a: int, b: int| 0 <= a < b < dr.len() ==> dr[a] < dr[b],
            forall|k: int| 0 <= k < i && born@.contains(#[trigger] dead@[k]) ==> dr.contains(dead@[k]),
        decreases dead.len() - i,
    {
        let x = dead[i];
        let ghost t0 = dead@.take(i as int);
        let ghost t1 = dead@.take(i + 1);
        proof {
            assert(t1 == t0.push(x));
            assert forall|y: u64| t0.contains(y) implies y < x && t1.contains(y) by {
                let a = choose|a: int| 0 <= a < t0.len() && t0[a] == y;
                assert(dead@[a] == y);
                assert(t1[a] == y);
            }
            assert(t1[i as int] == x);
        }
        let ghost dels0 = dels;
        let ghost md0 = md;
        let ghost dr0 = dr;
        if born.contains(&x) {
            dropped = dropped + 1;
            proof {
                dr = dr.push(x);
            }
        } else {
            list.push(EleOperationData::new(x, target, EleOperationDetail::Deleted));
            proof {
                dels = dels.push(EleOperationData { refno: x, sesno: target, detail: EleOperationDetail::Deleted });
            }
            if !existing.contains(&x) {
                membership_deleted = membership_deleted + 1;
                proof {
                    md = md.push(x);
                }
            }
        }
        proof {
            assert forall|k: int| 0 <= k < i + 1 && !born@.contains(#[trigger] dead@[k]) implies exists|q: int| 0 <= q < dels.len() && dels[q].refno == dead@[k] by {
                if k < i {
                    let q = choose|q: int| 0 <= q < dels0.len() && dels0[q].refno == dead@[k];
                    assert(dels[q] == dels0[q]);
                } else {
                    assert(dels[dels.len() - 1].refno == x);
                }
            }
            assert forall|k: int| 0 <= k < i + 1 && !born@.contains(#[trigger] dead@[k]) && !existing@.contains(dead@[k]) implies md.contains(dead@[k]) by {
                if k < i {
                    let q = choose|q: int| 0 <= q < md0.len() && md0[q] == dead@[k];
                    assert(md[q] == md0[q]);
                } else {
                    assert(md[md.len() - 1] == x);
                }
            }
            assert forall|k: int| 0 <= k < i + 1 && born@.contains(#[trigger] dead@[k]) implies dr.contains(dead@[k]) by {
                if k < i {
                    let q = choose|q: int| 0 <= q < dr0.len() && dr0[q] == dead@[k];
                    assert(dr[q] == dr0[q]);
                } else {
                    assert(dr[dr.len() - 1] == x);
                }
            }
            assert forall|k: int| 0 <= k < dels.len() implies t1.contains((#[trigger] dels[k]).refno) && !born@.contains(dels[k].refno)
                && dels[k].sesno == target && dels[k].detail == EleOperationDetail::Deleted by {
                if k < dels0.len() {
                    assert(dels[k] == dels0[k]);
                }
            }
            assert forall|k: int| 0 <= k < md.len() implies t1.contains(#[trigger] md[k]) && !born@.contains(md[k]) && !existing@.contains(md[k]) by {
                if k < md0.len() {
                    assert(md[k] == md0[k]);
                }
            }
            assert forall|k: int| 0 <= k < dr.len() implies t1.contains(#[trigger] dr[k]) && born@.contains(dr[k]) by {
                if k < dr0.len() {
                    assert(dr[k] == dr0[k]);
                }
            }
            assert forall|a: int, b: int| 0 <= a < b < dels.len() implies dels[a].refno < dels[b].refno by {
                if b < dels0.len() {
                    assert(dels[a] == dels0[a] && dels[b] == dels0[b]);
                } else {
                    assert(dels[a] == dels0[a]);
                    assert(t0.contains(dels0[a].refno));
                }
            }
            assert forall|a: int, b: int| 0 <= a < b < md.len() implies md[a] < md[b] by {
                if b < md0.len() {
                    assert(md[a] == md0[a] && md[b] == md0[b]);
                } else {
                    assert(md[a] == md0[a]);
                    assert(t0.contains(md0[a]));
                }
            }
            assert forall|a: int, b: int| 0 <= a < b < dr.len() implies dr[a] < dr[b] by {
                if b < dr0.len() {
                    assert(dr[a] == dr0[a] && dr[b] == dr0[b]);
                } else {
                    assert(dr[a] == dr0[a]);
                    assert(t0.contains(dr0[a]));
                }
            }
        }
        i += 1;
    }
    proof {
        assert(dead@.take(i as int) == dead@);
        let all = dead@.to_set();
        let nb = all.difference(born@);
        let mde = nb.difference(existing@);
        let drs = all.intersect(born@);
        let drefs = dels.map_values(|op: EleOperationData| op.refno);
        assert(drefs.no_duplicates()) by {
            assert forall|a: int, b: int| 0 <= a < drefs.len() && 0 <= b < drefs.len() && a != b implies drefs[a] != drefs[b] by {
                if a < b {
                    assert(dels[a].refno < dels[b].refno);
                } else {
                    assert(dels[b].refno < dels[a].refno);
                }
            }
        }
        assert(drefs.to_set() =~= nb) by {
            assert forall|x: u64| drefs.to_set().contains(x) == nb.contains(x) by {
                if drefs.contains(x) {
                    let k = choose|k: int| 0 <= k < drefs.len() && drefs[k] == x;
                    assert(dels[k].refno == x);
                }
                if nb.contains(x) {
                    let k = choose|k: int| 0 <= k < dead@.len() && dead@[k] == x;
                    let q = choose|q: int| 0 <= q < dels.len() && dels[q].refno == dead@[k];
                    assert(drefs[q] == x);
                }
            }
        }
        drefs.unique_seq_to_set();
        assert(md.no_duplicates()) by {
            assert forall|a: int, b: int| 0 <= a < md.len() && 0 <= b < md.len() && a != b implies md[a] != md[b] by {
                if a < b {
                    assert(md[a] < md[b]);
                } else {
                    assert(md[b] < md[a]);
                }
            }
        }
        assert(md.to_set() =~= mde) by {
            assert forall|x: u64| md.to_set().contains(x) == mde.contains(x) by {
                if mde.contains(x) {
                    let k = choose|k: int| 0 <= k < dead@.len() && dead@[k] == x;
                    assert(md.contains(dead@[k]));
                }
            }
        }
        md.unique_seq_to_set();
        assert(dr.no_duplicates()) by {
            assert forall|a: int, b: int| 0 <= a < dr.len() && 0 <= b < dr.len() && a != b implies dr[a] != dr[b] by {
                if a < b {
                    assert(dr[a] < dr[b]);
                } else {
                    assert(dr[b] < dr[a]);
                }
            }
        }
        assert(dr.to_set() =~= drs) by {
            assert forall|x: u64| dr.to_set().contains(x) == drs.contains(x) by {
                if drs.contains(x) {
                    let k = choose|k: int| 0 <= k < dead@.len() && dead@[k] == x;
                    assert(dr.contains(dead@[k]));
                }
            }
        }
        dr.unique_seq_to_set();
        assert(deletion_run(dels, nb, target)) by {
            assert forall|x: u64| #[trigger] nb.contains(x) implies exists|i: int| 0 <= i < dels.len() && dels[i].refno == x by {
                assert(drefs.to_set().contains(x));
                let k = choose|k: int| 0 <= k < drefs.len() && drefs[k] == x;
                assert(dels[k].refno == x);
            }
            assert forall|k: int| 0 <= k < dels.len() implies nb.contains((#[trigger] dels[k]).refno) by {
                assert(dead@.contains(dels[k].refno));
            }
        }
    }
    (membership_deleted, dropped)
}

/// A closure depends on the resolver only through its records.
proof fn lemma_failure_same_records<R: MembershipResolver>(
    r1: R,
    r2: R,
    roots: Set<u64>,
    born: Set<u64>,
    base: i32,
    t: i32,
    e: ResolveError,
)
    requires
        same_lookups(r1, r2),
        expansion_failure(r1, roots, born, base, t, e),
    ensures
        expansion_failure(r2, roots, born, base, t, e),
{
    let (dead, rank, y) = choose|dead: Set<u64>, rank: Map<u64, nat>, y: u64|
        #![trigger partial_closure(r1, roots, born, base, t, dead, rank), dead.contains(y)]
        partial_closure(r1, roots, born, base, t, dead, rank) && dead.contains(y) && (expand_error(r1, y, base, t, born.contains(y))
            == Some(e) || (expand_error(r1, y, base, t, born.contains(y)) is None && expansion(r1, y, base, t, born.contains(y)) is Some
            && exists|c: u64| expansion(r1, y, base, t, born.contains(y))->0.contains(c) && !dead.contains(c) && #[trigger] moved_error(
            r1,
            c,
            t,
            dead,
        ) == Some(e)));
    assert forall|z: u64| #[trigger] expansion(r1, z, base, t, born.contains(z)) == expansion(r2, z, base, t, born.contains(z)) by {
        assert(r1.member_record(z, base) == r2.member_record(z, base));
        assert(r1.member_record(z, t) == r2.member_record(z, t));
    }
    assert forall|x: u64| #[trigger] target_member(r1, x, t) == target_member(r2, x, t) by {
        assert(r1.member_record(x, t) == r2.member_record(x, t));
        if let Some(Some(ee)) = r1.member_record(x, t) {
            assert(r1.member_record(ee.owner, t) == r2.member_record(ee.owner, t));
        }
    }
    assert forall|x: u64| #[trigger] moved_live(r1, x, t, dead) == moved_live(r2, x, t, dead) by {
        assert(r1.member_record(x, t) == r2.member_record(x, t));
        assert(target_member(r1, x, t) == target_member(r2, x, t));
    }
    assert forall|x: u64| #[trigger] dead.contains(x) implies roots.contains(x) || dead_parent(r2, born, base, t, dead, rank, x) by {
        if !roots.contains(x) {
            assert(dead_parent(r1, born, base, t, dead, rank, x));
            let z = choose|z: u64| #[trigger] dead.contains(z) && rank[z] < rank[x] && (expansion(r1, z, base, t, born.contains(z)) matches Some(cs)
                && cs.contains(x)) && !moved_live(r1, x, t, dead);
            assert(expansion(r1, z, base, t, born.contains(z)) == expansion(r2, z, base, t, born.contains(z)));
            assert(moved_live(r1, x, t, dead) == moved_live(r2, x, t, dead));
        }
    }
    assert(partial_closure(r2, roots, born, base, t, dead, rank));
    assert(r1.member_record(y, base) == r2.member_record(y, base));
    assert(r1.member_record(y, t) == r2.member_record(y, t));
    assert(expand_error(r1, y, base, t, born.contains(y)) == expand_error(r2, y, base, t, born.contains(y)));
    if expand_error(r1, y, base, t, born.contains(y)) != Some(e) {
        let c = choose|c: u64| expansion(r1, y, base, t, born.contains(y))->0.contains(c) && !dead.contains(c) && #[trigger] moved_error(
            r1,
            c,
            t,
            dead,
        ) == Some(e);
        assert(r1.member_record(c, t) == r2.member_record(c, t));
        if let Some(Some(xx)) = r1.member_record(c, t) {
            assert(r1.member_record(xx.owner, t) == r2.member_record(xx.owner, t));
        }
        assert(moved_error(r2, c, t, dead) == Some(e));
    }
}

proof fn lemma_closure_same_records<R: MembershipResolver>(
    r1: R,
    r2: R,
    roots: Set<u64>,
    born: Set<u64>,
    base: i32,
    t: i32,
    dead: Set<u64>,
    rank: Map<u64, nat>,
)
    requires
        same_lookups(r1, r2),
        member_closure(r1, roots, born, base, t, dead, rank),
    ensures
        member_closure(r2, roots, born, base, t, dead, rank),
{
    assert forall|y: u64| #[trigger] expansion(r1, y, base, t, born.contains(y)) == expansion(r2, y, base, t, born.contains(y)) by {
        assert(r1.member_record(y, base) == r2.member_record(y, base));
        assert(r1.member_record(y, t) == r2.member_record(y, t));
    }
    assert forall|x: u64| #[trigger] target_member(r1, x, t) == target_member(r2, x, t) by {
        assert(r1.member_record(x, t) == r2.member_record(x, t));
        if let Some(Some(e)) = r1.member_record(x, t) {
            assert(r1.member_record(e.owner, t) == r2.member_record(e.owner, t));
        }
    }
    assert forall|x: u64| #[trigger] moved_live(r1, x, t, dead) == moved_live(r2, x, t, dead) by {
        assert(r1.member_record(x, t) == r2.member_record(x, t));
        assert(target_member(r1, x, t) == target_member(r2, x, t));
    }
    assert forall|x: u64| #[trigger] dead.contains(x) implies roots.contains(x) || dead_parent(r2, born, base, t, dead, rank, x) by {
        if !roots.contains(x) {
            assert(dead_parent(r1, born, base, t, dead, rank, x));
            let y = choose|y: u64| #[trigger] dead.contains(y) && rank[y] < rank[x] && (expansion(r1, y, base, t, born.contains(y)) matches Some(cs)
                && cs.contains(x)) && !moved_live(r1, x, t, dead);
            assert(expansion(r1, y, base, t, born.contains(y)) == expansion(r2, y, base, t, born.contains(y)));
            assert(moved_live(r1, x, t, dead) == moved_live(r2, x, t, dead));
        }
    }
    assert forall|y: u64, c: u64| #![trigger dead.contains(y), expansion(r2, y, base, t, born.contains(y))->0.contains(c)]
        dead.contains(y) && expansion(r2, y, base, t, born.contains(y)) is Some && expansion(r2, y, base, t, born.contains(y))->0.contains(c)
            implies dead.contains(c) || target_member(r2, c, t) by {
        assert(expansion(r1, y, base, t, born.contains(y)) == expansion(r2, y, base, t, born.contains(y)));
        assert(target_member(r1, c, t) == target_member(r2, c, t));
    }
}

/// The base session, 0 when there is none.
pub open spec fn base_or_zero(base: Option<i32>) -> i32 {
    match base {
        Some(b) => b,
        None => 0,
    }
}

/// Reconciles deletions with the target membership and expands unreachable
/// subtrees. Candidates are the elements a parent dropped and no parent took up,
/// the window's own deletions, and additions their target owner does not list;
/// from the certain ones (the latter two, and dropped elements that are not members
/// of their target owner) the deletion spreads breadth-first over the base member
/// lists (the target member list for elements born in the window) to every member
/// that has not moved to a living owner. Dead elements lose all their operations;
/// those that existed before the window get one `Deleted` on the target session,
/// those born inside it are dropped without a trace. Nothing is guessed: an element
/// of a deleted subtree that is missing at the base session and was not born in the
/// window is an error, and so is any failed lookup.
#[verifier::spinoff_prover]
pub fn reconcile_member_deletions<R: MembershipResolver>(
    window: &mut BTreeMap<u32, Vec<EleOperationData>>,
    base_sesno: Option<i32>,
    target_sesno: i32,
    resolver: &mut R,
) -> (r: Result<MemberReconciliation, ResolveError>)
    ensures
        same_lookups(*final(resolver), *old(resolver)),
        r matches Ok(rec) ==> reconciled_by_closure(
            *old(resolver),
            old(window)@,
            final(window)@,
            base_or_zero(base_sesno),
            target_sesno,
            rec,
        ),
        !has_root(*old(resolver), old(window)@, target_sesno) ==> (r matches Ok(rec) ==> final(window)@ == old(window)@
            && rec.membership_deleted == 0 && rec.dropped_phantom_adds == 0),
        r is Ok && has_root(*old(resolver), old(window)@, target_sesno) ==> base_sesno is Some,
        r matches Err(e) ==> reconcile_error(*old(resolver), old(window)@, base_sesno, target_sesno, e),
        (exists|o: u64| #[trigger] owner_lookup_fails(*old(resolver), old(window)@, o, target_sesno)) ==> r is Err
            && least_owner_failure(*old(resolver), old(window)@, target_sesno, r->Err_0),
        !(exists|o: u64| #[trigger] owner_lookup_fails(*old(resolver), old(window)@, o, target_sesno)) && !has_root(
            *old(resolver),
            old(window)@,
            target_sesno,
        ) ==> r == Ok::<MemberReconciliation, ResolveError>(MemberReconciliation { membership_deleted: 0, dropped_phantom_adds: 0 })
            && final(window)@ == old(window)@,
        !(exists|o: u64| #[trigger] owner_lookup_fails(*old(resolver), old(window)@, o, target_sesno)) && has_root(
            *old(resolver),
            old(window)@,
            target_sesno,
        ) && base_sesno is None ==> r == Err::<MemberReconciliation, ResolveError>(ResolveError::NoBaseSession),
        !(exists|o: u64| #[trigger] owner_lookup_fails(*old(resolver), old(window)@, o, target_sesno)) && base_sesno is Some
            && !(exists|x: u64| #[trigger] checked_candidate(*old(resolver), old(window)@, x, target_sesno)
            && target_member_result(*old(resolver), x, target_sesno) is Err) && r is Err ==> expansion_failure(
            *old(resolver),
            Set::new(|x: u64| queued_root(*old(resolver), old(window)@, x, target_sesno)),
            Set::new(|x: u64| born_in(old(window)@, x)),
            base_sesno->0,
            target_sesno,
            r->Err_0,
        ) || (target_sesno < 0 && r == Err::<MemberReconciliation, ResolveError>(ResolveError::InvalidSession { sesno: target_sesno })),
        !(exists|o: u64| #[trigger] owner_lookup_fails(*old(resolver), old(window)@, o, target_sesno)) && base_sesno is Some
            && (exists|x: u64| #[trigger] checked_candidate(*old(resolver), old(window)@, x, target_sesno)
            && target_member_result(*old(resolver), x, target_sesno) is Err) ==> r is Err && least_candidate_failure(
            *old(resolver),
            old(window)@,
            target_sesno,
            r->Err_0,
        ),
{
    broadcast use crate::order::group_key_order;

    let ghost r0 = *resolver;
    let ghost w0 = window@;
    let t = target_sesno;
    let ghost base_or: i32 = base_or_zero(base_sesno);
    let scan = scan_window(window);
    let phantoms = match orphaned_adds(window, t, resolver) {
        Err(e) => {
            return Err(e);
        },
        Ok(o) => o,
    };
    let ghost qroots = Set::new(|x: u64| queued_root(r0, w0, x, t));
    let ghost born = Set::new(|x: u64| born_in(w0, x));
    let ghost existing = Set::new(|x: u64| deleted_in(w0, x));
    let mut roots: BTreeSet<u64> = BTreeSet::new();
    let removed_list = set_elements(&scan.removed);
    let mut i: usize = 0;
    while i < removed_list.len()
        invariant
            i <= removed_list.len(),
            forall|k: int| 0 <= k < removed_list@.len() ==> scan.removed@.contains(#[trigger] removed_list@[k]),
            forall|x: u64| #[trigger] roots@.contains(x) ==> root_in(r0, w0, x, t),
            forall|k: int| 0 <= k < i ==> (#[trigger] scan.attached@.contains(removed_list@[k])) || roots@.contains(removed_list@[k]),
            scan.removed@ == Set::new(|c: u64| removed_in(w0, c)),
            scan.attached@ == Set::new(|c: u64| attached_in(w0, c)),
        decreases removed_list.len() - i,
    {
        let x = removed_list[i];
        if !scan.attached.contains(&x) {
            roots.insert(x);
        }
        i += 1;
    }
    let deleted_list = set_elements(&scan.deleted);
    let mut i: usize = 0;
    while i < deleted_list.len()
        invariant
            i <= deleted_list.len(),
            forall|k: int| 0 <= k < deleted_list@.len() ==> scan.deleted@.contains(#[trigger] deleted_list@[k]),
            scan.deleted@ == Set::new(|c: u64| deleted_in(w0, c)),
            forall|x: u64| #[trigger] roots@.contains(x) ==> root_in(r0, w0, x, t),
            forall|k: int| 0 <= k < i ==> roots@.contains(#[trigger] deleted_list@[k]),
            forall|k: int| 0 <= k < removed_list@.len() ==> (#[trigger] scan.attached@.contains(removed_list@[k])) || roots@.contains(removed_list@[k]),
        decreases deleted_list.len() - i,
    {
        roots.insert(deleted_list[i]);
        i += 1;
    }
    let phantom_list = set_elements(&phantoms);
    let mut i: usize = 0;
    while i < phantom_list.len()
        invariant
            i <= phantom_list.len(),
            forall|k: int| 0 <= k < phantom_list@.len() ==> phantoms@.contains(#[trigger] phantom_list@[k]),
            phantoms@ == Set::new(|x: u64| orphan_in(r0, w0, x, t)),
            forall|x: u64| #[trigger] roots@.contains(x) ==> root_in(r0, w0, x, t),
            forall|k: int| 0 <= k < i ==> roots@.contains(#[trigger] phantom_list@[k]),
            forall|k: int| 0 <= k < deleted_list@.len() ==> roots@.contains(#[trigger] deleted_list@[k]),
            forall|k: int| 0 <= k < removed_list@.len() ==> (#[trigger] scan.attached@.contains(removed_list@[k])) || roots@.contains(removed_list@[k]),
        decreases phantom_list.len() - i,
    {
        roots.insert(phantom_list[i]);
        i += 1;
    }
    proof {
        assert forall|x: u64| #[trigger] root_in(r0, w0, x, t) implies roots@.contains(x) by {
            if removed_in(w0, x) && !attached_in(w0, x) {
                assert(scan.removed@.contains(x));
                let k = choose|k: int| 0 <= k < removed_list@.len() && removed_list@[k] == x;
                assert(!scan.attached@.contains(removed_list@[k]));
            } else if deleted_in(w0, x) {
                assert(scan.deleted@.contains(x));
                let k = choose|k: int| 0 <= k < deleted_list@.len() && deleted_list@[k] == x;
                assert(roots@.contains(deleted_list@[k]));
            } else {
                assert(phantoms@.contains(x));
                let k = choose|k: int| 0 <= k < phantom_list@.len() && phantom_list@[k] == x;
                assert(roots@.contains(phantom_list@[k]));
            }
        }
    }
    if roots.is_empty() {
        proof {
            if has_root(r0, w0, t) {
                let x = choose|x: u64| #[trigger] root_in(r0, w0, x, t);
                assert(roots@.contains(x));
            }
            assert forall|x: u64| !#[trigger] checked_candidate(r0, w0, x, t) by {
                if checked_candidate(r0, w0, x, t) {
                    assert(root_in(r0, w0, x, t));
                    assert(roots@.contains(x));
                }
            }
            assert(qroots =~= Set::<u64>::empty()) by {
                assert forall|x: u64| !qroots.contains(x) by {
                    if queued_root(r0, w0, x, t) {
                        assert(root_in(r0, w0, x, t));
                        assert(roots@.contains(x));
                    }
                }
            }
        }
        let rec = MemberReconciliation { membership_deleted: 0, dropped_phantom_adds: 0 };
        proof {
            let dead = Set::<u64>::empty();
            let rank = Map::<u64, nat>::empty();
            assert(member_closure(r0, qroots, born, base_or, t, dead, rank));
            assert(reconciliation_holds(r0, w0, window@, base_or, t, dead, rank, rec));
            assert(reconciled_by_closure(r0, w0, window@, base_or, t, rec));
        }
        return Ok(rec);
    }
    let base = match base_sesno {
        None => {
            proof {
                let x = roots@.choose();
                assert(roots@.contains(x));
                assert(root_in(r0, w0, x, t));
            }
            return Err(ResolveError::NoBaseSession);
        },
        Some(b) => b,
    };
    let root_list = set_elements(&roots);
    let mut start: Vec<u64> = Vec::new();
    let mut i: usize = 0;
    while i < root_list.len()
        invariant
            i <= root_list.len(),
            r0 == *old(resolver),
            same_lookups(*resolver, r0),
            forall|k: int| 0 <= k < root_list@.len() ==> roots@.contains(#[trigger] root_list@[k]),
            forall|x: u64| #[trigger] roots@.contains(x) ==> root_in(r0, w0, x, t),
            scan.deleted@ == Set::new(|c: u64| deleted_in(w0, c)),
            phantoms@ == Set::new(|x: u64| orphan_in(r0, w0, x, t)),
            forall|k: int| 0 <= k < start@.len() ==> queued_root(r0, w0, #[trigger] start@[k], t),
            forall|k: int| 0 <= k < i && queued_root(r0, w0, #[trigger] root_list@[k], t) ==> start@.contains(root_list@[k]),
            base_sesno == Some(base),
            w0 == old(window)@,
            t == target_sesno,
            !(exists|o: u64| #[trigger] owner_lookup_fails(r0, w0, o, t)),
            forall|x: u64| #[trigger] root_in(r0, w0, x, t) ==> roots@.contains(x),
            forall|x: u64| #[trigger] roots@.contains(x) ==> root_list@.contains(x),
            forall|a: int, b: int| 0 <= a < b < root_list@.len() ==> root_list@[a] < root_list@[b],
            forall|k: int| 0 <= k < i && checked_candidate(r0, w0, #[trigger] root_list@[k], t) ==> target_member_result(r0, root_list@[k], t) is Ok,
        decreases root_list.len() - i,
    {
        let x = root_list[i];
        let queue_it = if scan.deleted.contains(&x) || phantoms.contains(&x) {
            true
        } else {
            match is_target_member(resolver, x, t) {
                Err(e) => {
                    proof {
                        lemma_member_error_widen(r0, e, t, t, base, t);
                        assert(checked_candidate(r0, w0, x, t));
                        assert forall|x2: u64| #[trigger] checked_candidate(r0, w0, x2, t) && x2 < x implies target_member_result(r0, x2, t) is Ok by {
                            assert(root_in(r0, w0, x2, t));
                            assert(roots@.contains(x2));
                            let j = choose|j: int| 0 <= j < root_list@.len() && root_list@[j] == x2;
                            if j >= i {
                                if j > i {
                                    assert(root_list@[i as int] < root_list@[j]);
                                }
                            }
                        }
                        assert(least_candidate_failure(r0, w0, t, e));
                    }
                    return Err(e);
                },
                Ok(b) => !b,
            }
        };
        let ghost before = start@;
        if queue_it {
            start.push(x);
        }
        proof {
            assert(queue_it == queued_root(r0, w0, x, t));
            assert forall|k: int| 0 <= k < start@.len() implies queued_root(r0, w0, #[trigger] start@[k], t) by {
                if k < before.len() {
                    assert(start@[k] == before[k]);
                }
            }
            assert forall|k: int| 0 <= k < i + 1 && queued_root(r0, w0, #[trigger] root_list@[k], t) implies start@.contains(root_list@[k]) by {
                if k < i {
                    let q = choose|q: int| 0 <= q < before.len() && before[q] == root_list@[k];
                    assert(start@[q] == before[q]);
                } else {
                    assert(start@[start@.len() - 1] == x);
                }
            }
        }
        i += 1;
    }
    proof {
        assert forall|x: u64| #[trigger] checked_candidate(r0, w0, x, t) implies target_member_result(r0, x, t) is Ok by {
            assert(root_in(r0, w0, x, t));
            assert(roots@.contains(x));
            let k = choose|k: int| 0 <= k < root_list@.len() && root_list@[k] == x;
            assert(checked_candidate(r0, w0, root_list@[k], t));
        }
        assert forall|x: u64| #![auto] start@.to_set().contains(x) == qroots.contains(x) by {
            if qroots.contains(x) {
                assert(root_in(r0, w0, x, t));
                assert(roots@.contains(x));
                let k = choose|k: int| 0 <= k < root_list@.len() && root_list@[k] == x;
                assert(queued_root(r0, w0, root_list@[k], t));
            }
            if start@.contains(x) {
                let k = choose|k: int| 0 <= k < start@.len() && start@[k] == x;
                assert(queued_root(r0, w0, start@[k], t));
            }
        }
        assert(start@.to_set() =~= qroots);
    }
    let ghost r_mid = *resolver;
    let ghost start_set = start@.to_set();
    let (dead, Ghost(rank)) = match expand_dead(resolver, start, &scan.born, base, t) {
        Err(e) => {
            proof {
                lemma_failure_same_records(r_mid, r0, start_set, scan.born@, base, t, e);
            }
            return Err(e);
        },
        Ok(p) => p,
    };
    proof {
        lemma_closure_same_records(r_mid, r0, start_set, scan.born@, base, t, dead@, rank);
    }
    if dead.is_empty() {
        let rec = MemberReconciliation { membership_deleted: 0, dropped_phantom_adds: 0 };
        proof {
            assert(reconciliation_holds(r0, w0, window@, base_or, t, dead@, rank, rec));
            assert(reconciled_by_closure(r0, w0, window@, base_or, t, rec));
        }
        return Ok(rec);
    }
    drop_dead_everywhere(window, &dead);
    if t < 0 {
        return Err(ResolveError::InvalidSession { sesno: t });
    }
    let target = t as u32;
    let ghost w1 = window@;
    let dead_list = set_elements(&dead);
    let mut list = match window.remove(&target) {
        Some(l) => l,
        None => Vec::new(),
    };
    let ghost l0 = list@;
    proof {
        assert(dead_list@.to_set() =~= dead@) by {
            assert forall|x: u64| dead_list@.contains(x) implies dead@.contains(x) by {
                let k = choose|k: int| 0 <= k < dead_list@.len() && dead_list@[k] == x;
            }
        }
    }
    let (membership_deleted, dropped) = emit_deletions(&mut list, &dead_list, &scan.born, &scan.deleted, target);
    window.insert(target, list);
    proof {
        assert(l0 == keep_live(if w0.contains_key(target) { w0[target]@ } else { Seq::<EleOperationData>::empty() }, dead@)) by {
            if !w0.contains_key(target) {
                assert(!w1.contains_key(target));
                assert(keep_live(Seq::<EleOperationData>::empty(), dead@) == Seq::<EleOperationData>::empty());
            }
        }
        let dels = choose|d: Seq<EleOperationData>| #[trigger] deletion_run(d, dead@.difference(born), target) && list@ == l0 + d;
        assert(window@[target]@ == keep_live(if w0.contains_key(target) { w0[target]@ } else { Seq::<EleOperationData>::empty() }, dead@) + dels);
        assert(reconciled_window(w0, window@, dead@, born, target));
        let rec = MemberReconciliation { membership_deleted, dropped_phantom_adds: dropped };
        assert(scan.born@ == born);
        assert(scan.deleted@ == existing);
        assert(member_closure(r0, qroots, born, base_or, t, dead@, rank));
        assert(rec.membership_deleted == dead@.difference(born).difference(existing).len());
        assert(rec.dropped_phantom_adds == dead@.intersect(born).len());
        assert(reconciliation_holds(r0, w0, window@, base_or, t, dead@, rank, rec));
        assert(reconciled_by_closure(r0, w0, window@, base_or, t, rec));
    }
    Ok(MemberReconciliation { membership_deleted, dropped_phantom_adds: dropped })
}

/// The stage at which a net window collection stopped.
#[derive(Debug, Clone, Copy, PartialEq, Eq, Structural)]
pub enum WindowStage {
    /// The path no longer names the frozen file.
    FileIdentity,
    /// The window end is not the frozen session.
    FrozenSession,
    /// The two-root diff failed.
    NetDiff,
    /// Synthesizing operations from final records failed.
    Synthesis,
    /// Membership reconciliation failed.
    MemberReconciliation,
    /// The path no longer names the frozen file when the window is handed over.
    CommitIdentity,
}

/// The cause of an incomplete window.
#[derive(Debug, Clone, Copy, PartialEq, Eq, Structural)]
pub enum WindowFailure {
    Snapshot { error: SnapshotError },
    /// The window end differs from the session the snapshot froze.
    FrozenSessionMismatch { requested: i32, frozen: u32 },
    Diff { error: DiffError },
    Resolve { error: ResolveError },
}

/// A net window that could not be collected completely, with its stage.
#[derive(Debug, Clone, Copy, PartialEq, Eq, Structural)]
pub struct NetWindowError {
    pub stage: WindowStage,
    pub source: WindowFailure,
}

impl NetWindowError {
    /// The window is incomplete at `stage` because of `source`.
    pub fn incomplete(stage: WindowStage, source: WindowFailure) -> (r: NetWindowError)
        ensures
            r.stage == stage,
            r.source == source,
    {
        NetWindowError { stage, source }
    }
}

/// The outcome before membership reconciliation: same fields, the window as
/// synthesized, no reconciliation counts.
pub open spec fn before_reconciliation(mid: NetWindowOutcome, o: NetWindowOutcome) -> bool {
    &&& mid.snapshot_token == o.snapshot_token
    &&& mid.warnings == o.warnings
    &&& mid.unchanged_rewrites == o.unchanged_rewrites
    &&& mid.unparseable_finals == o.unparseable_finals
    &&& mid.ignored_finals == o.ignored_finals
    &&& mid.stats == o.stats
}

/// The window of `o` is the net diff of `range` over the image `io`, synthesized
/// from the image's records with the frozen token `tv`, then reconciled with the
/// image's membership between the diff's base and target sessions.
pub open spec fn window_collected(io: PdmsIO, range: RangeInclusive<i32>, tv: TokenView, o: NetWindowOutcome) -> bool {
    exists|net: NetChangeSet, mid: NetWindowOutcome, tk: SnapshotToken| #![trigger synthesis_holds(pdms_records(&io), net, tk, mid)]
        tk@ == tv && net_changes_hold(io, range, false, net) && synthesis_holds(pdms_records(&io), net, tk, mid)
            && before_reconciliation(mid, o) && reconciled_by_closure(
            pdms_members(&io),
            mid.window@,
            o.window@,
            base_or_zero(net.base_sesno),
            net.target_sesno,
            MemberReconciliation { membership_deleted: o.membership_deleted, dropped_phantom_adds: o.dropped_phantom_adds },
        )
}

/// How the net diff of `range` refuses over an image opened from `io0` into `io1`:
/// the image does not open, or the diff is refused (see `net_refusal`), or an entry
/// has no last-touch session. Nothing is said once the range is exhausted.
pub open spec fn net_diff_refused(io0: PdmsIO, io1: PdmsIO, range: RangeInclusive<i32>, e: DiffError) -> bool {
    ||| io0.sesno_pgno_map@.is_empty() && io0.header is None && e == (DiffError::Open { error: IoError::NoHeader })
    ||| io0.sesno_pgno_map@.is_empty() && io0.header is Some && chain_error(io0.session_pages@, io0.header->0.latest_ses_pgno)
        == Some(e->Open_error) && e is Open
    ||| net_opens(io0) && !range@.exhausted && net_refusal(io1, range@.start, range@.end) == Some(e)
    ||| net_opens(io0) && !range@.exhausted && net_refusal(io1, range@.start, range@.end) is None && (e matches DiffError::NoLastTouchSession {
        refno,
        pgno,
    } && reported_loc(window_touched(io1, range@.start, range@.end).0, window_touched(io1, range@.start, range@.end).1, refno)
        matches Some(l) && l.pgno == pgno && !has_session_of(io1.ses_range_map@, pgno))
    ||| range@.exhausted
}

/// The synthesis of the net diff of `range` over `io` fails with `e`.
pub open spec fn synthesis_refused(io: PdmsIO, range: RangeInclusive<i32>, e: ResolveError) -> bool {
    exists|net: NetChangeSet| #[trigger] net_changes_hold(io, range, false, net) && synth_error(pdms_records(&io), net) == Some(e)
}

/// The membership reconciliation of the synthesized window of `range` over `io`
/// fails with `e`.
pub open spec fn reconciliation_refused(io: PdmsIO, range: RangeInclusive<i32>, tv: TokenView, e: ResolveError) -> bool {
    exists|net: NetChangeSet, mid: NetWindowOutcome, tk: SnapshotToken| #![trigger synthesis_holds(pdms_records(&io), net, tk, mid)]
        tk@ == tv && net_changes_hold(io, range, false, net) && synthesis_holds(pdms_records(&io), net, tk, mid)
            && reconcile_error(pdms_members(&io), mid.window@, net.base_sesno, net.target_sesno, e)
}

/// A classified change set names each reference number once: its lists hold keys
/// in increasing order, and a key is added, deleted or modified, never two of these.
proof fn lemma_classified_distinct(io: PdmsIO, set: NetChangeSet, with_noun: bool, b: Map<u64, RecordLoc>, t: Map<u64, RecordLoc>)
    requires
        classifies(io, set, with_noun, b, t),
    ensures
        distinct_refnos(set),
{
    let (a, d, m) = choose|a: Seq<(u64, RecordLoc)>, d: Seq<(u64, RecordLoc)>, m: Seq<(u64, RecordLoc, RecordLoc)>|
        is_added_list(b, t, a) && is_deleted_list(b, t, d) && is_modified_list(b, t, m) && entries2(a, set.added@, io, with_noun)
            && entries2(d, set.deleted@, io, with_noun) && entries3(m, set.modified@, io, with_noun);
    let all = entries_of(set);
    let na = set.added@.len() as int;
    let nd = set.deleted@.len() as int;
    assert forall|i: int, j: int| 0 <= i < j < all.len() implies #[trigger] all[i].refno != #[trigger] all[j].refno by {
        if j < na {
            assert(all[i] == set.added@[i] && all[j] == set.added@[j]);
            assert(a[i].0 < a[j].0);
        } else if j < na + nd {
            assert(all[j] == set.deleted@[j - na]);
            let kj = d[j - na].0;
            assert(crate::session_index_diff::net_deleted(b, t, kj));
            if i < na {
                assert(all[i] == set.added@[i]);
                assert(crate::session_index_diff::net_added(b, t, a[i].0));
            } else {
                assert(all[i] == set.deleted@[i - na]);
                assert(d[i - na].0 < d[j - na].0);
            }
        } else {
            assert(all[j] == set.modified@[j - na - nd]);
            let kj = m[j - na - nd].0;
            assert(crate::session_index_diff::net_modified(b, t, kj));
            if i < na {
                assert(all[i] == set.added@[i]);
                assert(crate::session_index_diff::net_added(b, t, a[i].0));
            } else if i < na + nd {
                assert(all[i] == set.deleted@[i - na]);
                assert(crate::session_index_diff::net_deleted(b, t, d[i - na].0));
            } else {
                assert(all[i] == set.modified@[i - na - nd]);
                assert(m[i - na - nd].0 < m[j - na - nd].0);
            }
        }
    }
}

/// The change set of a net diff names each reference number once.
pub proof fn law_net_changes_name_each_refno_once(io: PdmsIO, range: RangeInclusive<i32>, with_noun: bool, set: NetChangeSet)
    requires
        net_changes_hold(io, range, with_noun, set),
    ensures
        distinct_refnos(set),
{
    if set.added@.len() == 0 && set.deleted@.len() == 0 && set.modified@.len() == 0 {
        assert(entries_of(set).len() == 0);
    } else {
        let touched = crate::session_index_diff::diff_touched(
            crate::session_index_diff::page_fn(io),
            crate::session_index_diff::window_base_root(io, set.base_sesno),
            crate::session_index_diff::window_base_end(io, set.base_sesno),
            crate::session_index_diff::anchor_root(io, set.target_sesno),
        );
        lemma_classified_distinct(io, set, with_noun, touched.0, touched.1);
    }
}

/// Net window collection on a snapshot, given the file identity the snapshot's
/// path reports now. The identity must still be the frozen one and the window must
/// end at the frozen session; the window is then the net diff of the session range,
/// synthesized into operations and reconciled with the target membership. Each
/// failure names its stage. The caller observes the identity once more before
/// handing the window over (see `finish_net_window`).
pub fn collect_net_window(
    snapshot: &mut DabaconSnapshot,
    sesno_range: RangeInclusive<i32>,
    observed: StableFileId,
) -> (r: Result<NetWindowOutcome, NetWindowError>)
    ensures
        final(snapshot).token_view() == old(snapshot).token_view(),
        observed != old(snapshot).token_view().file_id ==> r == Err::<NetWindowOutcome, NetWindowError>(
            NetWindowError {
                stage: WindowStage::FileIdentity,
                source: WindowFailure::Snapshot { error: SnapshotError::FileReplaced },
            },
        ),
        observed == old(snapshot).token_view().file_id && !sesno_range@.exhausted && (sesno_range@.end < 0
            || sesno_range@.end as u32 != old(snapshot).token_view().target_sesno) ==> r == Err::<NetWindowOutcome, NetWindowError>(
            NetWindowError {
                stage: WindowStage::FrozenSession,
                source: WindowFailure::FrozenSessionMismatch {
                    requested: sesno_range@.end,
                    frozen: old(snapshot).token_view().target_sesno,
                },
            },
        ),
        r matches Ok(o) ==> {
            &&& observed == old(snapshot).token_view().file_id
            &&& !sesno_range@.exhausted ==> sesno_range@.end >= 0 && sesno_range@.end as u32 == old(snapshot).token_view().target_sesno
            &&& window_collected(final(snapshot).io_view(), sesno_range, old(snapshot).token_view(), o)
            &&& keyed_by_session(o.window@)
            &&& one_op_per_refno(o.window@)
        },
        r matches Err(x) ==> match x.stage {
            WindowStage::FileIdentity => x.source == (WindowFailure::Snapshot { error: SnapshotError::FileReplaced }),
            WindowStage::FrozenSession => x.source is FrozenSessionMismatch,
            WindowStage::NetDiff => x.source matches WindowFailure::Diff { error } && net_diff_refused(
                old(snapshot).io_view(),
                final(snapshot).io_view(),
                sesno_range,
                error,
            ),
            WindowStage::Synthesis => x.source matches WindowFailure::Resolve { error } && synthesis_refused(
                final(snapshot).io_view(),
                sesno_range,
                error,
            ),
            WindowStage::MemberReconciliation => x.source matches WindowFailure::Resolve { error } && reconciliation_refused(
                final(snapshot).io_view(),
                sesno_range,
                old(snapshot).token_view(),
                error,
            ),
            WindowStage::CommitIdentity => false,
        },
{
    match snapshot.verify_path_identity(observed) {
        Ok(()) => {},
        Err(error) => {
            return Err(NetWindowError::incomplete(WindowStage::FileIdentity, WindowFailure::Snapshot { error }));
        },
    }
    let requested_target = *sesno_range.end();
    let frozen = snapshot.token().target_sesno();
    if requested_target < 0 || requested_target as u32 != frozen {
        return Err(
            NetWindowError::incomplete(
                WindowStage::FrozenSession,
                WindowFailure::FrozenSessionMismatch { requested: requested_target, frozen },
            ),
        );
    }
    let token = snapshot.token().duplicate();
    let io = snapshot.io_mut();
    let net = match collect_net_changes(io, sesno_range, false) {
        Ok(n) => n,
        Err(error) => {
            return Err(NetWindowError::incomplete(WindowStage::NetDiff, WindowFailure::Diff { error }));
        },
    };
    let io: &PdmsIO = io;
    let base_sesno = net.base_sesno;
    let target_sesno = net.target_sesno;
    let ghost net0 = net;
    let ghost tk = token;
    let mut records = PdmsRecordResolver::new(io);
    let mut outcome = match synthesize_net_window_with_resolver(net, token, &mut records) {
        Ok(o) => o,
        Err(error) => {
            return Err(NetWindowError::incomplete(WindowStage::Synthesis, WindowFailure::Resolve { error }));
        },
    };
    let ghost mid = outcome;
    let mut members = PdmsMembershipResolver::new(io);
    let reconciliation = match reconcile_member_deletions(&mut outcome.window, base_sesno, target_sesno, &mut members) {
        Ok(rec) => rec,
        Err(error) => {
            return Err(NetWindowError::incomplete(WindowStage::MemberReconciliation, WindowFailure::Resolve { error }));
        },
    };
    outcome.membership_deleted = reconciliation.membership_deleted;
    outcome.dropped_phantom_adds = reconciliation.dropped_phantom_adds;
    proof {
        assert(before_reconciliation(mid, outcome));
        assert(synthesis_holds(pdms_records(io), net0, tk, mid));
        law_net_changes_name_each_refno_once(*io, sesno_range, false, net0);
        let (dead, rank) = choose|dead: Set<u64>, rank: Map<u64, nat>| #[trigger] reconciliation_holds(
            pdms_members(io),
            mid.window@,
            outcome.window@,
            base_or_zero(base_sesno),
            target_sesno,
            dead,
            rank,
            reconciliation,
        );
        law_reconciliation_keeps_one_op(
            pdms_members(io),
            mid.window@,
            outcome.window@,
            base_or_zero(base_sesno),
            target_sesno,
            dead,
            rank,
            reconciliation,
        );
    }
    Ok(outcome)
}

/// Hands a collected window over once the snapshot's path still reports the frozen
/// file identity.
pub fn finish_net_window(
    snapshot: &DabaconSnapshot,
    outcome: NetWindowOutcome,
    observed: StableFileId,
) -> (r: Result<NetWindowOutcome, NetWindowError>)
    ensures
        observed == snapshot.token_view().file_id ==> r == Ok::<NetWindowOutcome, NetWindowError>(outcome),
        observed != snapshot.token_view().file_id ==> r == Err::<NetWindowOutcome, NetWindowError>(
            NetWindowError {
                stage: WindowStage::CommitIdentity,
                source: WindowFailure::Snapshot { error: SnapshotError::FileReplaced },
            },
        ),
{
    match snapshot.verify_path_identity(observed) {
        Ok(()) => Ok(outcome),
        Err(error) => Err(NetWindowError::incomplete(WindowStage::CommitIdentity, WindowFailure::Snapshot { error })),
    }
}

/// Maintenance audit: whether an element is still accepted by the member list of
/// its owner at `target_sesno` in a file image.
pub fn member_alive_at(io: &PdmsIO, refno: u64, target_sesno: i32) -> (r: Result<bool, ResolveError>)
    ensures
        r matches Ok(b) ==> b == target_member(pdms_members(io), refno, target_sesno),
        r matches Err(e) ==> member_error(pdms_members(io), e, target_sesno, target_sesno),
        r == target_member_result(pdms_members(io), refno, target_sesno),
{
    let mut members = PdmsMembershipResolver::new(io);
    is_target_member(&mut members, refno, target_sesno)
}

/// The reference numbers the window's operations are about.
fn window_refnos(window: &BTreeMap<u32, Vec<EleOperationData>>) -> (r: BTreeSet<u64>)
    ensures
        r@ == Set::new(|x: u64| window_any(window@, |op: EleOperationData| op.refno == x)),
{
    broadcast use crate::order::group_key_order;

    let pos = window_positions(window);
    let ghost w = window@;
    let mut out: BTreeSet<u64> = BTreeSet::new();
    let mut i: usize = 0;
    while i < pos.len()
        invariant
            i <= pos.len(),
            w == window@,
            positions_of(w, pos@),
            out@ == Set::new(|c: u64| pos_any(w, pos@, i as int, |op: EleOperationData| op.refno == c)),
        decreases pos.len() - i,
    {
        let (s, j) = pos[i];
        proof {
            assert(in_window(w, pos@[i as int].0, pos@[i as int].1 as int));
        }
        let list = window.get(&s).unwrap();
        let op = &list[j];
        assert(*op == pos_op(w, pos@, i as int));
        out.insert(op.refno);
        proof {
            let n = i as int + 1;
            assert forall|c: u64| #![auto] out@.contains(c) == pos_any(w, pos@, n, |op: EleOperationData| op.refno == c) by {
                if pos_any(w, pos@, n, |op: EleOperationData| op.refno == c) {
                    let q = choose|q: int| 0 <= q < n && (#[trigger] pos_op(w, pos@, q)).refno == c;
                    if q < i {
                        assert(pos_any(w, pos@, i as int, |op: EleOperationData| op.refno == c));
                    }
                }
                if pos_any(w, pos@, i as int, |op: EleOperationData| op.refno == c) {
                    let q = choose|q: int| 0 <= q < i && (#[trigger] pos_op(w, pos@, q)).refno == c;
                    assert(pos_any(w, pos@, n, |op: EleOperationData| op.refno == c));
                }
                if pos_op(w, pos@, i as int).refno == c {
                    assert(pos_any(w, pos@, n, |op: EleOperationData| op.refno == c));
                }
            }
            assert(out@ =~= Set::new(|c: u64| pos_any(w, pos@, n, |op: EleOperationData| op.refno == c)));
        }
        i += 1;
    }
    proof {
        assert forall|c: u64| #![auto] out@.contains(c) == window_any(w, |op: EleOperationData| op.refno == c) by {
            lemma_positions_any(w, pos@, |op: EleOperationData| op.refno == c);
        }
        assert(out@ =~= Set::new(|c: u64| window_any(w, |op: EleOperationData| op.refno == c)));
    }
    out
}

/// An operation list on dead elements only keeps nothing.
proof fn lemma_keep_live_all_dead(s: Seq<EleOperationData>, dead: Set<u64>)
    requires
        forall|k: int| 0 <= k < s.len() ==> dead.contains((#[trigger] s[k]).refno),
    ensures
        keep_live(s, dead) == Seq::<EleOperationData>::empty(),
    decreases s.len(),
{
    if s.len() > 0 {
        lemma_keep_live_all_dead(s.drop_last(), dead);
        assert(dead.contains(s[s.len() - 1].refno));
    }
}

/// `dead` is a deletion closure of `roots` under some ranking.
pub open spec fn is_deletion_closure<R: MembershipResolver>(res: R, roots: Set<u64>, born: Set<u64>, base: i32, t: i32, dead: Set<u64>) -> bool {
    exists|rank: Map<u64, nat>| #[trigger] member_closure(res, roots, born, base, t, dead, rank)
}

/// A window of nothing but deletions of `roots` on session `target`: its certain
/// deletion candidates are the roots and nothing in it was born.
proof fn lemma_deletion_window<R: MembershipResolver>(res: R, w0: Map<u32, Vec<EleOperationData>>, roots: Set<u64>, target: u32, t: i32)
    requires
        forall|s: u32| #[trigger] w0.contains_key(s) ==> s == target,
        w0.contains_key(target),
        forall|k: int| 0 <= k < w0[target]@.len() ==> roots.contains((#[trigger] w0[target]@[k]).refno) && w0[target]@[k].detail
            == EleOperationDetail::Deleted,
        forall|x: u64| #[trigger] roots.contains(x) ==> exists|k: int| 0 <= k < w0[target]@.len() && w0[target]@[k].refno == x,
    ensures
        Set::new(|x: u64| queued_root(res, w0, x, t)) == roots,
        Set::new(|x: u64| born_in(w0, x)) == Set::<u64>::empty(),
        forall|x: u64| #![auto] deleted_in(w0, x) == roots.contains(x),
{
    assert forall|x: u64| #![auto] deleted_in(w0, x) == roots.contains(x) by {
        if roots.contains(x) {
            let k = choose|k: int| 0 <= k < w0[target]@.len() && w0[target]@[k].refno == x;
            assert(in_window(w0, target, k));
        }
        if deleted_in(w0, x) {
            let (s, j) = choose|s: u32, j: int| #[trigger] in_window(w0, s, j) && w0[s]@[j].refno == x && w0[s]@[j].detail is Deleted;
            assert(s == target);
        }
    }
    assert forall|x: u64| !born_in(w0, x) by {
        if born_in(w0, x) {
            let (s, j) = choose|s: u32, j: int| #[trigger] in_window(w0, s, j) && w0[s]@[j].refno == x && w0[s]@[j].detail is Add;
            assert(s == target);
        }
    }
    assert forall|x: u64| !removed_in(w0, x) by {
        if removed_in(w0, x) {
            let (s, j) = choose|s: u32, j: int| #[trigger] in_window(w0, s, j) && op_removes(w0[s]@[j], x);
            assert(s == target);
        }
    }
    assert forall|x: u64| !orphan_in(res, w0, x, t) by {
        if orphan_in(res, w0, x, t) {
            let o = choose|o: u64| #[trigger] owned_add_in(w0, x, o) && (res.member_record(o, t) matches Some(Some(rr))
                && !rr.children.contains(x));
            let (s, j) = choose|s: u32, j: int| #[trigger] in_window(w0, s, j) && op_owned_add(w0[s]@[j], x, o);
            assert(s == target);
        }
    }
    assert(Set::new(|x: u64| queued_root(res, w0, x, t)) =~= roots);
    assert(Set::new(|x: u64| born_in(w0, x)) =~= Set::<u64>::empty());
}

/// After reconciling a window of deletions of `roots`, the reference numbers left
/// in the window are a deletion closure of the roots.
#[verifier::rlimit(40)]
proof fn lemma_expanded_deletions<R: MembershipResolver>(
    res: R,
    w0: Map<u32, Vec<EleOperationData>>,
    w1: Map<u32, Vec<EleOperationData>>,
    roots: Set<u64>,
    base: i32,
    target: u32,
    t: i32,
    rec: MemberReconciliation,
    out: Set<u64>,
)
    requires
        t >= 0,
        target == t as u32,
        forall|s: u32| #[trigger] w0.contains_key(s) ==> s == target,
        w0.contains_key(target),
        forall|k: int| 0 <= k < w0[target]@.len() ==> roots.contains((#[trigger] w0[target]@[k]).refno) && w0[target]@[k].detail
            == EleOperationDetail::Deleted,
        forall|x: u64| #[trigger] roots.contains(x) ==> exists|k: int| 0 <= k < w0[target]@.len() && w0[target]@[k].refno == x,
        reconciled_by_closure(res, w0, w1, base, t, rec),
        out == Set::new(|x: u64| window_any(w1, |op: EleOperationData| op.refno == x)),
    ensures
        is_deletion_closure(res, roots, Set::<u64>::empty(), base, t, out),
{
    lemma_deletion_window(res, w0, roots, target, t);
    let (dead, rank) = choose|dead: Set<u64>, rank: Map<u64, nat>| #[trigger] reconciliation_holds(res, w0, w1, base, t, dead, rank, rec);
    assert(member_closure(res, roots, Set::<u64>::empty(), base, t, dead, rank));
    assert forall|k: int| 0 <= k < w0[target]@.len() implies dead.contains((#[trigger] w0[target]@[k]).refno) by {
        assert(roots.contains(w0[target]@[k].refno));
    }
    lemma_keep_live_all_dead(w0[target]@, dead);
    assert forall|x: u64| #![auto] out.contains(x) == dead.contains(x) by {
        if dead.is_empty() {
            if out.contains(x) {
                let (s, j) = choose|s: u32, j: int| #[trigger] in_window(w1, s, j) && w1[s]@[j].refno == x;
                assert(in_window(w0, s, j));
                assert(s == target);
                assert(roots.contains(w0[target]@[j].refno));
            }
        } else {
            assert(reconciled_window(w0, w1, dead, Set::<u64>::empty(), target));
            let d = choose|d: Seq<EleOperationData>| #[trigger] deletion_run(d, dead.difference(Set::<u64>::empty()), target)
                && w1[target]@ == keep_live(w0[target]@, dead) + d;
            assert(w1[target]@ =~= d);
            if out.contains(x) {
                let (s, j) = choose|s: u32, j: int| #[trigger] in_window(w1, s, j) && w1[s]@[j].refno == x;
                if s != target {
                    assert(!w0.contains_key(s));
                }
                assert(d[j].refno == x);
                assert(dead.difference(Set::<u64>::empty()).contains(d[j].refno));
            }
            if dead.contains(x) {
                assert(dead.difference(Set::<u64>::empty()).contains(x));
                let j = choose|j: int| 0 <= j < d.len() && d[j].refno == x;
                assert(in_window(w1, target, j));
                assert(window_any(w1, |op: EleOperationData| op.refno == x));
            }
        }
    }
    assert(out =~= dead);
    assert(member_closure(res, roots, Set::<u64>::empty(), base, t, out, rank));
}

/// Maintenance audit: expands roots already known to be unreachable into the full
/// deletion set over the base session's member tree of a file image, as
/// reconciliation does for the window's own deletions.
pub fn expand_deleted_membership_roots(
    io: &PdmsIO,
    roots: &BTreeSet<u64>,
    base_sesno: i32,
    target_sesno: i32,
) -> (r: Result<BTreeSet<u64>, ResolveError>)
    ensures
        target_sesno < 0 ==> r == Err::<BTreeSet<u64>, ResolveError>(ResolveError::InvalidSession { sesno: target_sesno }),
        r matches Ok(dead) ==> is_deletion_closure(
            pdms_members(io),
            roots@,
            Set::<u64>::empty(),
            base_sesno,
            target_sesno,
            dead@,
        ),
        r matches Err(e) ==> member_error(pdms_members(io), e, base_sesno, target_sesno) || (target_sesno < 0 && e == (ResolveError::InvalidSession { sesno: target_sesno }))
            || (e matches ResolveError::MissingAtBase { refno, sesno } && sesno == base_sesno && io_member_record(*io, refno, sesno)
            == Some(None::<EleView>)),
        target_sesno >= 0 ==> (r matches Err(e) ==> expansion_failure(
            pdms_members(io),
            roots@,
            Set::<u64>::empty(),
            base_sesno,
            target_sesno,
            e,
        )),
        r matches Ok(dead) ==> roots@.subset_of(dead@) && forall|x: u64| #[trigger] dead@.contains(x) ==> io_member_record(
            *io,
            x,
            base_sesno,
        ) matches Some(Some(_)),
{
    broadcast use crate::order::group_key_order;

    if target_sesno < 0 {
        return Err(ResolveError::InvalidSession { sesno: target_sesno });
    }
    let target = target_sesno as u32;
    let root_list = set_elements(roots);
    let mut ops: Vec<EleOperationData> = Vec::new();
    let mut i: usize = 0;
    while i < root_list.len()
        invariant
            i <= root_list.len(),
            ops@.len() == i,
            forall|k: int| 0 <= k < i ==> (#[trigger] ops@[k]).refno == root_list@[k] && ops@[k].sesno == target
                && ops@[k].detail == EleOperationDetail::Deleted,
        decreases root_list.len() - i,
    {
        ops.push(EleOperationData::new(root_list[i], target, EleOperationDetail::Deleted));
        i += 1;
    }
    let mut window: BTreeMap<u32, Vec<EleOperationData>> = BTreeMap::new();
    window.insert(target, ops);
    let ghost w0 = window@;
    let mut members = PdmsMembershipResolver::new(io);
    let ghost res = members;
    proof {
        assert forall|x: u64| #[trigger] roots@.contains(x) implies exists|k: int| 0 <= k < w0[target]@.len() && w0[target]@[k].refno == x by {
            let k = choose|k: int| 0 <= k < root_list@.len() && root_list@[k] == x;
            assert(w0[target]@[k].refno == x);
        }
        lemma_deletion_window(res, w0, roots@, target, target_sesno);
    }
    proof {
        assert forall|o: u64| !#[trigger] owner_lookup_fails(res, w0, o, target_sesno) by {
            if add_owner(w0, o) {
                let x = choose|x: u64| #[trigger] owned_add_in(w0, x, o);
                let (s, j) = choose|s: u32, j: int| #[trigger] in_window(w0, s, j) && op_owned_add(w0[s]@[j], x, o);
                assert(s == target);
            }
        }
        assert forall|x: u64| !#[trigger] checked_candidate(res, w0, x, target_sesno) by {
            if removed_in(w0, x) {
                let (s, j) = choose|s: u32, j: int| #[trigger] in_window(w0, s, j) && op_removes(w0[s]@[j], x);
                assert(s == target);
            }
        }
    }
    let rec = match reconcile_member_deletions(&mut window, Some(base_sesno), target_sesno, &mut members) {
        Ok(rec) => rec,
        Err(e) => {
            return Err(e);
        },
    };
    let out = window_refnos(&window);
    proof {
        assert(base_or_zero(Some(base_sesno)) == base_sesno);
        assert forall|x: u64| #[trigger] roots@.contains(x) implies exists|k: int| 0 <= k < w0[target]@.len() && w0[target]@[k].refno == x by {
            let k = choose|k: int| 0 <= k < root_list@.len() && root_list@[k] == x;
            assert(w0[target]@[k].refno == x);
        }
        lemma_expanded_deletions(res, w0, window@, roots@, base_sesno, target, target_sesno, rec, out@);
        let rank = choose|rank: Map<u64, nat>| #[trigger] member_closure(res, roots@, Set::<u64>::empty(), base_sesno, target_sesno, out@, rank);
        assert forall|x: u64| #[trigger] out@.contains(x) implies io_member_record(*io, x, base_sesno) matches Some(Some(_)) by {
            assert(expand_error(res, x, base_sesno, target_sesno, Set::<u64>::empty().contains(x)) is None);
        }
    }
    Ok(out)
}

/// Synthesis over in-memory records with the fixed test token.
pub fn synthesize_net_window(net: NetChangeSet, records: &mut MemRecords) -> (r: Result<NetWindowOutcome, ResolveError>)
    ensures
        forall|q: RecordLoc| #[trigger] final(records).resolves(q) == old(records).resolves(q),
        r is Ok <==> synth_ok(*old(records), net),
        r matches Ok(o) ==> (o.snapshot_token matches Some(tk) && synthesis_holds(*old(records), net, tk, o)),
        r matches Err(e) ==> synth_error(*old(records), net) == Some(e),
{
    synthesize_net_window_with_resolver(net, SnapshotToken::for_test(), records)
}

} // verus!
