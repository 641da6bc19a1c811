//! A frozen view of one database file generation: the token proving which file
//! handle and which session a result was computed from, and the checks that bind a
//! reopened file to that token.
use vstd::prelude::*;
use vstd::std_specs::iter::IteratorSpec;
use vstd::string::StringExecFns;

use std::collections::{BTreeMap, BTreeSet};
use std::ops::RangeInclusive;

use crate::io::{chain_error, chain_maps, ses_page_at, EleView, IoError, PdmsIO};
use crate::net_window::{
    expand_deleted_membership_roots, expansion_failure, io_member_record, is_deletion_closure, member_alive_at, member_error,
    set_elements, target_member, target_member_result,
    pdms_members, ResolveError,
};
use crate::point_search::point_loc;
use crate::text::{decimal_spec, push_decimal, push_signed, signed_spec};

verus! {

/// Platform identity of an open file that survives appends but not replacement.
#[derive(Debug, Clone, Copy, PartialEq, Eq, Structural)]
pub enum StableFileId {
    Windows { volume_serial: u32, file_index: u64 },
    Unix { device: u64, inode: u64 },
}

/// Proof that metadata, header and session state came from one open file handle.
/// Fields are private so callers cannot assemble a token from independent reads.
#[derive(Debug)]
pub struct SnapshotToken {
    path: String,
    file_id: StableFileId,
    dbnum: i32,
    db_type: String,
    target_sesno: u32,
    latest_ses_pgno: u32,
    opened_len: u64,
    header_prefix: Vec<u8>,
}

/// Spec view of a token.
pub struct TokenView {
    pub path: Seq<char>,
    pub file_id: StableFileId,
    pub dbnum: i32,
    pub db_type: Seq<char>,
    pub target_sesno: u32,
    pub latest_ses_pgno: u32,
    pub opened_len: u64,
    pub header_prefix: Seq<u8>,
}

impl View for SnapshotToken {
    type V = TokenView;

    closed spec fn view(&self) -> TokenView {
        TokenView {
            path: self.path@,
            file_id: self.file_id,
            dbnum: self.dbnum,
            db_type: self.db_type@,
            target_sesno: self.target_sesno,
            latest_ses_pgno: self.latest_ses_pgno,
            opened_len: self.opened_len,
            header_prefix: self.header_prefix@,
        }
    }
}

/// Copies a byte string.
pub fn copy_bytes(a: &Vec<u8>) -> (r: Vec<u8>)
    ensures
        r@ == a@,
{
    let mut r: Vec<u8> = Vec::new();
    let mut i: usize = 0;
    while i < a.len()
        invariant
            i <= a.len(),
            r@ == a@.take(i as int),
        decreases a.len() - i,
    {
        r.push(a[i]);
        i += 1;
        assert(r@ == a@.take(i as int));
    }
    assert(a@.take(i as int) == a@);
    r
}

impl SnapshotToken {
    /// A token for the given file generation.
    pub fn new(
        path: String,
        file_id: StableFileId,
        dbnum: i32,
        db_type: String,
        target_sesno: u32,
        latest_ses_pgno: u32,
        opened_len: u64,
        header_prefix: Vec<u8>,
    ) -> (r: SnapshotToken)
        ensures
            r@.path == path@,
            r@.file_id == file_id,
            r@.dbnum == dbnum,
            r@.db_type == db_type@,
            r@.target_sesno == target_sesno,
            r@.latest_ses_pgno == latest_ses_pgno,
            r@.opened_len == opened_len,
            r@.header_prefix == header_prefix@,
    {
        SnapshotToken { path, file_id, dbnum, db_type, target_sesno, latest_ses_pgno, opened_len, header_prefix }
    }

    /// The path the file was opened by.
    pub fn path(&self) -> (r: &str)
        ensures
            r@ == self@.path,
    {
        self.path.as_str()
    }

    pub fn dbnum(&self) -> (r: i32)
        ensures
            r == self@.dbnum,
    {
        self.dbnum
    }

    pub fn db_type(&self) -> (r: &str)
        ensures
            r@ == self@.db_type,
    {
        self.db_type.as_str()
    }

    pub fn target_sesno(&self) -> (r: u32)
        ensures
            r == self@.target_sesno,
    {
        self.target_sesno
    }

    pub fn opened_len(&self) -> (r: u64)
        ensures
            r == self@.opened_len,
    {
        self.opened_len
    }

    pub fn latest_ses_pgno(&self) -> (r: u32)
        ensures
            r == self@.latest_ses_pgno,
    {
        self.latest_ses_pgno
    }

    pub fn file_id(&self) -> (r: StableFileId)
        ensures
            r == self@.file_id,
    {
        self.file_id
    }

    /// The frozen header bytes.
    pub fn header_prefix(&self) -> (r: &Vec<u8>)
        ensures
            r@ == self@.header_prefix,
    {
        &self.header_prefix
    }

    /// A copy of the token.
    pub fn duplicate(&self) -> (r: SnapshotToken)
        ensures
            r@ == self@,
    {
        SnapshotToken {
            path: self.path.clone(),
            file_id: self.file_id,
            dbnum: self.dbnum,
            db_type: self.db_type.clone(),
            target_sesno: self.target_sesno,
            latest_ses_pgno: self.latest_ses_pgno,
            opened_len: self.opened_len,
            header_prefix: copy_bytes(&self.header_prefix),
        }
    }

    /// A fixed token for tests: `test.db`, file 1/1, database 1 of type `DESI`,
    /// frozen at session 30.
    pub fn for_test() -> (r: SnapshotToken)
        ensures
            r@.dbnum == 1,
            r@.target_sesno == 30,
            r@.latest_ses_pgno == 1,
            r@.opened_len == 0,
            r@.header_prefix.len() == 60,
    {
        let mut prefix: Vec<u8> = Vec::new();
        let mut i: usize = 0;
        while i < 60
            invariant
                i <= 60,
                prefix@.len() == i,
            decreases 60 - i,
        {
            prefix.push(0u8);
            i += 1;
        }
        SnapshotToken {
            path: "test.db".to_owned(),
            file_id: StableFileId::Unix { device: 1, inode: 1 },
            dbnum: 1,
            db_type: "DESI".to_owned(),
            target_sesno: 30,
            latest_ses_pgno: 1,
            opened_len: 0,
            header_prefix: prefix,
        }
    }
}

/// Why a snapshot could not be opened, narrowed or used.
#[derive(Debug, Clone, Copy, PartialEq, Eq, Structural)]
pub enum SnapshotError {
    /// The file image could not be opened (header or session chain unreadable).
    Open { error: IoError },
    /// The latest session page named by the header could not be read.
    NoLatestSession { error: IoError },
    /// The file has no session with this number.
    MissingTargetSession { sesno: u32 },
    /// The requested session lies beyond the frozen one.
    TargetBeyondFrozen { requested: u32, frozen: u32 },
    /// A membership target session is negative or lies beyond the frozen one.
    MembershipTargetOutOfRange { sesno: i32, frozen: u32 },
    /// The path names another file than the one the snapshot was frozen from.
    FileReplaced,
    /// Database number or type differ from the frozen token.
    IdentityDrift,
    /// The file's latest session went back behind the frozen one.
    SessionRegressed { frozen: u32, current: u32 },
    /// The file became shorter than the frozen length.
    LengthRegressed { frozen: u64, current: u64 },
    /// The reopened generation lacks the frozen session.
    FrozenSessionMissing { sesno: u32 },
    /// The frozen image is shorter than the frozen header.
    ShortImage { len: usize, header_len: usize },
    /// A membership lookup failed.
    Lookup { error: ResolveError },
}

/// The message of a snapshot error.
pub open spec fn snapshot_message(e: SnapshotError) -> Seq<char> {
    match e {
        SnapshotError::Open { error } => "打开 dabacon 快照失败"@,
        SnapshotError::NoLatestSession { error } => "dabacon 快照读不到最新会话"@,
        SnapshotError::MissingTargetSession { sesno } => "dabacon 快照缺少目标会话 "@ + decimal_spec(sesno as nat),
        SnapshotError::TargetBeyondFrozen { requested, frozen } => "请求会话 "@ + decimal_spec(requested as nat) + " 超过快照冻结会话 "@
            + decimal_spec(frozen as nat),
        SnapshotError::MembershipTargetOutOfRange { sesno, frozen } => "membership target sesno "@ + signed_spec(sesno as int)
            + " exceeds frozen target "@ + decimal_spec(frozen as nat),
        SnapshotError::FileReplaced => "dabacon 路径已指向另一文件（冻结身份不匹配）"@,
        SnapshotError::IdentityDrift => "dabacon 文件身份字段漂移"@,
        SnapshotError::SessionRegressed { frozen, current } => "dabacon 会话从冻结值 "@ + decimal_spec(frozen as nat) + " 回退到 "@
            + decimal_spec(current as nat),
        SnapshotError::LengthRegressed { frozen, current } => "dabacon 文件长度从冻结值 "@ + decimal_spec(frozen as nat) + " 回退到 "@
            + decimal_spec(current as nat),
        SnapshotError::FrozenSessionMissing { sesno } => "dabacon 当前世代缺少冻结会话 "@ + decimal_spec(sesno as nat),
        SnapshotError::ShortImage { len, header_len } => "冻结 dabacon 长度 "@ + decimal_spec(len as nat) + " 小于文件头 "@
            + decimal_spec(header_len as nat),
        SnapshotError::Lookup { error } => crate::net_window::resolve_message(error),
    }
}

impl SnapshotError {
    /// The error as text.
    pub fn message(&self) -> (s: String)
        ensures
            s@ == snapshot_message(*self),
    {
        let mut s = String::new();
        match *self {
            SnapshotError::Open { error: _ } => {
                s.append("打开 dabacon 快照失败");
            },
            SnapshotError::NoLatestSession { error: _ } => {
                s.append("dabacon 快照读不到最新会话");
            },
            SnapshotError::MissingTargetSession { sesno } => {
                s.append("dabacon 快照缺少目标会话 ");
                push_decimal(&mut s, sesno as u64);
            },
            SnapshotError::TargetBeyondFrozen { requested, frozen } => {
                s.append("请求会话 ");
                push_decimal(&mut s, requested as u64);
                s.append(" 超过快照冻结会话 ");
                push_decimal(&mut s, frozen as u64);
            },
            SnapshotError::MembershipTargetOutOfRange { sesno, frozen } => {
                s.append("membership target sesno ");
                push_signed(&mut s, sesno);
                s.append(" exceeds frozen target ");
                push_decimal(&mut s, frozen as u64);
            },
            SnapshotError::FileReplaced => {
                s.append("dabacon 路径已指向另一文件（冻结身份不匹配）");
            },
            SnapshotError::IdentityDrift => {
                s.append("dabacon 文件身份字段漂移");
            },
            SnapshotError::SessionRegressed { frozen, current } => {
                s.append("dabacon 会话从冻结值 ");
                push_decimal(&mut s, frozen as u64);
                s.append(" 回退到 ");
                push_decimal(&mut s, current as u64);
            },
            SnapshotError::LengthRegressed { frozen, current } => {
                s.append("dabacon 文件长度从冻结值 ");
                push_decimal(&mut s, frozen);
                s.append(" 回退到 ");
                push_decimal(&mut s, current);
            },
            SnapshotError::FrozenSessionMissing { sesno } => {
                s.append("dabacon 当前世代缺少冻结会话 ");
                push_decimal(&mut s, sesno as u64);
            },
            SnapshotError::ShortImage { len, header_len } => {
                s.append("冻结 dabacon 长度 ");
                push_decimal(&mut s, len as u64);
                s.append(" 小于文件头 ");
                push_decimal(&mut s, header_len as u64);
            },
            SnapshotError::Lookup { error } => {
                let m = error.message();
                s.append(m.as_str());
            },
        }
        proof {
            assert(s@ =~= snapshot_message(*self));
        }
        s
    }
}

/// The image `s` is `io` opened: same pages, records and header, session maps
/// built from the session chain, database number from the header.
pub open spec fn opened(io: PdmsIO, s: PdmsIO) -> bool {
    &&& io.header is Some
    &&& s.header == io.header
    &&& s.session_pages@ == io.session_pages@
    &&& s.index_pages@ == io.index_pages@
    &&& s.records@ == io.records@
    &&& s.identities@ == io.identities@
    &&& chain_maps(io.session_pages@, io.header->0.latest_ses_pgno, Map::empty(), Map::empty()) == Some(
        (s.sesno_pgno_map@, s.ses_range_map@),
    )
    &&& s.dbnum == io.header->0.db_num
}

/// The image opens and names a readable latest session page.
pub open spec fn open_ok(io: PdmsIO) -> bool {
    &&& io.header is Some
    &&& chain_maps(io.session_pages@, io.header->0.latest_ses_pgno, Map::empty(), Map::empty()) is Some
    &&& ses_page_at(io.session_pages@, io.header->0.latest_ses_pgno) is Some
}

/// Why an image that does not open is refused: no header, the error the session
/// chain meets, or an unreadable latest session page.
pub open spec fn open_error(io: PdmsIO) -> SnapshotError {
    match io.header {
        None => SnapshotError::Open { error: IoError::NoHeader },
        Some(h) => match chain_error(io.session_pages@, h.latest_ses_pgno) {
            Some(e) => SnapshotError::Open { error: e },
            None => SnapshotError::NoLatestSession { error: IoError::UnreadableSessionPage { pgno: h.latest_ses_pgno } },
        },
    }
}

/// Why a reopened image is refused against a token, checks in order: the image
/// must open, be the same file, the same database, reach the frozen session, not
/// be shorter, and still hold the frozen session. `None` when it passes.
pub open spec fn reopen_error(io: PdmsIO, file_id: StableFileId, opened_len: u64, db_type: Seq<char>, token: TokenView) -> Option<
    SnapshotError,
> {
    if !open_ok(io) {
        Some(open_error(io))
    } else if file_id != token.file_id {
        Some(SnapshotError::FileReplaced)
    } else if !(io.header->0.db_num == token.dbnum && db_type == token.db_type) {
        Some(SnapshotError::IdentityDrift)
    } else if latest_sesno(io) < token.target_sesno {
        Some(SnapshotError::SessionRegressed { frozen: token.target_sesno, current: latest_sesno(io) })
    } else if opened_len < token.opened_len {
        Some(SnapshotError::LengthRegressed { frozen: token.opened_len, current: opened_len })
    } else if !opened_sessions(io).contains_key(token.target_sesno as i32) {
        Some(SnapshotError::FrozenSessionMissing { sesno: token.target_sesno })
    } else {
        None
    }
}

/// Session number → session page of the opened image.
pub open spec fn opened_sessions(io: PdmsIO) -> Map<i32, u32> {
    match chain_maps(io.session_pages@, io.header->0.latest_ses_pgno, Map::empty(), Map::empty()) {
        Some(p) => p.0,
        None => Map::empty(),
    }
}

/// The session number of the latest session page named by the header.
pub open spec fn latest_sesno(io: PdmsIO) -> u32 {
    ses_page_at(io.session_pages@, io.header->0.latest_ses_pgno)->0.sesno as u32
}

/// The token of a freshly opened file generation.
pub open spec fn fresh_token(
    io: PdmsIO,
    path: Seq<char>,
    file_id: StableFileId,
    opened_len: u64,
    header_prefix: Seq<u8>,
    db_type: Seq<char>,
) -> TokenView {
    TokenView {
        path,
        file_id,
        dbnum: io.header->0.db_num,
        db_type,
        target_sesno: latest_sesno(io),
        latest_ses_pgno: io.header->0.latest_ses_pgno,
        opened_len,
        header_prefix,
    }
}

/// `s` lies in the range: from its start up to its end, which is excluded once the
/// range has been iterated to exhaustion.
pub open spec fn in_sesno_range(range: RangeInclusive<i32>, s: i32) -> bool {
    range@.start <= s && if range@.exhausted {
        s < range@.end
    } else {
        s <= range@.end
    }
}

/// Whether the range holds `s`.
fn range_holds(range: &RangeInclusive<i32>, s: i32) -> (r: bool)
    ensures
        r == in_sesno_range(*range, s),
{
    broadcast use crate::order::group_key_order;

    range.contains(&s)
}

/// An authoritative snapshot: one opened file image and the token of its generation.
pub struct DabaconSnapshot {
    io: PdmsIO,
    token: SnapshotToken,
}

impl DabaconSnapshot {
    /// The file image.
    pub closed spec fn io_view(&self) -> PdmsIO {
        self.io
    }

    /// The token of the frozen generation.
    pub closed spec fn token_view(&self) -> TokenView {
        self.token@
    }

    /// Opens a decoded file image and freezes its latest session. `file_id`,
    /// `opened_len` and `header_prefix` are what the open file handle reported;
    /// `db_type` is the database type named by the header's noun.
    pub fn open(
        io: PdmsIO,
        path: String,
        file_id: StableFileId,
        opened_len: u64,
        header_prefix: Vec<u8>,
        db_type: String,
    ) -> (r: Result<DabaconSnapshot, SnapshotError>)
        ensures
            r is Ok <==> open_ok(io),
            r matches Ok(s) ==> opened(io, s.io_view()) && s.token_view() == fresh_token(
                io,
                path@,
                file_id,
                opened_len,
                header_prefix@,
                db_type@,
            ),
            r matches Err(e) ==> e == open_error(io),
    {
        let ghost io0 = io;
        let mut io = io;
        match io.open() {
            Ok(()) => {},
            Err(error) => {
                return Err(SnapshotError::Open { error });
            },
        }
        let header = match io.read_pdms_header() {
            Ok(h) => h,
            Err(error) => {
                return Err(SnapshotError::Open { error });
            },
        };
        let target_sesno = match io.get_latest_att_sesno() {
            Ok(s) => s,
            Err(error) => {
                return Err(SnapshotError::NoLatestSession { error });
            },
        };
        io.dbnum = header.db_num;
        let token = SnapshotToken::new(
            path,
            file_id,
            header.db_num,
            db_type,
            target_sesno,
            header.latest_ses_pgno,
            opened_len,
            header_prefix,
        );
        let s = DabaconSnapshot { io, token };
        proof {
            assert(opened(io0, s.io));
        }
        Ok(s)
    }

    /// Narrows the frozen session to an earlier one the file holds.
    pub fn freeze_target(&mut self, target_sesno: u32) -> (r: Result<(), SnapshotError>)
        ensures
            final(self).io_view() == old(self).io_view(),
            !old(self).io_view().sesno_pgno_map@.contains_key(target_sesno as i32) ==> r == Err::<(), SnapshotError>(
                SnapshotError::MissingTargetSession { sesno: target_sesno },
            ),
            old(self).io_view().sesno_pgno_map@.contains_key(target_sesno as i32) && target_sesno > old(self).token_view().target_sesno
                ==> r == Err::<(), SnapshotError>(
                SnapshotError::TargetBeyondFrozen { requested: target_sesno, frozen: old(self).token_view().target_sesno },
            ),
            r is Err ==> final(self).token_view() == old(self).token_view(),
            r is Ok <==> old(self).io_view().sesno_pgno_map@.contains_key(target_sesno as i32) && target_sesno
                <= old(self).token_view().target_sesno,
            r is Ok ==> final(self).token_view() == (TokenView {
                target_sesno: target_sesno,
                latest_ses_pgno: old(self).io_view().sesno_pgno_map@[target_sesno as i32],
                ..old(self).token_view()
            }),
    {
        let pgno = match self.io.get_ses_pageno(target_sesno as i32) {
            Some(p) => p,
            None => {
                return Err(SnapshotError::MissingTargetSession { sesno: target_sesno });
            },
        };
        if target_sesno > self.token.target_sesno {
            return Err(SnapshotError::TargetBeyondFrozen { requested: target_sesno, frozen: self.token.target_sesno });
        }
        self.token.target_sesno = target_sesno;
        self.token.latest_ses_pgno = pgno;
        Ok(())
    }

    /// Opens a decoded file image and freezes an explicit historical session.
    pub fn open_at(
        io: PdmsIO,
        path: String,
        file_id: StableFileId,
        opened_len: u64,
        header_prefix: Vec<u8>,
        db_type: String,
        target_sesno: u32,
    ) -> (r: Result<DabaconSnapshot, SnapshotError>)
        ensures
            !open_ok(io) ==> r is Err,
            r matches Ok(s) ==> opened(io, s.io_view()) && s.io_view().sesno_pgno_map@.contains_key(target_sesno as i32)
                && target_sesno <= latest_sesno(io) && s.token_view() == (TokenView {
                target_sesno: target_sesno,
                latest_ses_pgno: s.io_view().sesno_pgno_map@[target_sesno as i32],
                ..fresh_token(io, path@, file_id, opened_len, header_prefix@, db_type@)
            }),
            open_ok(io) ==> (r is Ok <==> opened_sessions(io).contains_key(target_sesno as i32) && target_sesno <= latest_sesno(io)),
            !open_ok(io) ==> r == Err::<DabaconSnapshot, SnapshotError>(open_error(io)),
            open_ok(io) && !opened_sessions(io).contains_key(target_sesno as i32) ==> r == Err::<DabaconSnapshot, SnapshotError>(
                SnapshotError::MissingTargetSession { sesno: target_sesno },
            ),
            open_ok(io) && opened_sessions(io).contains_key(target_sesno as i32) && target_sesno > latest_sesno(io) ==> r == Err::<
                DabaconSnapshot,
                SnapshotError,
            >(SnapshotError::TargetBeyondFrozen { requested: target_sesno, frozen: latest_sesno(io) }),
    {
        let mut snapshot = match DabaconSnapshot::open(io, path, file_id, opened_len, header_prefix, db_type) {
            Ok(s) => s,
            Err(e) => {
                return Err(e);
            },
        };
        match snapshot.freeze_target(target_sesno) {
            Ok(()) => Ok(snapshot),
            Err(e) => Err(e),
        }
    }

    /// Reopens the file named by `token` from a freshly decoded image and proves it
    /// is the same file generation: same file identity, database number and type,
    /// no session or length regression, and the frozen session still present. The
    /// result stays bound to the frozen token (a later appended session is
    /// accepted, but not used).
    pub fn open_verified(
        io: PdmsIO,
        file_id: StableFileId,
        opened_len: u64,
        header_prefix: Vec<u8>,
        db_type: String,
        token: &SnapshotToken,
    ) -> (r: Result<DabaconSnapshot, SnapshotError>)
        ensures
            r is Ok <==> open_ok(io) && file_id == token@.file_id && io.header->0.db_num == token@.dbnum && db_type@
                == token@.db_type && latest_sesno(io) >= token@.target_sesno && opened_len >= token@.opened_len
                && opened_sessions(io).contains_key(token@.target_sesno as i32),
            r matches Ok(s) ==> opened(io, s.io_view()) && s.token_view() == token@,
            match reopen_error(io, file_id, opened_len, db_type@, token@) {
                Some(e) => r == Err::<DabaconSnapshot, SnapshotError>(e),
                None => r is Ok,
            },
    {
        let snapshot = match DabaconSnapshot::open(io, token.path.clone(), file_id, opened_len, header_prefix, db_type) {
            Ok(s) => s,
            Err(e) => {
                return Err(e);
            },
        };
        if snapshot.token.file_id != token.file_id {
            return Err(SnapshotError::FileReplaced);
        }
        if !(snapshot.token.dbnum == token.dbnum && crate::io::str_eq(snapshot.token.db_type.as_str(), token.db_type.as_str())) {
            return Err(SnapshotError::IdentityDrift);
        }
        if snapshot.token.target_sesno < token.target_sesno {
            return Err(SnapshotError::SessionRegressed { frozen: token.target_sesno, current: snapshot.token.target_sesno });
        }
        if snapshot.token.opened_len < token.opened_len {
            return Err(SnapshotError::LengthRegressed { frozen: token.opened_len, current: snapshot.token.opened_len });
        }
        if snapshot.io.get_ses_pageno(token.target_sesno as i32).is_none() {
            return Err(SnapshotError::FrozenSessionMissing { sesno: token.target_sesno });
        }
        Ok(DabaconSnapshot { io: snapshot.io, token: token.duplicate() })
    }

    /// Reopens the generation of `token` and narrows it to a session no newer than
    /// the frozen one.
    pub fn open_verified_at(
        io: PdmsIO,
        file_id: StableFileId,
        opened_len: u64,
        header_prefix: Vec<u8>,
        db_type: String,
        token: &SnapshotToken,
        target_sesno: u32,
    ) -> (r: Result<DabaconSnapshot, SnapshotError>)
        ensures
            target_sesno > token@.target_sesno ==> r == Err::<DabaconSnapshot, SnapshotError>(
                SnapshotError::TargetBeyondFrozen { requested: target_sesno, frozen: token@.target_sesno },
            ),
            r matches Ok(s) ==> opened(io, s.io_view()) && file_id == token@.file_id && s.io_view().sesno_pgno_map@.contains_key(
                target_sesno as i32,
            ) && s.token_view() == (TokenView {
                target_sesno: target_sesno,
                latest_ses_pgno: s.io_view().sesno_pgno_map@[target_sesno as i32],
                ..token@
            }),
            target_sesno <= token@.target_sesno ==> match reopen_error(io, file_id, opened_len, db_type@, token@) {
                Some(e) => r == Err::<DabaconSnapshot, SnapshotError>(e),
                None => if opened_sessions(io).contains_key(target_sesno as i32) {
                    r is Ok
                } else {
                    r == Err::<DabaconSnapshot, SnapshotError>(SnapshotError::MissingTargetSession { sesno: target_sesno })
                },
            },
    {
        if target_sesno > token.target_sesno {
            return Err(SnapshotError::TargetBeyondFrozen { requested: target_sesno, frozen: token.target_sesno });
        }
        let mut snapshot = match DabaconSnapshot::open_verified(io, file_id, opened_len, header_prefix, db_type, token) {
            Ok(s) => s,
            Err(e) => {
                return Err(e);
            },
        };
        match snapshot.freeze_target(target_sesno) {
            Ok(()) => Ok(snapshot),
            Err(e) => Err(e),
        }
    }

    /// The token of the frozen generation.
    pub fn token(&self) -> (r: &SnapshotToken)
        ensures
            r@ == self.token_view(),
    {
        &self.token
    }

    /// Mutable access to the file image; the token stays as it is.
    pub fn io_mut(&mut self) -> (r: &mut PdmsIO)
        ensures
            *r == old(self).io_view(),
            final(self).io_view() == *final(r),
            final(self).token_view() == old(self).token_view(),
    {
        &mut self.io
    }

    /// The file image.
    pub fn io(&self) -> (r: &PdmsIO)
        ensures
            *r == self.io_view(),
    {
        &self.io
    }

    /// Checks that the path still names the file this snapshot was opened from,
    /// given the identity the path reports now: growth is accepted, replacement
    /// by another file is not.
    pub fn verify_path_identity(&self, observed: StableFileId) -> (r: Result<(), SnapshotError>)
        ensures
            r is Ok <==> observed == self.token_view().file_id,
            r is Err ==> r == Err::<(), SnapshotError>(SnapshotError::FileReplaced),
    {
        if observed == self.token.file_id {
            Ok(())
        } else {
            Err(SnapshotError::FileReplaced)
        }
    }

    /// Which of the candidates the point search finds at a session no newer than
    /// the frozen one, on a file whose identity still matches.
    pub fn contains_refnos_at(
        &self,
        target_sesno: u32,
        candidates: &BTreeSet<u64>,
        observed: StableFileId,
    ) -> (r: Result<BTreeSet<u64>, SnapshotError>)
        ensures
            target_sesno > self.token_view().target_sesno ==> r == Err::<BTreeSet<u64>, SnapshotError>(
                SnapshotError::TargetBeyondFrozen { requested: target_sesno, frozen: self.token_view().target_sesno },
            ),
            target_sesno <= self.token_view().target_sesno && observed != self.token_view().file_id ==> r == Err::<
                BTreeSet<u64>,
                SnapshotError,
            >(SnapshotError::FileReplaced),
            r is Ok <==> target_sesno <= self.token_view().target_sesno && observed == self.token_view().file_id,
            r matches Ok(found) ==> found@ == candidates@.filter(|c: u64| point_loc(self.io_view(), c, Some(target_sesno)) is Some),
    {
        broadcast use crate::order::group_key_order;

        if target_sesno > self.token.target_sesno {
            return Err(SnapshotError::TargetBeyondFrozen { requested: target_sesno, frozen: self.token.target_sesno });
        }
        match self.verify_path_identity(observed) {
            Ok(()) => {},
            Err(e) => {
                return Err(e);
            },
        }
        let list = set_elements(candidates);
        let mut found: BTreeSet<u64> = BTreeSet::new();
        let mut i: usize = 0;
        while i < list.len()
            invariant
                i <= list.len(),
                forall|k: int| 0 <= k < list@.len() ==> candidates@.contains(#[trigger] list@[k]),
                forall|x: u64| #[trigger] found@.contains(x) ==> candidates@.contains(x) && point_loc(self.io, x, Some(target_sesno)) is Some,
                forall|k: int| 0 <= k < i && point_loc(self.io, #[trigger] list@[k], Some(target_sesno)) is Some ==> found@.contains(list@[k]),
            decreases list.len() - i,
        {
            let x = list[i];
            if self.io.search_latest_refno(x, Some(target_sesno)).is_some() {
                found.insert(x);
            }
            i += 1;
        }
        proof {
            assert forall|x: u64| #![auto] found@.contains(x) == candidates@.filter(|c: u64| point_loc(self.io, c, Some(target_sesno)) is Some).contains(x) by {
                if candidates@.contains(x) && point_loc(self.io, x, Some(target_sesno)) is Some {
                    let k = choose|k: int| 0 <= k < list@.len() && list@[k] == x;
                    assert(found@.contains(list@[k]));
                }
            }
            assert(found@ =~= candidates@.filter(|c: u64| point_loc(self.io, c, Some(target_sesno)) is Some));
        }
        Ok(found)
    }

    /// Membership audit on the snapshot's generation: whether an element is still
    /// accepted by its owner's member list at a session no newer than the frozen one.
    pub fn member_alive_at(&self, refno: u64, target_sesno: i32, observed: StableFileId) -> (r: Result<bool, SnapshotError>)
        ensures
            !(target_sesno >= 0 && target_sesno as u32 <= self.token_view().target_sesno) ==> r == Err::<bool, SnapshotError>(
                SnapshotError::MembershipTargetOutOfRange { sesno: target_sesno, frozen: self.token_view().target_sesno },
            ),
            target_sesno >= 0 && target_sesno as u32 <= self.token_view().target_sesno && observed != self.token_view().file_id
                ==> r == Err::<bool, SnapshotError>(SnapshotError::FileReplaced),
            r matches Ok(b) ==> observed == self.token_view().file_id && b == target_member(
                pdms_members(&self.io_view()),
                refno,
                target_sesno,
            ),
            r matches Err(SnapshotError::Lookup { error }) ==> member_error(
                pdms_members(&self.io_view()),
                error,
                target_sesno,
                target_sesno,
            ),
            target_sesno >= 0 && target_sesno as u32 <= self.token_view().target_sesno && observed == self.token_view().file_id
                ==> match target_member_result(pdms_members(&self.io_view()), refno, target_sesno) {
                Ok(b) => r == Ok::<bool, SnapshotError>(b),
                Err(error) => r == Err::<bool, SnapshotError>(SnapshotError::Lookup { error }),
            },
    {
        if !(target_sesno >= 0 && (target_sesno as u32) <= self.token.target_sesno) {
            return Err(SnapshotError::MembershipTargetOutOfRange { sesno: target_sesno, frozen: self.token.target_sesno });
        }
        match self.verify_path_identity(observed) {
            Ok(()) => {},
            Err(e) => {
                return Err(e);
            },
        }
        match member_alive_at(&self.io, refno, target_sesno) {
            Ok(b) => Ok(b),
            Err(error) => Err(SnapshotError::Lookup { error }),
        }
    }

    /// Expands deleted membership roots on the snapshot's generation, at a session
    /// no newer than the frozen one.
    pub fn expand_deleted_membership_roots(
        &self,
        roots: &BTreeSet<u64>,
        base_sesno: i32,
        target_sesno: i32,
        observed: StableFileId,
    ) -> (r: Result<BTreeSet<u64>, SnapshotError>)
        ensures
            !(target_sesno >= 0 && target_sesno as u32 <= self.token_view().target_sesno) ==> r == Err::<BTreeSet<u64>, SnapshotError>(
                SnapshotError::MembershipTargetOutOfRange { sesno: target_sesno, frozen: self.token_view().target_sesno },
            ),
            target_sesno >= 0 && target_sesno as u32 <= self.token_view().target_sesno && observed != self.token_view().file_id
                ==> r == Err::<BTreeSet<u64>, SnapshotError>(SnapshotError::FileReplaced),
            r matches Ok(dead) ==> observed == self.token_view().file_id && is_deletion_closure(
                pdms_members(&self.io_view()),
                roots@,
                Set::<u64>::empty(),
                base_sesno,
                target_sesno,
                dead@,
            ),
            r matches Err(SnapshotError::Lookup { error }) ==> member_error(
                pdms_members(&self.io_view()),
                error,
                base_sesno,
                target_sesno,
            ) || (
            error matches ResolveError::MissingAtBase { refno, sesno } && sesno == base_sesno && io_member_record(
                self.io_view(),
                refno,
                sesno,
            ) == Some(None::<EleView>)),
            r matches Err(SnapshotError::Lookup { error }) ==> expansion_failure(
                pdms_members(&self.io_view()),
                roots@,
                Set::<u64>::empty(),
                base_sesno,
                target_sesno,
                error,
            ),
            r is Err ==> r matches Err(SnapshotError::MembershipTargetOutOfRange { .. }) || r matches Err(SnapshotError::FileReplaced)
                || r matches Err(SnapshotError::Lookup { .. }),
    {
        if !(target_sesno >= 0 && (target_sesno as u32) <= self.token.target_sesno) {
            return Err(SnapshotError::MembershipTargetOutOfRange { sesno: target_sesno, frozen: self.token.target_sesno });
        }
        match self.verify_path_identity(observed) {
            Ok(()) => {},
            Err(e) => {
                return Err(e);
            },
        }
        match expand_deleted_membership_roots(&self.io, roots, base_sesno, target_sesno) {
            Ok(d) => Ok(d),
            Err(error) => {
                proof {
                    assert(self.io == self.io_view());
                    assert(error != (ResolveError::InvalidSession { sesno: target_sesno }));
                }
                Err(SnapshotError::Lookup { error })
            },
        }
    }

    /// Session numbers of the file within `range`, in increasing order, without
    /// negative ones.
    pub fn session_sesnos_in_range(&self, range: RangeInclusive<i32>) -> (r: Vec<u32>)
        ensures
            forall|k: int| 0 <= k < r@.len() ==> {
                &&& #[trigger] r@[k] <= i32::MAX
                &&& self.io_view().sesno_pgno_map@.contains_key(r@[k] as i32)
                &&& in_sesno_range(range, r@[k] as i32)
            },
            forall|s: i32| #[trigger] self.io_view().sesno_pgno_map@.contains_key(s) && in_sesno_range(range, s) && s >= 0
                ==> r@.contains(s as u32),
            forall|a: int, b: int| 0 <= a < b < r@.len() ==> r@[a] < r@[b],
    {
        broadcast use crate::order::group_key_order;

        let mut r: Vec<u32> = Vec::new();
        let iter = self.io.sesno_pgno_map.iter();
        proof {
            crate::order::lemma_increasing_i32_keys(iter.remaining());
        }
        let ghost s0 = iter.remaining();
        for (sesno, _pgno) in it: iter
            invariant
                it.seq() == s0,
                forall|i: int| 0 <= i < s0.len() ==> self.io.sesno_pgno_map@.contains_key(*(#[trigger] s0[i]).0),
                forall|a: int, b: int| 0 <= a < b < s0.len() ==> *s0[a].0 < *s0[b].0,
                forall|k: int| 0 <= k < r@.len() ==> {
                    &&& #[trigger] r@[k] <= i32::MAX
                    &&& self.io.sesno_pgno_map@.contains_key(r@[k] as i32)
                    &&& in_sesno_range(range, r@[k] as i32)
                },
                forall|k: int, j: int| 0 <= k < r@.len() && it.index() <= j < s0.len() ==> ((#[trigger] r@[k]) as i32) < *(#[trigger] s0[j]).0,
                forall|i: int| 0 <= i < it.index() && in_sesno_range(range, *(#[trigger] s0[i]).0) && *s0[i].0 >= 0 ==> r@.contains(
                    *s0[i].0 as u32,
                ),
                forall|a: int, b: int| 0 <= a < b < r@.len() ==> r@[a] < r@[b],
        {
            let s = *sesno;
            let inside = range_holds(&range, s);
            if inside && s >= 0 {
                let ghost rb = r@;
                r.push(s as u32);
                proof {
                    let idx = it.index();
                    assert(s0[idx].0 == sesno);
                    assert forall|k: int, j: int| 0 <= k < r@.len() && idx + 1 <= j < s0.len() implies ((#[trigger] r@[k]) as i32) < *(#[trigger] s0[j]).0 by {
                        if k < rb.len() {
                            assert(r@[k] == rb[k]);
                        } else {
                            assert(*s0[idx].0 < *s0[j].0);
                        }
                    }
                    assert forall|a: int, b: int| 0 <= a < b < r@.len() implies r@[a] < r@[b] by {
                        if b == rb.len() {
                            assert(r@[a] == rb[a]);
                            assert((rb[a] as i32) < *s0[idx].0);
                        } else {
                            assert(r@[a] == rb[a] && r@[b] == rb[b]);
                        }
                    }
                    assert forall|i: int| 0 <= i < idx + 1 && in_sesno_range(range, *(#[trigger] s0[i]).0) && *s0[i].0 >= 0 implies r@.contains(
                        *s0[i].0 as u32,
                    ) by {
                        if i < idx {
                            let k = choose|k: int| 0 <= k < rb.len() && rb[k] == *s0[i].0 as u32;
                            assert(r@[k] == rb[k]);
                        } else {
                            assert(r@[r@.len() - 1] == s as u32);
                        }
                    }
                }
            }
        }
        proof {
            assert forall|s: i32| #[trigger] self.io.sesno_pgno_map@.contains_key(s) && in_sesno_range(range, s) && s >= 0 implies r@.contains(
                s as u32,
            ) by {
                assert(s0.contains((&s, &self.io.sesno_pgno_map@[s])));
                let i = choose|i: int| 0 <= i < s0.len() && s0[i] == (&s, &self.io.sesno_pgno_map@[s]);
            }
        }
        r
    }

    /// Session number → `(previous session page, own session page)` of the file.
    pub fn session_ranges(&self) -> (r: BTreeMap<i32, (u32, u32)>)
        ensures
            r@ == self.io_view().ses_range_map@,
    {
        self.io.ses_range_map.clone()
    }

    /// The frozen file image: the first `opened_len` bytes read from the snapshot's
    /// file handle with the frozen header bytes in front, so that a session
    /// appended since the freeze stays invisible.
    pub fn frozen_image(&self, bytes: Vec<u8>) -> (r: Result<Vec<u8>, SnapshotError>)
        ensures
            bytes@.len() < self.token_view().header_prefix.len() ==> r == Err::<Vec<u8>, SnapshotError>(
                SnapshotError::ShortImage { len: bytes@.len() as usize, header_len: self.token_view().header_prefix.len() as usize },
            ),
            bytes@.len() >= self.token_view().header_prefix.len() ==> (r matches Ok(out) && out@ == self.token_view().header_prefix
                + bytes@.skip(self.token_view().header_prefix.len() as int)),
    {
        let n = self.token.header_prefix.len();
        if bytes.len() < n {
            return Err(SnapshotError::ShortImage { len: bytes.len(), header_len: n });
        }
        let mut out = copy_bytes(&self.token.header_prefix);
        let mut i: usize = n;
        while i < bytes.len()
            invariant
                n == self.token.header_prefix@.len(),
                n <= i <= bytes.len(),
                out@ == self.token.header_prefix@ + bytes@.subrange(n as int, i as int),
            decreases bytes.len() - i,
        {
            out.push(bytes[i]);
            i += 1;
            proof {
                assert(bytes@.subrange(n as int, i as int) == bytes@.subrange(n as int, i - 1).push(bytes@[i - 1]));
            }
        }
        proof {
            assert(bytes@.subrange(n as int, i as int) == bytes@.skip(n as int));
        }
        Ok(out)
    }
}

} // verus!
