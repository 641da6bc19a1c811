//! The database file as the library sees it: decoded header, session pages, index
//! pages and element records, with the session map built from the session chain.
use std::collections::BTreeMap;

use vstd::prelude::*;

use crate::defines::{IndexPageData, PdmsHeader, SessionPageData};
use crate::order::lemma_increasing_i32_keys;
use crate::session_index_diff::{find_index_page, mem_page_at, same_page, stored_page, IndexPageView, IndexPages};
use vstd::std_specs::iter::IteratorSpec;
use vstd::string::StringExecFns;
use crate::text::{decimal_spec, push_decimal, push_refno, push_signed, refno_text_spec, signed_spec};

verus! {

/// Errors of reading the decoded database image.
#[derive(Debug, Clone, Copy, PartialEq, Eq, Structural)]
pub enum IoError {
    /// The header could not be read.
    NoHeader,
    /// A session page could not be read.
    UnreadableSessionPage { pgno: u32 },
    /// The session chain does not walk to strictly smaller pages.
    SessionChainNotDescending { pgno: u32, last_ses_pageno: i32 },
    /// An index page could not be read.
    UnreadableIndexPage { pgno: u32 },
    /// No record decodes at this byte offset.
    UnreadableRecord { offset: u64 },
    /// The reference number is not reachable in the index.
    NotFound { refno: u64 },
}

/// The message of an image read error.
pub open spec fn io_message(e: IoError) -> Seq<char> {
    match e {
        IoError::NoHeader => "读不到库文件头"@,
        IoError::UnreadableSessionPage { pgno } => "会话页 "@ + decimal_spec(pgno as nat) + " 无法读取"@,
        IoError::SessionChainNotDescending { pgno, last_ses_pageno } => "会话页 "@ + decimal_spec(pgno as nat) + " 的上一会话页 "@
            + signed_spec(last_ses_pageno as int) + " 不更小，会话链不收敛"@,
        IoError::UnreadableIndexPage { pgno } => "索引页 "@ + decimal_spec(pgno as nat) + " 无法读取"@,
        IoError::UnreadableRecord { offset } => "偏移 "@ + decimal_spec(offset as nat) + " 处的记录无法解码"@,
        IoError::NotFound { refno } => "索引里找不到 "@ + refno_text_spec(refno),
    }
}

impl IoError {
    /// The error as text.
    pub fn message(&self) -> (s: String)
        ensures
            s@ == io_message(*self),
    {
        let mut s = String::new();
        match *self {
            IoError::NoHeader => {
                s.append("读不到库文件头");
            },
            IoError::UnreadableSessionPage { pgno } => {
                s.append("会话页 ");
                push_decimal(&mut s, pgno as u64);
                s.append(" 无法读取");
            },
            IoError::SessionChainNotDescending { pgno, last_ses_pageno } => {
                s.append("会话页 ");
                push_decimal(&mut s, pgno as u64);
                s.append(" 的上一会话页 ");
                push_signed(&mut s, last_ses_pageno);
                s.append(" 不更小，会话链不收敛");
            },
            IoError::UnreadableIndexPage { pgno } => {
                s.append("索引页 ");
                push_decimal(&mut s, pgno as u64);
                s.append(" 无法读取");
            },
            IoError::UnreadableRecord { offset } => {
                s.append("偏移 ");
                push_decimal(&mut s, offset);
                s.append(" 处的记录无法解码");
            },
            IoError::NotFound { refno } => {
                s.append("索引里找不到 ");
                push_refno(&mut s, refno);
            },
        }
        proof {
            assert(s@ =~= io_message(*self));
        }
        s
    }
}

/// One decoded element record.
#[derive(Debug)]
pub struct EleData {
    pub refno: u64,
    pub owner: u64,
    pub noun: u32,
    /// Type name of the element (its decoded noun).
    pub noun_name: String,
    /// Attributes by name, with their values in canonical text form.
    pub attrs: Vec<(String, String)>,
    /// Member list in order.
    pub children: Vec<u64>,
    /// Session the record belongs to (0 when unknown).
    pub sesno: i32,
}

/// Spec view of an element record.
pub struct EleView {
    pub refno: u64,
    pub owner: u64,
    pub noun: u32,
    pub noun_name: Seq<char>,
    pub attrs: Seq<(Seq<char>, Seq<char>)>,
    pub children: Seq<u64>,
    pub sesno: i32,
}

pub open spec fn attrs_view(a: Seq<(String, String)>) -> Seq<(Seq<char>, Seq<char>)> {
    a.map_values(|p: (String, String)| (p.0@, p.1@))
}

impl View for EleData {
    type V = EleView;

    open spec fn view(&self) -> EleView {
        EleView {
            refno: self.refno,
            owner: self.owner,
            noun: self.noun,
            noun_name: self.noun_name@,
            attrs: attrs_view(self.attrs@),
            children: self.children@,
            sesno: self.sesno,
        }
    }
}

/// Copies attribute pairs.
pub fn copy_attrs(a: &Vec<(String, String)>) -> (r: Vec<(String, String)>)
    ensures
        attrs_view(r@) == attrs_view(a@),
{
    let mut r: Vec<(String, String)> = Vec::new();
    let mut i: usize = 0;
    while i < a.len()
        invariant
            i <= a.len(),
            r@.len() == i,
            forall|j: int| 0 <= j < i ==> (#[trigger] r@[j]).0@ == a@[j].0@ && r@[j].1@ == a@[j].1@,
        decreases a.len() - i,
    {
        let name = a[i].0.clone();
        let value = a[i].1.clone();
        r.push((name, value));
        i += 1;
    }
    assert(attrs_view(r@) =~= attrs_view(a@));
    r
}

/// Copies a reference-number list.
pub fn copy_refnos(a: &Vec<u64>) -> (r: Vec<u64>)
    ensures
        r@ == a@,
{
    let mut r: Vec<u64> = Vec::new();
    let mut i: usize = 0;
    while i < a.len()
        invariant
            i <= a.len(),
            r@ == a@.take(i as int),
        decreases a.len() - i,
    {
        r.push(a[i]);
        i += 1;
        assert(r@ == a@.take(i as int));
    }
    assert(a@.take(i as int) == a@);
    r
}

/// Copies an element record.
pub fn copy_ele(e: &EleData) -> (r: EleData)
    ensures
        r@ == e@,
{
    EleData {
        refno: e.refno,
        owner: e.owner,
        noun: e.noun,
        noun_name: e.noun_name.clone(),
        attrs: copy_attrs(&e.attrs),
        children: copy_refnos(&e.children),
        sesno: e.sesno,
    }
}

/// First session page stored with this page number.
pub open spec fn ses_page_at(pages: Seq<SessionPageData>, pgno: u32) -> Option<SessionPageData>
    decreases pages.len(),
{
    if pages.len() == 0 {
        None
    } else if pages[0].pgno == pgno {
        Some(pages[0])
    } else {
        ses_page_at(pages.drop_first(), pgno)
    }
}

/// First record stored at this byte offset.
pub open spec fn record_at(records: Seq<(u64, EleData)>, offset: u64) -> Option<EleView>
    decreases records.len(),
{
    if records.len() == 0 {
        None
    } else if records[0].0 == offset {
        Some(records[0].1@)
    } else {
        record_at(records.drop_first(), offset)
    }
}

/// Range of pages of a session: from the previous session page up to (excluding)
/// its own session page.
pub open spec fn in_range(r: (u32, u32), pgno: u32) -> bool {
    r.0 <= pgno && pgno < r.1
}

/// The least session whose page range holds `pgno`.
pub open spec fn is_least_session_of(ranges: Map<i32, (u32, u32)>, pgno: u32, s: i32) -> bool {
    &&& ranges.contains_key(s)
    &&& in_range(ranges[s], pgno)
    &&& forall|t: i32| #[trigger] ranges.contains_key(t) && t < s ==> !in_range(ranges[t], pgno)
}

pub open spec fn has_session_of(ranges: Map<i32, (u32, u32)>, pgno: u32) -> bool {
    exists|t: i32| #[trigger] ranges.contains_key(t) && in_range(ranges[t], pgno)
}

/// Session-chain walk from `cur`, newest to oldest, folding session pages into the
/// `(sesno → session page)` and `(sesno → page range)` maps. `None` when a page is
/// missing or the chain does not descend.
pub open spec fn chain_maps(
    pages: Seq<SessionPageData>,
    cur: u32,
    pgnos: Map<i32, u32>,
    ranges: Map<i32, (u32, u32)>,
) -> Option<(Map<i32, u32>, Map<i32, (u32, u32)>)>
    decreases cur,
{
    if cur <= 4 {
        Some((pgnos, ranges))
    } else {
        match ses_page_at(pages, cur) {
            None => None,
            Some(p) => {
                let pgnos2 = pgnos.insert(p.sesno, cur);
                let ranges2 = ranges.insert(p.sesno, (p.last_ses_pageno as u32, cur));
                if p.last_ses_pageno < 0 {
                    Some((pgnos2, ranges2))
                } else if p.last_ses_pageno as u32 >= cur {
                    None
                } else {
                    chain_maps(pages, p.last_ses_pageno as u32, pgnos2, ranges2)
                }
            },
        }
    }
}

/// The error the walk of the session chain from page `cur` meets: an unreadable
/// session page, or a link that does not descend; `None` when the walk ends well.
pub open spec fn chain_error(pages: Seq<SessionPageData>, cur: u32) -> Option<IoError>
    decreases cur,
{
    if cur <= 4 {
        None
    } else {
        match ses_page_at(pages, cur) {
            None => Some(IoError::UnreadableSessionPage { pgno: cur }),
            Some(p) => if p.last_ses_pageno < 0 {
                None
            } else if p.last_ses_pageno as u32 >= cur {
                Some(IoError::SessionChainNotDescending { pgno: cur, last_ses_pageno: p.last_ses_pageno })
            } else {
                chain_error(pages, p.last_ses_pageno as u32)
            },
        }
    }
}

/// The chain walk builds its maps exactly when it meets no error.
pub proof fn lemma_chain_error_iff(pages: Seq<SessionPageData>, cur: u32, pgnos: Map<i32, u32>, ranges: Map<i32, (u32, u32)>)
    ensures
        chain_maps(pages, cur, pgnos, ranges) is Some <==> chain_error(pages, cur) is None,
    decreases cur,
{
    if cur > 4 {
        if let Some(p) = ses_page_at(pages, cur) {
            if p.last_ses_pageno >= 0 && (p.last_ses_pageno as u32) < cur {
                lemma_chain_error_iff(
                    pages,
                    p.last_ses_pageno as u32,
                    pgnos.insert(p.sesno, cur),
                    ranges.insert(p.sesno, (p.last_ses_pageno as u32, cur)),
                );
            }
        }
    }
}

/// A decoded database file and the session maps built from it.
pub struct PdmsIO {
    pub project: String,
    pub path: String,
    pub readonly: bool,
    pub dbnum: i32,
    /// Decoded header; `None` when the header cannot be read.
    pub header: Option<PdmsHeader>,
    /// Length of the file in bytes.
    pub file_len: u64,
    /// Decoded session pages.
    pub session_pages: Vec<SessionPageData>,
    /// Decoded index pages by page number.
    pub index_pages: Vec<(u32, IndexPageData)>,
    /// Decoded element records by byte offset.
    pub records: Vec<(u64, EleData)>,
    /// Minimal identities of records by byte offset, for records whose full
    /// decode fails.
    pub identities: Vec<(u64, RawElementIdentity)>,
    /// Session number → session page number.
    pub sesno_pgno_map: BTreeMap<i32, u32>,
    /// Session number → `(previous session page, own session page)` range.
    pub ses_range_map: BTreeMap<i32, (u32, u32)>,
    /// Every index page number asked for, in order.
    pub page_reads: Vec<u32>,
}

impl IndexPages for PdmsIO {
    open spec fn page_at(&self, pgno: u32) -> Option<IndexPageView> {
        mem_page_at(self.index_pages@, pgno)
    }

    open spec fn requests(&self) -> Seq<u32> {
        self.page_reads@
    }

    fn index_page(&mut self, pgno: u32) -> (r: Option<IndexPageData>)
        ensures
            final(self).index_pages@ == old(self).index_pages@,
            final(self).session_pages@ == old(self).session_pages@,
            final(self).records@ == old(self).records@,
            final(self).sesno_pgno_map@ == old(self).sesno_pgno_map@,
            final(self).ses_range_map@ == old(self).ses_range_map@,
            final(self).header == old(self).header,
            final(self).dbnum == old(self).dbnum,
    {
        self.page_reads.push(pgno);
        find_index_page(&self.index_pages, pgno)
    }
}

impl PdmsIO {
    /// A file image with empty session maps.
    pub fn new(
        project: String,
        path: String,
        readonly: bool,
        header: Option<PdmsHeader>,
        file_len: u64,
        session_pages: Vec<SessionPageData>,
        index_pages: Vec<(u32, IndexPageData)>,
        records: Vec<(u64, EleData)>,
        identities: Vec<(u64, RawElementIdentity)>,
    ) -> (r: PdmsIO)
        ensures
            r.header == header,
            r.file_len == file_len,
            r.session_pages@ == session_pages@,
            r.index_pages@ == index_pages@,
            r.records@ == records@,
            r.identities@ == identities@,
            r.sesno_pgno_map@ == Map::<i32, u32>::empty(),
            r.ses_range_map@ == Map::<i32, (u32, u32)>::empty(),
            r.dbnum == 0,
            r.readonly == readonly,
    {
        PdmsIO {
            project,
            path,
            readonly,
            dbnum: 0,
            header,
            file_len,
            session_pages,
            index_pages,
            records,
            identities,
            sesno_pgno_map: BTreeMap::new(),
            ses_range_map: BTreeMap::new(),
            page_reads: Vec::new(),
        }
    }

    /// The decoded header.
    pub fn read_pdms_header(&self) -> (r: Result<PdmsHeader, IoError>)
        ensures
            match self.header {
                Some(h) => r == Ok::<PdmsHeader, IoError>(h),
                None => r == Err::<PdmsHeader, IoError>(IoError::NoHeader),
            },
    {
        match self.header {
            Some(h) => Ok(h),
            None => Err(IoError::NoHeader),
        }
    }

    /// The session page stored at `ses_pgno`.
    pub fn read_ses_data(&self, ses_pgno: u32) -> (r: Result<SessionPageData, IoError>)
        ensures
            match ses_page_at(self.session_pages@, ses_pgno) {
                Some(p) => r == Ok::<SessionPageData, IoError>(p),
                None => r == Err::<SessionPageData, IoError>(IoError::UnreadableSessionPage { pgno: ses_pgno }),
            },
    {
        let mut i: usize = 0;
        assert(self.session_pages@.skip(0) == self.session_pages@);
        while i < self.session_pages.len()
            invariant
                i <= self.session_pages.len(),
                ses_page_at(self.session_pages@, ses_pgno) == ses_page_at(self.session_pages@.skip(i as int), ses_pgno),
            decreases self.session_pages.len() - i,
        {
            assert(self.session_pages@.skip(i as int).drop_first() == self.session_pages@.skip(i + 1));
            if self.session_pages[i].pgno == ses_pgno {
                assert(self.session_pages@.skip(i as int)[0] == self.session_pages@[i as int]);
                return Ok(self.session_pages[i]);
            }
            i += 1;
        }
        Err(IoError::UnreadableSessionPage { pgno: ses_pgno })
    }

    /// The index page stored at `index_pgno`, whole.
    pub fn read_index_data(&mut self, index_pgno: u32) -> (r: Result<IndexPageData, IoError>)
        ensures
            match r {
                Ok(p) => old(self).page_at(index_pgno) == Some(p@),
                Err(e) => old(self).page_at(index_pgno) is None && e == IoError::UnreadableIndexPage { pgno: index_pgno },
            },
            match stored_page(old(self).index_pages@, index_pgno) {
                Some(q) => r matches Ok(p) && same_page(p, q),
                None => r == Err::<IndexPageData, IoError>(IoError::UnreadableIndexPage { pgno: index_pgno }),
            },
            final(self).page_reads@ == old(self).page_reads@.push(index_pgno),
            final(self).index_pages@ == old(self).index_pages@,
            final(self).session_pages@ == old(self).session_pages@,
            final(self).records@ == old(self).records@,
            final(self).sesno_pgno_map@ == old(self).sesno_pgno_map@,
            final(self).ses_range_map@ == old(self).ses_range_map@,
            final(self).header == old(self).header,
    {
        self.page_reads.push(index_pgno);
        match find_index_page(&self.index_pages, index_pgno) {
            Some(p) => Ok(p),
            None => Err(IoError::UnreadableIndexPage { pgno: index_pgno }),
        }
    }

    /// Decodes the element record at a byte offset.
    pub fn parse_raw_element(&self, offset: u64) -> (r: Result<EleData, IoError>)
        ensures
            match record_at(self.records@, offset) {
                Some(v) => r matches Ok(e) && e@ == v,
                None => r == Err::<EleData, IoError>(IoError::UnreadableRecord { offset }),
            },
    {
        let mut i: usize = 0;
        assert(self.records@.skip(0) == self.records@);
        while i < self.records.len()
            invariant
                i <= self.records.len(),
                record_at(self.records@, offset) == record_at(self.records@.skip(i as int), offset),
            decreases self.records.len() - i,
        {
            assert(self.records@.skip(i as int).drop_first() == self.records@.skip(i + 1));
            if self.records[i].0 == offset {
                assert(self.records@.skip(i as int)[0] == self.records@[i as int]);
                return Ok(copy_ele(&self.records[i].1));
            }
            i += 1;
        }
        Err(IoError::UnreadableRecord { offset })
    }

    /// Builds the session maps by walking the session chain from the header's
    /// latest session page back to the first one.
    pub fn init_ses_range_map(&mut self) -> (r: Result<(), IoError>)
        ensures
            final(self).session_pages@ == old(self).session_pages@,
            final(self).index_pages@ == old(self).index_pages@,
            final(self).records@ == old(self).records@,
            final(self).identities@ == old(self).identities@,
            final(self).page_reads@ == old(self).page_reads@,
            final(self).header == old(self).header,
            old(self).header is None ==> r == Err::<(), IoError>(IoError::NoHeader),
            old(self).header matches Some(h) ==> final(self).dbnum == h.db_num,
            old(self).header matches Some(h) ==> (r is Ok <==> chain_maps(
                old(self).session_pages@,
                h.latest_ses_pgno,
                Map::empty(),
                Map::empty(),
            ) is Some),
            r is Ok ==> chain_maps(
                old(self).session_pages@,
                old(self).header->0.latest_ses_pgno,
                Map::empty(),
                Map::empty(),
            ) == Some((final(self).sesno_pgno_map@, final(self).ses_range_map@)),
            r is Err ==> final(self).sesno_pgno_map@ == old(self).sesno_pgno_map@
                && final(self).ses_range_map@ == old(self).ses_range_map@,
            old(self).header matches Some(h) ==> (r matches Err(e) ==> chain_error(old(self).session_pages@, h.latest_ses_pgno)
                == Some(e)),
    {
        broadcast use crate::order::group_key_order;

        let header = match self.read_pdms_header() {
            Ok(h) => h,
            Err(e) => {
                return Err(e);
            },
        };
        let mut cur = header.latest_ses_pgno;
        let mut ranges: BTreeMap<i32, (u32, u32)> = BTreeMap::new();
        let mut pgnos: BTreeMap<i32, u32> = BTreeMap::new();
        self.dbnum = header.db_num;
        let ghost pages = self.session_pages@;
        while cur > 4
            invariant
                self.session_pages@ == pages,
                pages == old(self).session_pages@,
                old(self).header == Some(header),
                self.header == old(self).header,
                self.dbnum == header.db_num,
                self.sesno_pgno_map@ == old(self).sesno_pgno_map@,
                self.ses_range_map@ == old(self).ses_range_map@,
                self.index_pages@ == old(self).index_pages@,
                self.records@ == old(self).records@,
                self.identities@ == old(self).identities@,
                self.page_reads@ == old(self).page_reads@,
                chain_maps(pages, header.latest_ses_pgno, Map::empty(), Map::empty()) == chain_maps(
                    pages,
                    cur,
                    pgnos@,
                    ranges@,
                ),
                chain_error(pages, header.latest_ses_pgno) == chain_error(pages, cur),
            decreases cur,
        {
            let page = match self.read_ses_data(cur) {
                Ok(p) => p,
                Err(e) => {
                    return Err(e);
                },
            };
            let start = page.last_ses_pageno as u32;
            ranges.insert(page.sesno, (start, cur));
            pgnos.insert(page.sesno, cur);
            if page.last_ses_pageno < 0 {
                cur = 0;
            } else if start >= cur {
                return Err(IoError::SessionChainNotDescending { pgno: cur, last_ses_pageno: page.last_ses_pageno });
            } else {
                cur = start;
            }
        }
        self.ses_range_map = ranges;
        self.sesno_pgno_map = pgnos;
        Ok(())
    }
}

impl PdmsIO {
    /// Opens the image: builds the session maps.
    pub fn open(&mut self) -> (r: Result<(), IoError>)
        ensures
            final(self).session_pages@ == old(self).session_pages@,
            final(self).index_pages@ == old(self).index_pages@,
            final(self).records@ == old(self).records@,
            final(self).identities@ == old(self).identities@,
            final(self).page_reads@ == old(self).page_reads@,
            old(self).header matches Some(h) ==> final(self).dbnum == h.db_num,
            final(self).header == old(self).header,
            old(self).header is None ==> r == Err::<(), IoError>(IoError::NoHeader),
            old(self).header matches Some(h) ==> (r is Ok <==> chain_maps(
                old(self).session_pages@,
                h.latest_ses_pgno,
                Map::empty(),
                Map::empty(),
            ) is Some),
            r is Ok ==> chain_maps(
                old(self).session_pages@,
                old(self).header->0.latest_ses_pgno,
                Map::empty(),
                Map::empty(),
            ) == Some((final(self).sesno_pgno_map@, final(self).ses_range_map@)),
            r is Err ==> final(self).sesno_pgno_map@ == old(self).sesno_pgno_map@
                && final(self).ses_range_map@ == old(self).ses_range_map@,
            old(self).header matches Some(h) ==> (r matches Err(e) ==> chain_error(old(self).session_pages@, h.latest_ses_pgno)
                == Some(e)),
    {
        self.init_ses_range_map()
    }

    /// The session whose page range holds `pgno` (the least such session number).
    pub fn get_sesno(&self, pgno: u32) -> (r: Option<u32>)
        ensures
            match r {
                Some(s) => exists|t: i32| is_least_session_of(self.ses_range_map@, pgno, t) && s == t as u32,
                None => !has_session_of(self.ses_range_map@, pgno),
            },
    {
        broadcast use crate::order::group_key_order;

        let iter = self.ses_range_map.iter();
        proof {
            lemma_increasing_i32_keys(iter.remaining());
        }
        let ghost s0 = iter.remaining();
        for (sesno, range) in it: iter
            invariant
                it.seq() == s0,
                forall|i: int| 0 <= i < s0.len() ==> self.ses_range_map@.contains_key(*(#[trigger] s0[i]).0)
                    && self.ses_range_map@[*s0[i].0] == *s0[i].1,
                forall|k: i32| #[trigger]
                    self.ses_range_map@.contains_key(k) ==> exists|i: int| 0 <= i < s0.len() && *s0[i].0 == k,
                forall|i: int, j: int| 0 <= i < j < s0.len() ==> *s0[i].0 < *s0[j].0,
                forall|i: int| 0 <= i < it.index() ==> !in_range(*(#[trigger] s0[i]).1, pgno),
        {
            let (start, end) = *range;
            if start <= pgno && pgno < end {
                proof {
                    let idx = it.index();
                    assert(s0[idx] == (sesno, range));
                    assert forall|t: i32| #[trigger] self.ses_range_map@.contains_key(t) && t < *sesno implies !in_range(self.ses_range_map@[t], pgno) by {
                        let i = choose|i: int| 0 <= i < s0.len() && *s0[i].0 == t;
                        if i >= idx {
                            assert(*s0[idx].0 <= *s0[i].0);
                        }
                    }
                    assert(is_least_session_of(self.ses_range_map@, pgno, *sesno));
                }
                return Some(*sesno as u32);
            }
        }
        proof {
            assert forall|t: i32| #[trigger] self.ses_range_map@.contains_key(t) implies !in_range(self.ses_range_map@[t], pgno) by {
                let i = choose|i: int| 0 <= i < s0.len() && *s0[i].0 == t;
                assert(!in_range(*s0[i].1, pgno));
            }
        }
        None
    }

    /// Session number of the latest session page named by the header.
    pub fn get_latest_att_sesno(&self) -> (r: Result<u32, IoError>)
        ensures
            match self.header {
                None => r == Err::<u32, IoError>(IoError::NoHeader),
                Some(h) => match ses_page_at(self.session_pages@, h.latest_ses_pgno) {
                    Some(p) => r == Ok::<u32, IoError>(p.sesno as u32),
                    None => r == Err::<u32, IoError>(IoError::UnreadableSessionPage { pgno: h.latest_ses_pgno }),
                },
            },
    {
        let header = match self.read_pdms_header() {
            Ok(h) => h,
            Err(e) => {
                return Err(e);
            },
        };
        match self.read_ses_data(header.latest_ses_pgno) {
            Ok(p) => Ok(p.sesno as u32),
            Err(e) => Err(e),
        }
    }

    /// The session page number of a session.
    pub fn get_ses_pageno(&self, sesno: i32) -> (r: Option<u32>)
        ensures
            r == (if self.sesno_pgno_map@.contains_key(sesno) {
                Some(self.sesno_pgno_map@[sesno])
            } else {
                None
            }),
    {
        broadcast use crate::order::group_key_order;

        match self.sesno_pgno_map.get(&sesno) {
            Some(p) => Some(*p),
            None => None,
        }
    }
}

/// Value of the first attribute named `name`.
pub open spec fn lookup_attr(attrs: Seq<(Seq<char>, Seq<char>)>, name: Seq<char>) -> Option<Seq<char>>
    decreases attrs.len(),
{
    if attrs.len() == 0 {
        None
    } else if attrs[0].0 == name {
        Some(attrs[0].1)
    } else {
        lookup_attr(attrs.drop_first(), name)
    }
}

/// One attribute whose value differs: name, old value, new value.
#[derive(Debug)]
pub struct AttrChange {
    pub name: String,
    pub old_value: String,
    pub new_value: String,
}

/// Net change between two versions of one element.
#[derive(Debug)]
pub struct ModifiedElement {
    pub noun: u32,
    /// The newer version.
    pub current_data: EleData,
    /// Attributes present on both sides with different values.
    pub modified_attrs: Vec<AttrChange>,
    /// Attributes only the newer version has, with their values.
    pub added_attrs: Vec<(String, String)>,
    /// Attributes only the older version has, with their values.
    pub deleted_attrs: Vec<(String, String)>,
    /// Both member lists when they differ (order counts).
    pub children_changed: Option<(Vec<u64>, Vec<u64>)>,
}

impl ModifiedElement {
    /// The change of attribute `name`, if it changed value (its first entry).
    pub fn modified_attr(&self, name: &str) -> (r: Option<(String, String)>)
        ensures
            r matches Some(p) ==> exists|i: int|
                0 <= i < self.modified_attrs@.len() && (#[trigger] self.modified_attrs@[i]).name@ == name@
                    && p.0@ == self.modified_attrs@[i].old_value@ && p.1@ == self.modified_attrs@[i].new_value@
                    && forall|j: int| 0 <= j < i ==> (#[trigger] self.modified_attrs@[j]).name@ != name@,
            r is None ==> forall|i: int| 0 <= i < self.modified_attrs@.len() ==> (#[trigger] self.modified_attrs@[i]).name@ != name@,
    {
        let mut i: usize = 0;
        while i < self.modified_attrs.len()
            invariant
                i <= self.modified_attrs.len(),
                forall|j: int| 0 <= j < i ==> (#[trigger] self.modified_attrs@[j]).name@ != name@,
            decreases self.modified_attrs.len() - i,
        {
            if str_eq(self.modified_attrs[i].name.as_str(), name) {
                return Some((self.modified_attrs[i].old_value.clone(), self.modified_attrs[i].new_value.clone()));
            }
            i += 1;
        }
        None
    }
}

/// Text equality by characters.
pub fn str_eq(a: &str, b: &str) -> (r: bool)
    ensures
        r == (a@ == b@),
{
    let x = a.to_owned();
    let y = b.to_owned();
    x == y
}

/// Index of the first attribute named `name` (by characters).
pub fn find_attr(attrs: &Vec<(String, String)>, name: &String) -> (r: Option<usize>)
    ensures
        match r {
            Some(i) => i < attrs@.len() && attrs@[i as int].0@ == name@ && lookup_attr(attrs_view(attrs@), name@)
                == Some(attrs@[i as int].1@) && forall|j: int| 0 <= j < i ==> (#[trigger] attrs@[j]).0@ != name@,
            None => lookup_attr(attrs_view(attrs@), name@) is None,
        },
{
    let mut i: usize = 0;
    assert(attrs_view(attrs@).skip(0) == attrs_view(attrs@));
    while i < attrs.len()
        invariant
            i <= attrs.len(),
            forall|j: int| 0 <= j < i ==> (#[trigger] attrs@[j]).0@ != name@,
            lookup_attr(attrs_view(attrs@), name@) == lookup_attr(attrs_view(attrs@).skip(i as int), name@),
        decreases attrs.len() - i,
    {
        assert(attrs_view(attrs@).skip(i as int).drop_first() == attrs_view(attrs@).skip(i + 1));
        assert(attrs_view(attrs@).skip(i as int)[0] == (attrs@[i as int].0@, attrs@[i as int].1@));
        if attrs[i].0 == *name {
            return Some(i);
        }
        i += 1;
    }
    None
}

/// Whether two reference-number lists are equal element by element.
pub fn refnos_equal(a: &Vec<u64>, b: &Vec<u64>) -> (r: bool)
    ensures
        r == (a@ == b@),
{
    if a.len() != b.len() {
        return false;
    }
    let mut i: usize = 0;
    while i < a.len()
        invariant
            a.len() == b.len(),
            i <= a.len(),
            forall|j: int| 0 <= j < i ==> a@[j] == b@[j],
        decreases a.len() - i,
    {
        if a[i] != b[i] {
            return false;
        }
        i += 1;
    }
    assert(a@ =~= b@);
    true
}

/// `name` is an attribute whose value differs between the two lists.
pub open spec fn attr_modified(p: Seq<(Seq<char>, Seq<char>)>, l: Seq<(Seq<char>, Seq<char>)>, name: Seq<char>) -> bool {
    lookup_attr(p, name) is Some && lookup_attr(l, name) is Some && lookup_attr(p, name) != lookup_attr(l, name)
}

pub open spec fn attr_added(p: Seq<(Seq<char>, Seq<char>)>, l: Seq<(Seq<char>, Seq<char>)>, name: Seq<char>) -> bool {
    lookup_attr(p, name) is None && lookup_attr(l, name) is Some
}

pub open spec fn attr_deleted(p: Seq<(Seq<char>, Seq<char>)>, l: Seq<(Seq<char>, Seq<char>)>, name: Seq<char>) -> bool {
    lookup_attr(p, name) is Some && lookup_attr(l, name) is None
}

/// The three attribute buckets of two versions, each listing every qualifying
/// attribute name once with its values.
pub open spec fn buckets_of(p: EleView, l: EleView, m: ModifiedElement) -> bool {
    &&& forall|i: int| 0 <= i < m.modified_attrs@.len() ==> {
        let c = #[trigger] m.modified_attrs@[i];
        attr_modified(p.attrs, l.attrs, c.name@) && lookup_attr(p.attrs, c.name@) == Some(c.old_value@)
            && lookup_attr(l.attrs, c.name@) == Some(c.new_value@)
    }
    &&& forall|name: Seq<char>| #[trigger] attr_modified(p.attrs, l.attrs, name) ==> exists|i: int|
        0 <= i < m.modified_attrs@.len() && m.modified_attrs@[i].name@ == name
    &&& forall|i: int, j: int| 0 <= i < j < m.modified_attrs@.len() ==> m.modified_attrs@[i].name@ != m.modified_attrs@[j].name@
    &&& forall|i: int| 0 <= i < m.added_attrs@.len() ==> {
        let c = #[trigger] m.added_attrs@[i];
        attr_added(p.attrs, l.attrs, c.0@) && lookup_attr(l.attrs, c.0@) == Some(c.1@)
    }
    &&& forall|name: Seq<char>| #[trigger] attr_added(p.attrs, l.attrs, name) ==> exists|i: int|
        0 <= i < m.added_attrs@.len() && m.added_attrs@[i].0@ == name
    &&& forall|i: int, j: int| 0 <= i < j < m.added_attrs@.len() ==> m.added_attrs@[i].0@ != m.added_attrs@[j].0@
    &&& forall|i: int| 0 <= i < m.deleted_attrs@.len() ==> {
        let c = #[trigger] m.deleted_attrs@[i];
        attr_deleted(p.attrs, l.attrs, c.0@) && lookup_attr(p.attrs, c.0@) == Some(c.1@)
    }
    &&& forall|name: Seq<char>| #[trigger] attr_deleted(p.attrs, l.attrs, name) ==> exists|i: int|
        0 <= i < m.deleted_attrs@.len() && m.deleted_attrs@[i].0@ == name
    &&& forall|i: int, j: int| 0 <= i < j < m.deleted_attrs@.len() ==> m.deleted_attrs@[i].0@ != m.deleted_attrs@[j].0@
}

/// Two versions agree on every attribute name and on the member list.
pub open spec fn same_content(p: EleView, l: EleView) -> bool {
    &&& forall|name: Seq<char>| #[trigger] lookup_attr(p.attrs, name) == lookup_attr(l.attrs, name)
    &&& p.children == l.children
}

/// `k` is the first position of its attribute name.
pub open spec fn first_at(s: Seq<(Seq<char>, Seq<char>)>, k: int) -> bool {
    0 <= k < s.len() && forall|j: int| 0 <= j < k ==> s[j].0 != s[k].0
}

/// Lookup finds the value at the first position of the name, and a name that is
/// found has such a position.
proof fn lemma_lookup_attr(s: Seq<(Seq<char>, Seq<char>)>, name: Seq<char>)
    ensures
        forall|k: int| #[trigger] first_at(s, k) && s[k].0 == name ==> lookup_attr(s, name) == Some(s[k].1),
        lookup_attr(s, name) is Some ==> exists|k: int| #[trigger] first_at(s, k) && s[k].0 == name,
        lookup_attr(s, name) is None ==> forall|k: int| 0 <= k < s.len() ==> (#[trigger] s[k]).0 != name,
    decreases s.len(),
{
    if s.len() > 0 {
        lemma_lookup_attr(s.drop_first(), name);
        assert forall|k: int| #[trigger] first_at(s, k) && s[k].0 == name implies lookup_attr(s, name) == Some(s[k].1) by {
            if k > 0 {
                assert(s[0].0 != name);
                assert(first_at(s.drop_first(), k - 1));
                assert(s.drop_first()[k - 1] == s[k]);
            }
        }
        if lookup_attr(s, name) is Some {
            if s[0].0 == name {
                assert(first_at(s, 0));
            } else {
                let k = choose|k: int| #[trigger] first_at(s.drop_first(), k) && s.drop_first()[k].0 == name;
                assert(s[k + 1] == s.drop_first()[k]);
                assert forall|j: int| 0 <= j < k + 1 implies (#[trigger] s[j]).0 != s[k + 1].0 by {
                    if j > 0 {
                        assert(s[j] == s.drop_first()[j - 1]);
                    }
                }
                assert(first_at(s, k + 1));
            }
        }
        if lookup_attr(s, name) is None {
            assert forall|k: int| 0 <= k < s.len() implies (#[trigger] s[k]).0 != name by {
                if k > 0 {
                    assert(s.drop_first()[k - 1] == s[k]);
                }
            }
        }
    }
}

/// Attribute changes of `newer` against `older`, in `newer`'s order: names only the
/// newer has go to `added`, names whose value changed go to `modified`.
fn newer_side_buckets(older: &EleData, newer: &EleData) -> (r: (Vec<AttrChange>, Vec<(String, String)>))
    ensures
        forall|i: int| 0 <= i < r.0@.len() ==> {
            let c = #[trigger] r.0@[i];
            attr_modified(older@.attrs, newer@.attrs, c.name@) && lookup_attr(older@.attrs, c.name@) == Some(c.old_value@)
                && lookup_attr(newer@.attrs, c.name@) == Some(c.new_value@)
        },
        forall|name: Seq<char>| #[trigger] attr_modified(older@.attrs, newer@.attrs, name) ==> exists|i: int|
            0 <= i < r.0@.len() && r.0@[i].name@ == name,
        forall|i: int, j: int| 0 <= i < j < r.0@.len() ==> r.0@[i].name@ != r.0@[j].name@,
        forall|i: int| 0 <= i < r.1@.len() ==> {
            let c = #[trigger] r.1@[i];
            attr_added(older@.attrs, newer@.attrs, c.0@) && lookup_attr(newer@.attrs, c.0@) == Some(c.1@)
        },
        forall|name: Seq<char>| #[trigger] attr_added(older@.attrs, newer@.attrs, name) ==> exists|i: int|
            0 <= i < r.1@.len() && r.1@[i].0@ == name,
        forall|i: int, j: int| 0 <= i < j < r.1@.len() ==> r.1@[i].0@ != r.1@[j].0@,
{
    let ghost p = older@.attrs;
    let ghost l = newer@.attrs;
    let mut modified: Vec<AttrChange> = Vec::new();
    let mut added: Vec<(String, String)> = Vec::new();
    let ghost mut midx: Seq<int> = Seq::empty();
    let ghost mut aidx: Seq<int> = Seq::empty();
    let mut i: usize = 0;
    while i < newer.attrs.len()
        invariant
            p == older@.attrs,
            l == newer@.attrs,
            l.len() == newer.attrs@.len(),
            i <= newer.attrs.len(),
            midx.len() == modified@.len(),
            aidx.len() == added@.len(),
            forall|a: int| 0 <= a < midx.len() ==> first_at(l, #[trigger] midx[a]) && midx[a] < i
                && modified@[a].name@ == l[midx[a]].0,
            forall|a: int, b: int| 0 <= a < b < midx.len() ==> midx[a] < midx[b],
            forall|a: int| 0 <= a < aidx.len() ==> first_at(l, #[trigger] aidx[a]) && aidx[a] < i
                && added@[a].0@ == l[aidx[a]].0,
            forall|a: int, b: int| 0 <= a < b < aidx.len() ==> aidx[a] < aidx[b],
            forall|a: int| 0 <= a < modified@.len() ==> {
                let c = #[trigger] modified@[a];
                attr_modified(p, l, c.name@) && lookup_attr(p, c.name@) == Some(c.old_value@)
                    && lookup_attr(l, c.name@) == Some(c.new_value@)
            },
            forall|a: int| 0 <= a < added@.len() ==> {
                let c = #[trigger] added@[a];
                attr_added(p, l, c.0@) && lookup_attr(l, c.0@) == Some(c.1@)
            },
            forall|k: int| 0 <= k < i && #[trigger] first_at(l, k) && attr_modified(p, l, l[k].0) ==> exists|a: int|
                0 <= a < modified@.len() && modified@[a].name@ == l[k].0,
            forall|k: int| 0 <= k < i && #[trigger] first_at(l, k) && attr_added(p, l, l[k].0) ==> exists|a: int|
                0 <= a < added@.len() && added@[a].0@ == l[k].0,
        decreases newer.attrs.len() - i,
    {
        let ghost old_m = modified@;
        let ghost old_a = added@;
        let name = &newer.attrs[i].0;
        let value = &newer.attrs[i].1;
        assert(l[i as int] == (name@, value@));
        let first = find_attr(&newer.attrs, name);
        proof {
            lemma_lookup_attr(l, name@);
            lemma_lookup_attr(p, name@);
        }
        if first == Some(i) {
            assert(first_at(l, i as int)) by {
                assert forall|j: int| 0 <= j < i implies l[j].0 != l[i as int].0 by {
                    assert(l[j].0 == newer.attrs@[j].0@);
                }
            }
            match find_attr(&older.attrs, name) {
                None => {
                    added.push((name.clone(), value.clone()));
                    proof {
                        aidx = aidx.push(i as int);
                    }
                },
                Some(j) => {
                    if older.attrs[j].1 != *value {
                        modified.push(
                            AttrChange {
                                name: name.clone(),
                                old_value: older.attrs[j].1.clone(),
                                new_value: value.clone(),
                            },
                        );
                        proof {
                            midx = midx.push(i as int);
                        }
                    }
                },
            }
        }
        proof {
            assert forall|k: int| 0 <= k < i + 1 && #[trigger] first_at(l, k) && attr_modified(p, l, l[k].0) implies exists|a: int|
                0 <= a < modified@.len() && modified@[a].name@ == l[k].0 by {
                if k == i {
                    assert forall|j: int| 0 <= j < i implies (#[trigger] newer.attrs@[j]).0@ != name@ by {
                        assert(l[j].0 == newer.attrs@[j].0@);
                    }
                    assert(first == Some(i));
                    assert(modified@[modified@.len() - 1].name@ == l[k].0);
                } else {
                    let a = choose|a: int| 0 <= a < old_m.len() && old_m[a].name@ == l[k].0;
                    assert(modified@[a] == old_m[a]);
                }
            }
            assert forall|k: int| 0 <= k < i + 1 && #[trigger] first_at(l, k) && attr_added(p, l, l[k].0) implies exists|a: int|
                0 <= a < added@.len() && added@[a].0@ == l[k].0 by {
                if k == i {
                    assert forall|j: int| 0 <= j < i implies (#[trigger] newer.attrs@[j]).0@ != name@ by {
                        assert(l[j].0 == newer.attrs@[j].0@);
                    }
                    assert(first == Some(i));
                    assert(added@[added@.len() - 1].0@ == l[k].0);
                } else {
                    let a = choose|a: int| 0 <= a < old_a.len() && old_a[a].0@ == l[k].0;
                    assert(added@[a] == old_a[a]);
                }
            }
        }
        i += 1;
    }
    proof {
        assert forall|name: Seq<char>| #[trigger] attr_modified(p, l, name) implies exists|a: int|
            0 <= a < modified@.len() && modified@[a].name@ == name by {
            lemma_lookup_attr(l, name);
            let k = choose|k: int| #[trigger] first_at(l, k) && l[k].0 == name;
        }
        assert forall|name: Seq<char>| #[trigger] attr_added(p, l, name) implies exists|a: int|
            0 <= a < added@.len() && added@[a].0@ == name by {
            lemma_lookup_attr(l, name);
            let k = choose|k: int| #[trigger] first_at(l, k) && l[k].0 == name;
        }
        assert forall|a: int, b: int| 0 <= a < b < modified@.len() implies modified@[a].name@ != modified@[b].name@ by {
            assert(first_at(l, midx[b]));
            assert(l[midx[a]].0 != l[midx[b]].0);
        }
        assert forall|a: int, b: int| 0 <= a < b < added@.len() implies added@[a].0@ != added@[b].0@ by {
            assert(first_at(l, aidx[b]));
            assert(l[aidx[a]].0 != l[aidx[b]].0);
        }
    }
    (modified, added)
}

/// Net change between two versions of one element: `None` when both agree on every
/// attribute and on the member list (a record rewritten unchanged); otherwise the
/// changed, added and removed attributes, the member lists when they differ, and
/// the newer version.
pub fn diff_ele_data(prev: &EleData, latest: &EleData) -> (r: Option<ModifiedElement>)
    ensures
        r is None <==> same_content(prev@, latest@),
        r matches Some(m) ==> {
            &&& buckets_of(prev@, latest@, m)
            &&& m.current_data@ == latest@
            &&& m.noun == latest.noun
            &&& (m.children_changed is None <==> prev@.children == latest@.children)
            &&& m.children_changed matches Some(c) ==> c.0@ == prev@.children && c.1@ == latest@.children
        },
{
    let (modified_attrs, added_attrs) = newer_side_buckets(prev, latest);
    let (_, deleted_attrs) = newer_side_buckets(latest, prev);
    let same_children = refnos_equal(&prev.children, &latest.children);
    let ghost p = prev@.attrs;
    let ghost l = latest@.attrs;
    if modified_attrs.len() == 0 && added_attrs.len() == 0 && deleted_attrs.len() == 0 && same_children {
        proof {
            assert forall|name: Seq<char>| #[trigger] lookup_attr(p, name) == lookup_attr(l, name) by {
                if lookup_attr(p, name) != lookup_attr(l, name) {
                    if lookup_attr(p, name) is Some && lookup_attr(l, name) is Some {
                        assert(attr_modified(p, l, name));
                    } else if lookup_attr(p, name) is None {
                        assert(attr_added(p, l, name));
                    } else {
                        assert(attr_added(l, p, name));
                    }
                }
            }
        }
        return None;
    }
    proof {
        if same_content(prev@, latest@) {
            if modified_attrs.len() > 0 {
                assert(attr_modified(p, l, modified_attrs@[0].name@));
            }
            if added_attrs.len() > 0 {
                assert(attr_added(p, l, added_attrs@[0].0@));
            }
            if deleted_attrs.len() > 0 {
                assert(attr_added(l, p, deleted_attrs@[0].0@));
            }
        }
    }
    proof {
        assert forall|name: Seq<char>| #[trigger] attr_deleted(p, l, name) implies exists|i: int|
            0 <= i < deleted_attrs@.len() && deleted_attrs@[i].0@ == name by {
            assert(attr_added(l, p, name));
        }
        assert forall|i: int| 0 <= i < deleted_attrs@.len() implies ({
            let c = #[trigger] deleted_attrs@[i];
            attr_deleted(p, l, c.0@) && lookup_attr(p, c.0@) == Some(c.1@)
        }) by {
            assert(attr_added(l, p, deleted_attrs@[i].0@));
        }
    }
    let children_changed = if same_children {
        None
    } else {
        Some((copy_refnos(&prev.children), copy_refnos(&latest.children)))
    };
    Some(
        ModifiedElement {
            noun: latest.noun,
            current_data: copy_ele(latest),
            modified_attrs,
            added_attrs,
            deleted_attrs,
            children_changed,
        },
    )
}

/// What happened to one element in a session.
#[derive(Debug)]
pub enum EleOperationDetail {
    Add(EleData),
    Modified(ModifiedElement),
    Deleted,
    /// No operation.
    NoOp,
}

/// One element operation, attached to a session.
#[derive(Debug)]
pub struct EleOperationData {
    pub refno: u64,
    pub sesno: u32,
    pub detail: EleOperationDetail,
}

impl EleOperationData {
    /// An operation on `refno` in session `sesno`.
    pub fn new(refno: u64, sesno: u32, detail: EleOperationDetail) -> (r: EleOperationData)
        ensures
            r.refno == refno,
            r.sesno == sesno,
            r.detail == detail,
    {
        EleOperationData { refno, sesno, detail }
    }
}

/// The minimal identity of a record: reference number, noun hash and name, owner.
#[derive(Debug)]
pub struct RawElementIdentity {
    pub refno: u64,
    pub noun_hash: i32,
    pub noun_name: String,
    pub owner: u64,
}

pub struct IdentityView {
    pub refno: u64,
    pub noun_hash: i32,
    pub noun_name: Seq<char>,
    pub owner: u64,
}

impl View for RawElementIdentity {
    type V = IdentityView;

    open spec fn view(&self) -> IdentityView {
        IdentityView { refno: self.refno, noun_hash: self.noun_hash, noun_name: self.noun_name@, owner: self.owner }
    }
}

/// First identity stored at this byte offset.
pub open spec fn identity_record_at(ids: Seq<(u64, RawElementIdentity)>, offset: u64) -> Option<IdentityView>
    decreases ids.len(),
{
    if ids.len() == 0 {
        None
    } else if ids[0].0 == offset {
        Some(ids[0].1@)
    } else {
        identity_record_at(ids.drop_first(), offset)
    }
}

/// Identity derived from a decoded record.
pub open spec fn identity_of(v: EleView) -> IdentityView {
    IdentityView { refno: v.refno, noun_hash: v.noun as i32, noun_name: v.noun_name, owner: v.owner }
}

/// Identity at an offset: from the full record when it decodes, else from the
/// stored minimal identity.
pub open spec fn spec_identity_at(io: PdmsIO, offset: u64) -> Option<IdentityView> {
    match record_at(io.records@, offset) {
        Some(v) => Some(identity_of(v)),
        None => identity_record_at(io.identities@, offset),
    }
}

impl PdmsIO {
    /// Decodes the minimal identity of the record at a byte offset.
    pub fn parse_raw_element_identity(&self, offset: u64) -> (r: Result<RawElementIdentity, IoError>)
        ensures
            match spec_identity_at(*self, offset) {
                Some(v) => r matches Ok(i) && i@ == v,
                None => r == Err::<RawElementIdentity, IoError>(IoError::UnreadableRecord { offset }),
            },
    {
        match self.parse_raw_element(offset) {
            Ok(e) => {
                return Ok(RawElementIdentity { refno: e.refno, noun_hash: e.noun as i32, noun_name: e.noun_name, owner: e.owner });
            },
            Err(_) => {},
        }
        let mut i: usize = 0;
        assert(self.identities@.skip(0) == self.identities@);
        while i < self.identities.len()
            invariant
                i <= self.identities.len(),
                record_at(self.records@, offset) is None,
                identity_record_at(self.identities@, offset) == identity_record_at(self.identities@.skip(i as int), offset),
            decreases self.identities.len() - i,
        {
            assert(self.identities@.skip(i as int).drop_first() == self.identities@.skip(i + 1));
            if self.identities[i].0 == offset {
                assert(self.identities@.skip(i as int)[0] == self.identities@[i as int]);
                let id = &self.identities[i].1;
                return Ok(RawElementIdentity { refno: id.refno, noun_hash: id.noun_hash, noun_name: id.noun_name.clone(), owner: id.owner });
            }
            i += 1;
        }
        Err(IoError::UnreadableRecord { offset })
    }
}

} // verus!
