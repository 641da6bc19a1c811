use pdms_io::defines::{refno_from_two_nums, IndexPageData, PdmsHeader, RefnoDataLoc, SessionPageData};
use pdms_io::io::{EleData, IoError, PdmsIO};
use pdms_io::leaf_scan::refno_leaf_index_page;

fn loc(r0: u32, r1: u32, pgno: u32, offset: u32) -> RefnoDataLoc {
    RefnoDataLoc { refno_0: r0, refno_1: r1, pgno, offset, flag: 1 }
}

fn leaf(locs: Vec<RefnoDataLoc>) -> IndexPageData {
    IndexPageData { page_type: 6, noun: 0x00CC_47DF, level: 0, unknowns: [0; 3], pfno: 0, refno_locs: locs, remain_zero_bytes: Vec::new() }
}

fn refno(r1: u32) -> u64 {
    refno_from_two_nums(1, r1)
}

fn element(r1: u32, children: &[u32]) -> EleData {
    EleData {
        refno: refno(r1),
        owner: 0,
        noun: 0,
        noun_name: "BOX".to_string(),
        attrs: vec![("TYPE".to_string(), "BOX".to_string())],
        children: children.iter().map(|c| refno(*c)).collect(),
        sesno: 0,
    }
}

const PAGE: u64 = 0x800;

/// Session 1 (page 20) wrote element 1 on page 12; session 2 (page 40) rewrote
/// element 1 on page 32 and wrote elements 2 and 3 on pages 30 and 31. Element 1
/// lists 2 as member, element 2 lists 3.
fn image() -> PdmsIO {
    let header = PdmsHeader { db_num: 7, noun: 0, latest_ses_pgno: 40, page_no: 0 };
    let mut io = PdmsIO::new(
        "test".to_string(),
        "test.db".to_string(),
        true,
        Some(header),
        41 * PAGE,
        vec![
            SessionPageData { pgno: 40, sesno: 2, last_ses_pageno: 20, index_root_pageno: 35, end_pgno: 39 },
            SessionPageData { pgno: 20, sesno: 1, last_ses_pageno: 3, index_root_pageno: 15, end_pgno: 19 },
            SessionPageData { pgno: 3, sesno: 0, last_ses_pageno: -1, index_root_pageno: 2, end_pgno: 3 },
        ],
        vec![
            (15, leaf(vec![loc(1, 1, 12, 0)])),
            (35, leaf(vec![loc(1, 1, 32, 0), loc(1, 2, 30, 0), loc(1, 3, 31, 0)])),
        ],
        vec![
            (12 * PAGE, element(1, &[])),
            (32 * PAGE, element(1, &[2])),
            (30 * PAGE, element(2, &[3])),
            (31 * PAGE, element(3, &[])),
        ],
        Vec::new(),
    );
    io.open().expect("the session chain walks");
    io
}

/// A raw file image of 41 pages with the leaf marker at the start of pages 15
/// and 35.
fn file_bytes() -> Vec<u8> {
    let mut bytes = vec![0xEEu8; 41 * PAGE as usize];
    let marker = refno_leaf_index_page();
    for pgno in [15usize, 35] {
        let at = pgno * PAGE as usize;
        bytes[at..at + marker.len()].copy_from_slice(&marker);
    }
    bytes
}

#[test]
fn open_builds_the_session_maps_from_the_chain() {
    let io = image();
    assert_eq!(io.dbnum, 7);
    assert_eq!(io.get_ses_pageno(2), Some(40));
    assert_eq!(io.get_ses_pageno(1), Some(20));
    assert_eq!(io.get_ses_pageno(0), None, "the walk stops at page 4 and below");
    assert_eq!(io.get_sesno(30), Some(2));
    assert_eq!(io.get_sesno(12), Some(1));
    assert_eq!(io.get_sesno(40), None);
    assert_eq!(io.get_latest_att_sesno(), Ok(2));
}

#[test]
fn a_session_yields_the_entries_on_its_own_pages() {
    let mut io = image();
    let latest: Vec<u64> = io.collect_refno_locs(2).iter().map(|l| l.get_refno()).collect();
    assert_eq!(latest, vec![refno(1), refno(2), refno(3)]);
    let first: Vec<u64> = io.collect_refno_locs(1).iter().map(|l| l.get_refno()).collect();
    assert_eq!(first, vec![refno(1)]);
    assert!(io.collect_refno_locs(9).is_empty());
    assert_eq!(io.get_latest_att_pgno(), Ok(32));
}

#[test]
fn increment_elements_keep_the_newest_version() {
    let mut io = image();
    let eles = io.collect_increment_eles(1..=2).expect("every record decodes");
    assert_eq!(eles.len(), 3);
    assert_eq!(eles[&refno(1)].children, vec![refno(2)], "the session 2 version of element 1 wins");
    assert_eq!(eles[&refno(1)].sesno, 2);
    let only_first = io.collect_increment_eles(1..=1).expect("every record decodes");
    assert_eq!(only_first.len(), 1);
    assert!(only_first[&refno(1)].children.is_empty());
    assert_eq!(only_first[&refno(1)].sesno, 1);
}

#[test]
fn the_page_number_search_finds_the_latest_entry() {
    let mut io = image();
    let found = io.search_refno_pgno(refno(2)).expect("reachable");
    assert_eq!((found.pgno, found.offset), (30, 0));
    assert_eq!(io.search_refno_pgno(refno(9)), Err(IoError::NotFound { refno: refno(9) }));
    let ele = io.auto_get_element(refno(1)).expect("decodes");
    assert_eq!(ele.children, vec![refno(2)]);
}

#[test]
fn the_deep_lookup_gathers_the_member_tree() {
    let mut io = image();
    let tree = io.auto_get_elements_deep(refno(1)).expect("every member decodes");
    let keys: Vec<u64> = tree.keys().copied().collect();
    assert_eq!(keys, vec![refno(1), refno(2), refno(3)]);
    assert_eq!(
        io.auto_get_elements_deep(refno(9)).err(),
        Some(IoError::NotFound { refno: refno(9) }),
        "a root the index does not hold fails"
    );
}

#[test]
fn the_last_leaf_page_names_the_latest_record_page() {
    let mut io = image();
    assert_eq!(io.get_att_latest_pgno_old(&file_bytes()), Ok(32), "the last marker sits on page 35");
    assert_eq!(io.get_att_latest_pgno_old(&vec![0u8; 4 * PAGE as usize]), Ok(0), "no marker, no page");
    let mut short = file_bytes();
    short.truncate(31 * PAGE as usize);
    assert_eq!(io.get_att_latest_pgno_old(&short), Ok(12), "with page 35 cut off, page 15 holds the last marker");
    let marker = refno_leaf_index_page();
    let mut unknown = vec![0u8; 41 * PAGE as usize];
    unknown[7 * PAGE as usize..7 * PAGE as usize + 16].copy_from_slice(&marker);
    assert_eq!(io.get_att_latest_pgno_old(&unknown), Err(IoError::UnreadableIndexPage { pgno: 7 }));
}

#[test]
fn the_old_increment_scan_reads_the_leaf_pages_after_a_page() {
    let mut io = image();
    let from_20 = io.collect_increment_eles_old(&file_bytes(), 20).expect("pages readable");
    let keys: Vec<u64> = from_20.keys().copied().collect();
    assert_eq!(keys, vec![refno(1), refno(2), refno(3)], "page 35 names records on pages 30 to 32");
    assert_eq!(from_20[&refno(1)].children, vec![refno(2)]);
    let from_33 = io.collect_increment_eles_old(&file_bytes(), 33).expect("pages readable");
    assert!(from_33.is_empty(), "every entry of page 35 points below page 33");
    let beyond = io.collect_increment_eles_old(&file_bytes(), 100).expect("nothing to read");
    assert!(beyond.is_empty());
}

#[test]
fn the_history_walk_lists_every_version() {
    let mut io = image();
    let history = io.store_all_refno_sesno_map();
    let versions: Vec<(u64, u32)> = history.history_loc_map[&refno(1)].iter().copied().collect();
    assert_eq!(versions, vec![(12 * PAGE, 1), (32 * PAGE, 2)]);
    assert_eq!(history.history_loc_map[&refno(2)].len(), 1);
    assert_eq!(history.history_loc_map.len(), 3);
    assert_eq!(history.history_rows, vec![(refno(1), 1, 12 * PAGE)], "only the older version of element 1 is history");
    let pages: Vec<u32> = history.sessions.iter().map(|s| s.pgno).collect();
    assert_eq!(pages, vec![40, 20]);
}
