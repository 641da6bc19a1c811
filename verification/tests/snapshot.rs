use std::collections::BTreeSet;

use pdms_io::defines::{refno_from_two_nums, IndexPageData, PdmsHeader, RefnoDataLoc, SessionPageData};
use pdms_io::io::{EleData, IoError, PdmsIO};
use pdms_io::snapshot::{DabaconSnapshot, SnapshotError, StableFileId};

const PAGE: u64 = 0x800;
const ID: StableFileId = StableFileId::Unix { device: 3, inode: 9 };

fn loc(r1: u32, pgno: u32) -> RefnoDataLoc {
    RefnoDataLoc { refno_0: 1, refno_1: r1, pgno, offset: 0, flag: 1 }
}

fn leaf(locs: Vec<RefnoDataLoc>) -> IndexPageData {
    IndexPageData { page_type: 6, noun: 0x00CC_47DF, level: 0, unknowns: [0; 3], pfno: 0, refno_locs: locs, remain_zero_bytes: Vec::new() }
}

fn element(r1: u32, owner: u32, children: &[u32]) -> EleData {
    EleData {
        refno: refno_from_two_nums(1, r1),
        owner: if owner == 0 { 0 } else { refno_from_two_nums(1, owner) },
        noun: 0,
        noun_name: "ZONE".to_string(),
        attrs: Vec::new(),
        children: children.iter().map(|c| refno_from_two_nums(1, *c)).collect(),
        sesno: 0,
    }
}

/// Session 1 (page 20, root 15) holds elements 1 and 2, 1 listing 2; session 2
/// (page 40, root 35) rewrites 1 without members and keeps 2 as it was.
fn image(db_num: i32) -> PdmsIO {
    let header = PdmsHeader { db_num, noun: 0, latest_ses_pgno: 40, page_no: 0 };
    PdmsIO::new(
        "test".to_string(),
        "test.db".to_string(),
        true,
        Some(header),
        41 * PAGE,
        vec![
            SessionPageData { pgno: 40, sesno: 2, last_ses_pageno: 20, index_root_pageno: 35, end_pgno: 39 },
            SessionPageData { pgno: 20, sesno: 1, last_ses_pageno: -1, index_root_pageno: 15, end_pgno: 19 },
        ],
        vec![(15, leaf(vec![loc(1, 12), loc(2, 13)])), (35, leaf(vec![loc(1, 30), loc(2, 13)]))],
        vec![(12 * PAGE, element(1, 0, &[2])), (13 * PAGE, element(2, 1, &[])), (30 * PAGE, element(1, 0, &[]))],
        Vec::new(),
    )
}

fn open(io: PdmsIO) -> Result<DabaconSnapshot, SnapshotError> {
    DabaconSnapshot::open(io, "test.db".to_string(), ID, 41 * PAGE, vec![7u8; 4], "DESI".to_string())
}

#[test]
fn opening_freezes_the_latest_session() {
    let snapshot = open(image(5)).expect("opens");
    let token = snapshot.token();
    assert_eq!(token.target_sesno(), 2);
    assert_eq!(token.latest_ses_pgno(), 40);
    assert_eq!(token.dbnum(), 5);
    assert_eq!(token.db_type(), "DESI");
    assert_eq!(token.path(), "test.db");
    assert_eq!(token.opened_len(), 41 * PAGE);
}

#[test]
fn an_image_without_header_does_not_open() {
    let mut io = image(5);
    io.header = None;
    assert_eq!(open(io).err(), Some(SnapshotError::Open { error: IoError::NoHeader }));
}

#[test]
fn freezing_moves_only_backwards_to_a_known_session() {
    let mut snapshot = open(image(5)).expect("opens");
    assert_eq!(snapshot.freeze_target(3), Err(SnapshotError::MissingTargetSession { sesno: 3 }));
    snapshot.freeze_target(1).expect("session 1 exists");
    assert_eq!(snapshot.token().target_sesno(), 1);
    assert_eq!(snapshot.token().latest_ses_pgno(), 20);
    assert_eq!(snapshot.freeze_target(2), Err(SnapshotError::TargetBeyondFrozen { requested: 2, frozen: 1 }));
}

#[test]
fn reopening_checks_the_frozen_identity() {
    let snapshot = open(image(5)).expect("opens");
    let token = snapshot.token().duplicate();
    let again = DabaconSnapshot::open_verified(image(5), ID, 41 * PAGE, vec![7u8; 4], "DESI".to_string(), &token).expect("same file");
    assert_eq!(again.token().target_sesno(), 2);
    let other = StableFileId::Unix { device: 3, inode: 10 };
    assert_eq!(
        DabaconSnapshot::open_verified(image(5), other, 41 * PAGE, vec![7u8; 4], "DESI".to_string(), &token).err(),
        Some(SnapshotError::FileReplaced)
    );
    assert_eq!(
        DabaconSnapshot::open_verified(image(6), ID, 41 * PAGE, vec![7u8; 4], "DESI".to_string(), &token).err(),
        Some(SnapshotError::IdentityDrift)
    );
    assert_eq!(
        DabaconSnapshot::open_verified(image(5), ID, 40 * PAGE, vec![7u8; 4], "DESI".to_string(), &token).err(),
        Some(SnapshotError::LengthRegressed { frozen: 41 * PAGE, current: 40 * PAGE })
    );
    let at_one = DabaconSnapshot::open_verified_at(image(5), ID, 41 * PAGE, vec![7u8; 4], "DESI".to_string(), &token, 1).expect("older session");
    assert_eq!(at_one.token().target_sesno(), 1);
}

#[test]
fn the_path_identity_accepts_the_same_file_only() {
    let snapshot = open(image(5)).expect("opens");
    assert_eq!(snapshot.verify_path_identity(ID), Ok(()));
    assert_eq!(snapshot.verify_path_identity(StableFileId::Windows { volume_serial: 3, file_index: 9 }), Err(SnapshotError::FileReplaced));
}

#[test]
fn membership_questions_are_answered_from_the_frozen_image() {
    let snapshot = open(image(5)).expect("opens");
    let one = refno_from_two_nums(1, 1);
    let two = refno_from_two_nums(1, 2);
    let nine = refno_from_two_nums(1, 9);
    let candidates: BTreeSet<u64> = [one, two, nine].into_iter().collect();
    let present = snapshot.contains_refnos_at(2, &candidates, ID).expect("within the frozen session");
    assert_eq!(present, [one, two].into_iter().collect());
    assert_eq!(snapshot.contains_refnos_at(3, &candidates, ID), Err(SnapshotError::TargetBeyondFrozen { requested: 3, frozen: 2 }));

    assert_eq!(snapshot.member_alive_at(two, 1, ID), Ok(true), "element 1 lists 2 in session 1");
    assert_eq!(snapshot.member_alive_at(two, 2, ID), Ok(false), "element 1 dropped 2 in session 2");
    assert_eq!(
        snapshot.member_alive_at(two, 5, ID),
        Err(SnapshotError::MembershipTargetOutOfRange { sesno: 5, frozen: 2 })
    );

    let roots: BTreeSet<u64> = [two].into_iter().collect();
    let dead = snapshot.expand_deleted_membership_roots(&roots, 1, 2, ID).expect("expands");
    assert_eq!(dead, roots);
}

#[test]
fn the_frozen_image_carries_the_frozen_header() {
    let snapshot = open(image(5)).expect("opens");
    assert_eq!(snapshot.frozen_image(vec![1, 2, 3, 4, 5, 6]), Ok(vec![7, 7, 7, 7, 5, 6]));
    assert_eq!(snapshot.frozen_image(vec![1, 2]), Err(SnapshotError::ShortImage { len: 2, header_len: 4 }));
}

#[test]
fn session_numbers_in_a_range_ascend() {
    let snapshot = open(image(5)).expect("opens");
    assert_eq!(snapshot.session_sesnos_in_range(0..=5), vec![1, 2]);
    assert_eq!(snapshot.session_sesnos_in_range(2..=2), vec![2]);
    assert!(snapshot.session_sesnos_in_range(3..=9).is_empty());
    assert_eq!(snapshot.session_ranges().len(), 2);
}

#[test]
fn an_image_whose_session_chain_does_not_descend_does_not_open() {
    let mut io = image(5);
    io.session_pages[0].last_ses_pageno = 50;
    assert_eq!(
        open(io).err(),
        Some(SnapshotError::Open { error: IoError::SessionChainNotDescending { pgno: 40, last_ses_pageno: 50 } })
    );
    let mut io = image(5);
    io.session_pages.remove(1);
    assert_eq!(open(io).err(), Some(SnapshotError::Open { error: IoError::UnreadableSessionPage { pgno: 20 } }));
}

#[test]
fn reopening_an_older_generation_reports_the_regression() {
    let snapshot = open(image(5)).expect("opens");
    let token = snapshot.token().duplicate();
    let mut older = image(5);
    older.header = Some(PdmsHeader { db_num: 5, noun: 0, latest_ses_pgno: 20, page_no: 0 });
    assert_eq!(
        DabaconSnapshot::open_verified(older, ID, 41 * PAGE, vec![7u8; 4], "DESI".to_string(), &token).err(),
        Some(SnapshotError::SessionRegressed { frozen: 2, current: 1 })
    );
    assert_eq!(
        DabaconSnapshot::open_verified_at(image(5), ID, 41 * PAGE, vec![7u8; 4], "DESI".to_string(), &token, 3).err(),
        Some(SnapshotError::TargetBeyondFrozen { requested: 3, frozen: 2 })
    );
    assert_eq!(
        DabaconSnapshot::open_verified_at(image(5), ID, 41 * PAGE, vec![7u8; 4], "DESI".to_string(), &token, 0).err(),
        Some(SnapshotError::MissingTargetSession { sesno: 0 })
    );
    assert_eq!(
        DabaconSnapshot::open_at(image(5), "test.db".to_string(), ID, 41 * PAGE, vec![7u8; 4], "DESI".to_string(), 0).err(),
        Some(SnapshotError::MissingTargetSession { sesno: 0 })
    );
}
