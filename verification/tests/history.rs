use std::collections::{BTreeMap, BTreeSet};

use pdms_io::defines::{refno_from_two_nums, IndexPageData, PdmsHeader, RefnoDataLoc, SessionPageData};
use pdms_io::history_replay::{count_session_ops, gen_owner_relates_h, set_pairs, EleOperation, PeKey};
use pdms_io::io::{EleData, PdmsIO};

const PAGE: u64 = 0x800;

fn refno(r1: u32) -> u64 {
    refno_from_two_nums(1, r1)
}

fn loc(r1: u32, pgno: u32) -> RefnoDataLoc {
    RefnoDataLoc { refno_0: 1, refno_1: r1, pgno, offset: 0, flag: 1 }
}

fn leaf(locs: Vec<RefnoDataLoc>) -> IndexPageData {
    IndexPageData { page_type: 6, noun: 0x00CC_47DF, level: 0, unknowns: [0; 3], pfno: 0, refno_locs: locs, remain_zero_bytes: Vec::new() }
}

fn element(r1: u32, children: &[u32]) -> EleData {
    EleData {
        refno: refno(r1),
        owner: 0,
        noun: 0,
        noun_name: "ZONE".to_string(),
        attrs: vec![("TYPE".to_string(), "ZONE".to_string())],
        children: children.iter().map(|c| refno(*c)).collect(),
        sesno: 0,
    }
}

/// Session 1 (page 20) wrote element 1 on page 12 with the members `first`;
/// session 2 (page 40) rewrote element 1 on page 32 with the members `second` and
/// wrote elements 2 and 3 on pages 30 and 31.
fn image(first: &[u32], second: &[u32]) -> PdmsIO {
    let header = PdmsHeader { db_num: 7, noun: 0, latest_ses_pgno: 40, page_no: 0 };
    let mut io = PdmsIO::new(
        "test".to_string(),
        "test.db".to_string(),
        true,
        Some(header),
        41 * PAGE,
        vec![
            SessionPageData { pgno: 40, sesno: 2, last_ses_pageno: 20, index_root_pageno: 35, end_pgno: 39 },
            SessionPageData { pgno: 20, sesno: 1, last_ses_pageno: 3, index_root_pageno: 15, end_pgno: 19 },
            SessionPageData { pgno: 3, sesno: 0, last_ses_pageno: -1, index_root_pageno: 2, end_pgno: 3 },
        ],
        vec![(15, leaf(vec![loc(1, 12)])), (35, leaf(vec![loc(1, 32), loc(2, 30), loc(3, 31)]))],
        vec![
            (12 * PAGE, element(1, first)),
            (32 * PAGE, element(1, second)),
            (30 * PAGE, element(2, &[])),
            (31 * PAGE, element(3, &[])),
        ],
        Vec::new(),
    );
    io.open().expect("the session chain walks");
    io
}

fn answers(history: &BTreeMap<u64, BTreeSet<(u64, u32)>>, value: bool) -> BTreeMap<u64, Vec<bool>> {
    history.iter().map(|(k, v)| (*k, vec![value; v.len()])).collect()
}

#[test]
fn a_rewrite_that_adds_a_member_is_a_modification_and_an_addition() {
    let mut io = image(&[], &[2]);
    let history = io.store_all_refno_sesno_map().history_loc_map;
    let json = answers(&history, true);

    let replay = io.replay_refno_history(refno(1), &history, &json[&refno(1)]);

    assert_eq!(replay.ses_ops, vec![(1, EleOperation::Add), (2, EleOperation::Modified), (2, EleOperation::Add)]);
    assert_eq!(
        replay.pe_ops,
        vec![
            (PeKey::Latest { refno: refno(1) }, EleOperation::Modified, 1),
            (PeKey::AtSession { refno: refno(2), sesno: 2 }, EleOperation::Add, 1),
        ]
    );
    assert!(replay.deleted.is_empty());
    assert_eq!(replay.added_only, None);
    assert_eq!(replay.his_sesnos.iter().copied().collect::<Vec<_>>(), vec![1]);
    assert_eq!(replay.saved, vec![(12 * PAGE, 1, true)]);
}

#[test]
fn a_single_version_is_an_addition_only() {
    let mut io = image(&[], &[2]);
    let history = io.store_all_refno_sesno_map().history_loc_map;
    let json = answers(&history, true);

    let replay = io.replay_refno_history(refno(2), &history, &json[&refno(2)]);

    assert_eq!(replay.ses_ops, vec![(2, EleOperation::Add)]);
    assert_eq!(replay.added_only, Some(30 * PAGE));
    assert!(replay.pe_ops.is_empty() && replay.saved.is_empty() && replay.his_sesnos.is_empty());
}

#[test]
fn without_a_history_record_the_next_version_is_an_addition_again() {
    let mut io = image(&[], &[2]);
    let history = io.store_all_refno_sesno_map().history_loc_map;
    let json = answers(&history, false);

    let replay = io.replay_refno_history(refno(1), &history, &json[&refno(1)]);

    assert_eq!(replay.ses_ops, vec![(1, EleOperation::Add), (2, EleOperation::Add), (2, EleOperation::Add)]);
    assert_eq!(replay.pe_ops, vec![(PeKey::AtSession { refno: refno(2), sesno: 2 }, EleOperation::Add, 0)]);
    assert_eq!(replay.saved, vec![(12 * PAGE, 1, false)]);
}

#[test]
fn the_plan_merges_every_replay_and_counts_per_session() {
    let mut io = image(&[], &[2]);
    let history = io.store_all_refno_sesno_map().history_loc_map;
    let json = answers(&history, true);

    let plan = io.plan_history_sync(&history, &json);

    assert_eq!(plan.ses_ops.len(), 5);
    assert_eq!(plan.latest_ops, BTreeMap::from([(refno(1), (EleOperation::Modified, 1))]));
    assert_eq!(plan.session_ops, BTreeMap::from([((refno(2), 2), (EleOperation::Add, 1))]));
    assert!(plan.deleted.is_empty());
    assert_eq!(plan.added_only, BTreeMap::from([(refno(2), 30 * PAGE), (refno(3), 31 * PAGE)]));
    assert_eq!(plan.his_records.len(), 1);
    assert_eq!(plan.his_records[0].0, refno(1));
    assert_eq!(plan.saved, vec![(refno(1), 12 * PAGE, 1, true)]);
    assert!(plan.restored.is_empty());

    let counts = count_session_ops(&plan.ses_ops);
    assert_eq!(counts, BTreeMap::from([(1, (1, 0, 0)), (2, (3, 1, 0))]));
}

#[test]
fn a_member_dropped_with_a_single_version_is_restored() {
    let mut io = image(&[2], &[]);
    let history = io.store_all_refno_sesno_map().history_loc_map;
    let json = answers(&history, true);

    let plan = io.plan_history_sync(&history, &json);

    assert_eq!(plan.deleted, BTreeMap::from([(refno(2), 2)]));
    assert_eq!(
        plan.session_ops[&(refno(2), 2)],
        (EleOperation::Deleted, 2),
        "a dropped member is filed with the session of its own latest version"
    );
    assert_eq!(plan.restored, vec![(refno(2), 2, 30 * PAGE)]);

    let restorable = io.restore_versions(&plan.restored);
    assert_eq!(restorable.len(), 1);
    assert_eq!((restorable[0].0, restorable[0].1, restorable[0].2, restorable[0].3), (refno(2), 2, 30 * PAGE, 2));
    assert_eq!(restorable[0].4.refno, refno(2));

    let counts = count_session_ops(&plan.ses_ops);
    assert_eq!(counts[&2], (2, 1, 1));
}

#[test]
fn set_pairs_lists_in_ascending_order() {
    let set: BTreeSet<(u64, u32)> = [(5, 2), (1, 9), (5, 1)].into_iter().collect();
    assert_eq!(set_pairs(&set), vec![(1, 9), (5, 1), (5, 2)]);
}

#[test]
fn owner_relations_fall_back_to_the_member_history() {
    let his: BTreeMap<u64, BTreeSet<(u64, u32)>> = BTreeMap::from([
        (refno(2), BTreeSet::from([(30 * PAGE, 2)])),
        (refno(3), BTreeSet::from([(5 * PAGE, 1), (31 * PAGE, 2)])),
    ]);
    let children = vec![refno(2), refno(3), refno(4), refno(5)];
    let queried = vec![(0, 0), (0, 0), (7, 9), (0, 0)];

    let relates = gen_owner_relates_h(&his, &children, 1, &queried);

    assert_eq!(relates, vec![(0, refno(2), 0), (1, refno(3), 1), (2, refno(4), 7)]);
}
