use std::collections::BTreeMap;

use pdms_io::defines::{IndexPageData, PdmsHeader, RefnoDataLoc, SessionPageData};
use pdms_io::io::PdmsIO;
use pdms_io::session_index_diff::{
    collect_net_changes, diff_roots, ensure_target_root_is_new, find_index_page, resolve_window_anchors, DiffError, MemPages,
    RecordLoc,
};

fn loc(r0: u32, r1: u32, pgno: u32, offset: u32, flag: u16) -> RefnoDataLoc {
    RefnoDataLoc { refno_0: r0, refno_1: r1, pgno, offset, flag }
}

fn leaf(locs: Vec<RefnoDataLoc>) -> IndexPageData {
    IndexPageData {
        page_type: 0,
        noun: 0,
        level: 0,
        unknowns: [0; 3],
        pfno: 0,
        refno_locs: locs,
        remain_zero_bytes: Vec::new(),
    }
}

fn session(pgno: u32, sesno: i32, last_ses_pageno: i32, index_root_pageno: u32, end_pgno: u32) -> SessionPageData {
    SessionPageData { pgno, sesno, last_ses_pageno, index_root_pageno, end_pgno }
}

/// Two sessions whose index roots are the same page, which lies below the base
/// session's end page.
fn shared_root_image() -> PdmsIO {
    let header = PdmsHeader { db_num: 1, noun: 0, latest_ses_pgno: 40, page_no: 0 };
    PdmsIO::new(
        "test".to_string(),
        "test.db".to_string(),
        true,
        Some(header),
        0,
        vec![session(40, 2, 20, 15, 39), session(20, 1, -1, 15, 19)],
        vec![(15, leaf(vec![loc(1, 1, 12, 0, 1)]))],
        Vec::new(),
        Vec::new(),
    )
}

#[test]
fn window_anchors_resolve_base_and_target_and_refuse_overruns() {
    let map: BTreeMap<i32, u32> = [(3, 30), (5, 50), (9, 90)].into_iter().collect();

    assert_eq!(resolve_window_anchors(&map, 4, 9).expect("anchors"), (Some(3), 9));
    assert_eq!(
        resolve_window_anchors(&map, 1, 9).expect("anchors"),
        (None, 9),
        "no session before the start: empty base tree"
    );
    assert_eq!(
        resolve_window_anchors(&map, 6, 8).expect("anchors"),
        (Some(5), 5),
        "no session inside the window: the target falls before the start"
    );
    assert!(resolve_window_anchors(&map, 4, 10).is_err(), "an end beyond the latest session fails");
    assert!(resolve_window_anchors(&map, 0, 5).is_err());
    assert!(resolve_window_anchors(&map, 7, 6).is_err());
}

#[test]
fn an_append_only_target_root_must_sit_above_the_base_end_page() {
    ensure_target_root_is_new(8, 10, 11).expect("a new root above the base end page is normal");

    let at_boundary = ensure_target_root_is_new(8, 10, 10)
        .err()
        .expect("a target root exactly on the base end page is refused");
    let text = at_boundary.message();
    assert!(text.contains("10") && text.contains("拒绝差分"), "the refusal names both pages: {text}");

    assert!(ensure_target_root_is_new(8, 10, 9).is_err());
}

/// Both window ends share one index root, and that root sits below the base end
/// page: the shortcut must answer before the append-model gate would refuse it.
#[test]
fn the_identical_root_shortcut_comes_before_the_append_model_gate() {
    let mut io = shared_root_image();
    assert!(ensure_target_root_is_new(15, 19, 15).is_err(), "a root at or below the base end page is refused on its own");
    let set = collect_net_changes(&mut io, 2..=2, false).expect("an untouched index is an empty diff, not a file anomaly");
    assert_eq!(set.base_sesno, Some(1));
    assert_eq!(set.target_sesno, 2);
    assert!(set.added.is_empty() && set.deleted.is_empty() && set.modified.is_empty());
}

/// The net diff reads nothing but the file image it is given.
#[test]
fn the_diff_module_never_touches_the_database() {
    let mut io = shared_root_image();
    let first = collect_net_changes(&mut io, 2..=2, false).expect("diff");
    let second = collect_net_changes(&mut io, 2..=2, false).expect("diff");
    assert_eq!(first.base_sesno, second.base_sesno);
    assert_eq!(first.target_sesno, second.target_sesno);
    assert_eq!(first.added, second.added);
    assert_eq!(first.deleted, second.deleted);
    assert_eq!(first.modified, second.modified);
}

#[test]
fn target_root_refusal_message_names_pages() {
    let error = DiffError::TargetRootNotNew { base_root: 8, base_end_pgno: 10, target_root: 9 };
    assert_eq!(
        error.message(),
        "目标索引根页 9 不高于 base 会话末页 10（base 根 8），文件形态超出追加模型，拒绝差分"
    );
}

const SENTINEL: u32 = 0x8000_0001;

fn page(level: u32, locs: Vec<RefnoDataLoc>) -> IndexPageData {
    IndexPageData {
        page_type: 6,
        noun: 0x00CC_47DF,
        level,
        unknowns: [0; 3],
        pfno: 0,
        refno_locs: locs,
        remain_zero_bytes: Vec::new(),
    }
}

fn mem_pages(pages: Vec<(u32, IndexPageData)>) -> MemPages {
    MemPages { pages, reads: Vec::new() }
}

fn refnos(list: &[(u64, RecordLoc)]) -> Vec<u64> {
    list.iter().map(|(refno, _)| *refno).collect()
}

fn refnos3(list: &[(u64, RecordLoc, RecordLoc)]) -> Vec<u64> {
    list.iter().map(|(refno, _, _)| *refno).collect()
}

fn r(r1: u32) -> u64 {
    (100u64 << 32) | r1 as u64
}

/// The four leaf states: added, deleted, moved (modified), and copied in place
/// (untouched, in no class).
#[test]
fn leaf_diff_classifies_added_deleted_modified_and_untouched() {
    let mut pages = mem_pages(vec![
        (5, page(0, vec![loc(100, 1, 2, 0, 1), loc(100, 2, 2, 2, 1), loc(100, 3, 2, 4, 1)])),
        (11, page(0, vec![loc(100, 1, 2, 0, 1), loc(100, 2, 12, 0, 1), loc(100, 4, 12, 2, 1)])),
    ]);

    let diff = diff_roots(&mut pages, Some(5), 10, 11).expect("diff");

    assert_eq!(refnos(&diff.added), vec![r(4)]);
    assert_eq!(refnos(&diff.deleted), vec![r(3)]);
    assert_eq!(refnos3(&diff.modified), vec![r(2)]);
    assert_eq!(diff.modified[0].1, RecordLoc { pgno: 12, offset: 0 }, "a modification carries the new target position");
    assert_eq!(diff.modified[0].2, RecordLoc { pgno: 2, offset: 2 }, "a modification carries the old base position");
    assert_eq!(diff.deleted[0].1, RecordLoc { pgno: 2, offset: 4 }, "a deletion carries the old base position");
}

/// A shared subtree is skipped whole on both sides and never read.
#[test]
fn shared_subtrees_are_pruned_on_both_sides_without_reading_them() {
    let left_leaf = page(0, vec![loc(100, 1, 2, 0, 1), loc(100, 2, 2, 2, 1)]);
    let base_right = page(0, vec![loc(100, 8, 3, 0, 1), loc(100, 9, 3, 2, 1)]);
    let target_right = page(0, vec![loc(100, 8, 13, 0, 1), loc(100, 9, 3, 2, 1)]);
    let mut pages = mem_pages(vec![
        (6, left_leaf),
        (7, base_right),
        (8, page(1, vec![loc(SENTINEL, SENTINEL, 6, 0, 1), loc(100, 8, 7, 0, 1)])),
        (21, target_right),
        (20, page(1, vec![loc(SENTINEL, SENTINEL, 6, 0, 1), loc(100, 8, 21, 0, 1)])),
    ]);

    let diff = diff_roots(&mut pages, Some(8), 10, 20).expect("diff");

    assert!(!pages.reads.contains(&6), "the shared left leaf is skipped on both sides: {:?}", pages.reads);
    assert_eq!(diff.stats.shared_subtree_prunes, 1);
    assert_eq!(refnos3(&diff.modified), vec![r(8)], "only the entry that moved in the right leaf");
    assert!(diff.added.is_empty() && diff.deleted.is_empty());
}

/// A subtree whose page number equals the base end page is shared too.
#[test]
fn a_child_page_exactly_at_the_base_end_is_still_shared() {
    let boundary_leaf = page(0, vec![loc(100, 1, 2, 0, 1), loc(100, 2, 2, 2, 1)]);
    let base_right = page(0, vec![loc(100, 8, 3, 0, 1)]);
    let target_right = page(0, vec![loc(100, 8, 13, 0, 1)]);
    let mut pages = mem_pages(vec![
        (10, boundary_leaf),
        (7, base_right),
        (8, page(1, vec![loc(SENTINEL, SENTINEL, 10, 0, 1), loc(100, 8, 7, 0, 1)])),
        (21, target_right),
        (20, page(1, vec![loc(SENTINEL, SENTINEL, 10, 0, 1), loc(100, 8, 21, 0, 1)])),
    ]);

    let diff = diff_roots(&mut pages, Some(8), 10, 20).expect("diff");

    assert!(!pages.reads.contains(&10), "a subtree at the base end page is skipped on both sides: {:?}", pages.reads);
    assert_eq!(diff.stats.shared_subtree_prunes, 1, "the boundary subtree counts as a prune");
    assert_eq!(refnos3(&diff.modified), vec![r(8)], "pruning does not change the classification");
    assert!(diff.added.is_empty() && diff.deleted.is_empty());
}

/// An inner sentinel is the leftmost child pointer and is followed; a leaf sentinel
/// is no data and is skipped and counted.
#[test]
fn internal_sentinel_is_followed_and_leaf_sentinel_is_skipped() {
    let mut pages = mem_pages(vec![
        (30, page(1, vec![loc(SENTINEL, SENTINEL, 31, 0, 1)])),
        (31, page(0, vec![loc(SENTINEL, SENTINEL, 2, 0, 1), loc(100, 1, 32, 0, 1)])),
    ]);

    let diff = diff_roots(&mut pages, None, 0, 30).expect("diff");

    assert_eq!(refnos(&diff.added), vec![r(1)], "an empty base: everything is added");
    assert_eq!(diff.stats.target.sentinel_leaf_entries, 1);
    assert!(pages.reads.contains(&31), "the subtree of the inner sentinel is walked: {:?}", pages.reads);
}

/// Duplicate leaf entries: the first one wins, the others are counted.
#[test]
fn duplicate_leaf_entries_keep_the_first_and_are_counted() {
    let mut pages = mem_pages(vec![(40, page(0, vec![loc(100, 1, 41, 0, 1), loc(100, 1, 42, 0, 1)]))]);

    let diff = diff_roots(&mut pages, None, 0, 40).expect("diff");

    assert_eq!(diff.added.len(), 1);
    assert_eq!(diff.added[0].1, RecordLoc { pgno: 41, offset: 0 }, "the first one wins");
    assert_eq!(diff.stats.target.duplicate_leaf_entries, 1);
}

/// A child page whose level does not descend is skipped and counted; an unreadable
/// child page is tolerated and counted; routing and presence ignore the flag, which
/// only feeds the observation counters.
#[test]
fn level_regressions_and_routing_anomalies_are_counted_and_flags_stay_blind() {
    let mut pages = mem_pages(vec![
        (50, page(1, vec![loc(100, 1, 51, 0, 1), loc(100, 2, 52, 0, 1), loc(100, 3, 99, 0, 2)])),
        (51, page(1, vec![loc(100, 1, 60, 0, 1)])),
        (52, page(0, vec![loc(100, 2, 53, 0, 3), loc(100, 7, 53, 2, 1)])),
    ]);

    let diff = diff_roots(&mut pages, None, 0, 50).expect("diff");

    assert_eq!(diff.stats.target.level_anomalies, 1);
    assert_eq!(diff.stats.target.unreadable_child_pages, 1);
    assert_eq!(diff.stats.target.nonlive_leaf_entries, 1, "a flag other than 1 is only counted");
    assert_eq!(diff.stats.target.out_of_range_leaf_entries, 1);
    assert_eq!(refnos(&diff.added), vec![r(2)], "the reachable flag 3 entry exists; the out-of-range leftover does not");
    assert_eq!(diff.stats.target.flag_histogram.get(&3), Some(&1));
    assert_eq!(diff.stats.target.flag_histogram.get(&2), Some(&1));
    assert!(!pages.reads.contains(&60), "no descent below a level anomaly: {:?}", pages.reads);
    assert!(pages.reads.contains(&99), "inner routing ignores the flag, page 99 is tried: {:?}", pages.reads);
}

/// A leftover entry whose key lies outside its leaf's routing range is unreachable
/// by the point search and does not exist for the diff either.
#[test]
fn out_of_range_leftover_leaf_entries_are_invisible_like_the_point_search() {
    let mut pages = mem_pages(vec![
        (61, page(0, vec![loc(100, 10, 7, 0, 1), loc(100, 99, 7, 2, 1)])),
        (62, page(0, vec![loc(100, 20, 7, 4, 1)])),
        (60, page(1, vec![loc(100, 10, 61, 0, 1), loc(100, 20, 62, 0, 1)])),
    ]);

    let diff = diff_roots(&mut pages, None, 0, 60).expect("diff");

    assert_eq!(refnos(&diff.added), vec![r(10), r(20)], "the leftover key (100,99) is unreachable");
    assert_eq!(diff.stats.target.out_of_range_leaf_entries, 1);
}

/// After a rewrite an inner page can hold the same key twice, the new pointer
/// first: the stale one is dropped and never joins the shared roots.
#[test]
fn stale_duplicate_key_child_pointers_are_ignored_and_never_pollute_shared_roots() {
    let mut pages = mem_pages(vec![
        (91, page(0, vec![loc(100, 1, 5, 0, 1), loc(100, 2, 5, 2, 1)])),
        (190, page(0, vec![loc(100, 1, 105, 0, 1)])),
        (195, page(1, vec![loc(100, 1, 190, 0, 1), loc(100, 1, 91, 0, 1)])),
    ]);

    let diff = diff_roots(&mut pages, Some(91), 100, 195).expect("diff");

    assert_eq!(diff.stats.target.duplicate_child_pointers, 1);
    assert_eq!(diff.stats.shared_subtree_prunes, 0, "a stale pointer never joins the shared roots");
    assert_eq!(refnos3(&diff.modified), vec![r(1)]);
    assert_eq!(refnos(&diff.deleted), vec![r(2)], "the base leaf is walked and the deletion of B is reported");
    assert_eq!(
        pages.reads.iter().filter(|&&p| p == 91).count(),
        1,
        "the old leaf is read once, by the base side: {:?}",
        pages.reads
    );
}

/// An unreadable child page is skipped and counted; an unreadable root is an error.
#[test]
fn unreadable_child_pages_are_skipped_with_a_count_and_a_bad_root_is_fatal() {
    let mut pages = mem_pages(vec![
        (70, page(1, vec![loc(100, 1, 71, 0, 1), loc(100, 2, 72, 0, 1)])),
        (72, page(0, vec![loc(100, 2, 73, 0, 1)])),
    ]);

    let diff = diff_roots(&mut pages, None, 0, 70).expect("diff");
    assert_eq!(diff.stats.target.unreadable_child_pages, 1);
    assert_eq!(refnos(&diff.added), vec![r(2)]);

    let mut missing_root = mem_pages(vec![]);
    assert_eq!(
        diff_roots(&mut missing_root, None, 0, 80).err(),
        Some(DiffError::UnreadableRoot { pgno: 80 }),
        "an unreadable root is an error"
    );
}

/// A base root shared whole by the target: the base side reads nothing and nothing
/// is deleted.
#[test]
fn a_fully_shared_base_tree_reads_nothing_and_deletes_nothing() {
    let mut pages = mem_pages(vec![
        (6, page(0, vec![loc(100, 1, 2, 0, 1)])),
        (21, page(0, vec![loc(100, 2, 22, 0, 1)])),
        (20, page(1, vec![loc(SENTINEL, SENTINEL, 6, 0, 1), loc(100, 2, 21, 0, 1)])),
    ]);

    let diff = diff_roots(&mut pages, Some(6), 10, 20).expect("diff");

    assert_eq!(refnos(&diff.added), vec![r(2)]);
    assert!(diff.deleted.is_empty(), "every entry of a shared subtree survives");
    assert_eq!(pages.reads.iter().filter(|&&p| p == 6).count(), 0, "a shared base root is not read: {:?}", pages.reads);
    assert_eq!(diff.stats.base.pages_read, 0);
}

/// Session 1 (page 20, root 15, end 19) and session 2 (page 40, root `target_root`,
/// end 39); session 2's own pages are 20..40.
fn window_image(target_root: u32, index_pages: Vec<(u32, IndexPageData)>) -> PdmsIO {
    let header = PdmsHeader { db_num: 1, noun: 0, latest_ses_pgno: 40, page_no: 0 };
    PdmsIO::new(
        "test".to_string(),
        "test.db".to_string(),
        true,
        Some(header),
        0,
        vec![session(40, 2, 20, target_root, 39), session(20, 1, -1, 15, 19)],
        index_pages,
        Vec::new(),
        Vec::new(),
    )
}

fn k1(r1: u32) -> u64 {
    (1u64 << 32) | r1 as u64
}

#[test]
fn a_window_diff_classifies_and_names_the_last_touch_session() {
    let mut io = window_image(35, vec![
        (15, leaf(vec![loc(1, 1, 12, 0, 1)])),
        (35, leaf(vec![loc(1, 1, 30, 0, 1), loc(1, 2, 31, 4, 1)])),
    ]);
    let set = collect_net_changes(&mut io, 2..=2, false).expect("diff");
    assert_eq!((set.base_sesno, set.target_sesno), (Some(1), 2));
    assert_eq!(set.added.len(), 1);
    assert_eq!(set.added[0].refno, k1(2));
    assert_eq!(set.added[0].loc, RecordLoc { pgno: 31, offset: 4 });
    assert_eq!(set.added[0].last_touch_sesno, Some(2));
    assert_eq!(set.modified.len(), 1);
    assert_eq!(set.modified[0].refno, k1(1));
    assert_eq!(set.modified[0].base_loc, Some(RecordLoc { pgno: 12, offset: 0 }));
    assert!(set.deleted.is_empty());
    assert_eq!(set.stats.target.leaf_entries, 2);
    assert_eq!(set.stats.base.leaf_entries, 1);
}

#[test]
fn window_refusals_name_their_stage() {
    let pages = || vec![(15, leaf(vec![loc(1, 1, 12, 0, 1)])), (35, leaf(vec![loc(1, 1, 30, 0, 1)]))];
    let mut io = window_image(35, pages());
    assert_eq!(collect_net_changes(&mut io, 2..=3, false).err(), Some(DiffError::EndBeyondLatest { end: 3, latest: 2 }));
    assert_eq!(collect_net_changes(&mut io, 0..=2, false).err(), Some(DiffError::StartBelowOne { start: 0 }));
    let mut io = window_image(35, vec![(15, leaf(vec![loc(1, 1, 12, 0, 1)]))]);
    assert_eq!(collect_net_changes(&mut io, 2..=2, false).err(), Some(DiffError::UnreadableRoot { pgno: 35 }));
    let mut io = window_image(18, vec![(15, leaf(vec![loc(1, 1, 12, 0, 1)])), (18, leaf(vec![loc(1, 1, 30, 0, 1)]))]);
    assert_eq!(
        collect_net_changes(&mut io, 2..=2, false).err(),
        Some(DiffError::TargetRootNotNew { base_root: 15, base_end_pgno: 19, target_root: 18 })
    );
}

#[test]
fn an_entry_on_a_page_of_no_session_fails_the_window() {
    let mut io = window_image(35, vec![
        (15, leaf(vec![loc(1, 1, 12, 0, 1)])),
        (35, leaf(vec![loc(1, 1, 30, 0, 1), loc(1, 3, 50, 0, 1)])),
    ]);
    assert_eq!(
        collect_net_changes(&mut io, 2..=2, false).err(),
        Some(DiffError::NoLastTouchSession { refno: k1(3), pgno: 50 })
    );
    let mut io = window_image(35, vec![(15, leaf(vec![loc(1, 4, 12, 0, 1)])), (35, leaf(vec![loc(1, 1, 30, 0, 1)]))]);
    assert_eq!(
        collect_net_changes(&mut io, 2..=2, false).err(),
        Some(DiffError::NoLastTouchSession { refno: k1(4), pgno: 12 })
    );
}

/// The diff asks for each page once, the target root first, then the base walk's
/// pages, and never for the shared subtree.
#[test]
fn the_diff_asks_for_each_page_once_in_walk_order() {
    let left_leaf = page(0, vec![loc(100, 1, 2, 0, 1), loc(100, 2, 2, 2, 1)]);
    let base_right = page(0, vec![loc(100, 8, 3, 0, 1), loc(100, 9, 3, 2, 1)]);
    let target_right = page(0, vec![loc(100, 8, 13, 0, 1), loc(100, 9, 3, 2, 1)]);
    let mut pages = mem_pages(vec![
        (6, left_leaf),
        (7, base_right),
        (8, page(1, vec![loc(SENTINEL, SENTINEL, 6, 0, 1), loc(100, 8, 7, 0, 1)])),
        (21, target_right),
        (20, page(1, vec![loc(SENTINEL, SENTINEL, 6, 0, 1), loc(100, 8, 21, 0, 1)])),
    ]);

    diff_roots(&mut pages, Some(8), 10, 20).expect("diff");

    assert_eq!(pages.reads, vec![20, 21, 8, 7]);
}

/// A page is looked up whole: header fields, entries and trailing bytes.
#[test]
fn an_index_page_is_copied_whole() {
    let stored = IndexPageData {
        page_type: 6,
        noun: 0x00CC_47DF,
        level: 2,
        unknowns: [1, 2, 3],
        pfno: 77,
        refno_locs: vec![loc(100, 1, 2, 0, 1)],
        remain_zero_bytes: vec![0, 0, 9],
    };
    let pages = vec![(4, leaf(Vec::new())), (5, stored)];
    let found = find_index_page(&pages, 5).expect("page 5");
    assert_eq!(found.page_type, 6);
    assert_eq!(found.noun, 0x00CC_47DF);
    assert_eq!(found.level, 2);
    assert_eq!(found.unknowns, [1, 2, 3]);
    assert_eq!(found.pfno, 77);
    assert_eq!(found.refno_locs, vec![loc(100, 1, 2, 0, 1)]);
    assert_eq!(found.remain_zero_bytes, vec![0, 0, 9]);
    assert!(find_index_page(&pages, 6).is_none());
}
