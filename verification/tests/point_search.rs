use pdms_io::defines::{IndexPageData, RefnoDataLoc};
use pdms_io::point_search::point_search;
use pdms_io::session_index_diff::{diff_roots, MemPages, RecordLoc};

const SENTINEL: u32 = 0x8000_0001;

fn loc(r0: u32, r1: u32, pgno: u32, offset: u32) -> RefnoDataLoc {
    RefnoDataLoc { refno_0: r0, refno_1: r1, pgno, offset, flag: 1 }
}

fn page(level: u32, locs: Vec<RefnoDataLoc>) -> IndexPageData {
    IndexPageData {
        page_type: 6,
        noun: 0,
        level,
        unknowns: [0; 3],
        pfno: 0,
        refno_locs: locs,
        remain_zero_bytes: Vec::new(),
    }
}

fn r(r1: u32) -> u64 {
    (100u64 << 32) | r1 as u64
}

fn two_level_tree() -> Vec<(u32, IndexPageData)> {
    vec![
        (60, page(1, vec![loc(SENTINEL, SENTINEL, 59, 0), loc(100, 10, 61, 0), loc(100, 20, 62, 0)])),
        (59, page(0, vec![loc(100, 3, 7, 6)])),
        (61, page(0, vec![loc(100, 10, 7, 0), loc(100, 12, 7, 2), loc(100, 99, 7, 9)])),
        (62, page(0, vec![loc(100, 20, 8, 4), loc(100, 25, 8, 5)])),
    ]
}

fn out_of_order_tree() -> Vec<(u32, IndexPageData)> {
    vec![
        (80, page(1, vec![loc(100, 10, 81, 0), loc(100, 30, 82, 0), loc(100, 20, 83, 0)])),
        (81, page(0, vec![loc(100, 10, 5, 0)])),
        (82, page(0, vec![loc(100, 35, 5, 2)])),
        (83, page(0, vec![loc(100, 35, 9, 9), loc(100, 20, 9, 8)])),
    ]
}

#[test]
fn point_search_routes_by_key_intervals_down_to_the_leaf() {
    let pages = two_level_tree();
    let hit = point_search(&pages, 60, r(12)).expect("hit");
    assert_eq!((hit.pgno, hit.offset), (7, 2));
    let hit = point_search(&pages, 60, r(25)).expect("hit");
    assert_eq!((hit.pgno, hit.offset), (8, 5));
    let hit = point_search(&pages, 60, r(3)).expect("the sentinel is the leftmost branch");
    assert_eq!((hit.pgno, hit.offset), (7, 6));
    assert_eq!(point_search(&pages, 60, r(15)), None, "routed to leaf 61, which lacks the key");
    assert_eq!(point_search(&pages, 60, r(99)), None, "the leftover entry of leaf 61 lies in leaf 62's range");
    assert_eq!(point_search(&pages, 77, r(12)), None, "no such root page");
}

#[test]
fn point_search_never_routes_to_an_out_of_order_entry() {
    let pages = out_of_order_tree();
    let hit = point_search(&pages, 80, r(35)).expect("hit");
    assert_eq!((hit.pgno, hit.offset), (5, 2), "key 35 belongs to the entry 30, not to the later entry 20");
    assert_eq!(point_search(&pages, 80, r(20)), None, "key 20 routes to the entry 10");
}

#[test]
fn point_search_refuses_a_child_that_does_not_sit_lower() {
    let pages = vec![
        (90, page(1, vec![loc(100, 1, 91, 0)])),
        (91, page(1, vec![loc(100, 1, 92, 0)])),
        (92, page(0, vec![loc(100, 1, 3, 3)])),
    ];
    assert_eq!(point_search(&pages, 90, r(1)), None);
}

/// Every entry the diff reports for a tree is the point search's hit for its key.
#[test]
fn diff_entries_are_point_search_hits() {
    let pages = two_level_tree();
    let mut source = MemPages { pages: two_level_tree(), reads: Vec::new() };
    let diff = diff_roots(&mut source, None, 0, 60).expect("diff");
    let added: Vec<(u64, RecordLoc)> = diff.added.clone();
    assert_eq!(added.iter().map(|(k, _)| *k).collect::<Vec<_>>(), vec![r(3), r(10), r(12), r(20), r(25)]);
    for (key, at) in added {
        let hit = point_search(&pages, 60, key).expect("point hit");
        assert_eq!(RecordLoc { pgno: hit.pgno, offset: hit.offset }, at);
    }

    let out_of_order = out_of_order_tree();
    let mut source = MemPages { pages: out_of_order_tree(), reads: Vec::new() };
    let diff = diff_roots(&mut source, None, 0, 80).expect("diff");
    assert_eq!(diff.added, vec![(r(10), RecordLoc { pgno: 5, offset: 0 }), (r(35), RecordLoc { pgno: 5, offset: 2 })]);
    for (key, at) in diff.added {
        let hit = point_search(&out_of_order, 80, key).expect("point hit");
        assert_eq!(RecordLoc { pgno: hit.pgno, offset: hit.offset }, at);
    }
}

/// On a tree, a key is in the diff of an empty base exactly when the point search
/// finds it, at the same record.
#[test]
fn tree_walk_collects_exactly_the_point_search_hits() {
    let pages = two_level_tree();
    let mut source = MemPages { pages: two_level_tree(), reads: Vec::new() };
    let diff = diff_roots(&mut source, None, 0, 60).expect("diff");
    for k in 0..120u32 {
        let key = r(k);
        let in_diff = diff.added.iter().find(|(refno, _)| *refno == key).map(|(_, at)| *at);
        let hit = point_search(&pages, 60, key).map(|e| RecordLoc { pgno: e.pgno, offset: e.offset });
        assert_eq!(in_diff, hit, "key {}", k);
    }
}
