use std::collections::BTreeMap;

use pdms_io::defines::{IndexPageData, PdmsHeader, RefnoDataLoc, SessionPageData};
use pdms_io::io::{diff_ele_data, IoError, EleData, EleOperationData, EleOperationDetail, ModifiedElement, PdmsIO, RawElementIdentity};
use pdms_io::net_window::{
    collect_net_window, finish_net_window, reconcile_member_deletions, synthesize_net_window, synthesize_net_window_with_resolver,
    MemMembership, MemRecords, MemberReconciliation, ResolveError, WindowFailure, WindowStage, WindowWarning,
};
use pdms_io::session_index_diff::{NetChangeSet, NetChangeStats, NetEntry, RecordLoc};
use pdms_io::snapshot::{DabaconSnapshot, SnapshotError, SnapshotToken, StableFileId};

#[test]
fn net_window_uses_the_vendor_element_diff_single_source() {
    let shared: fn(&EleData, &EleData) -> Option<ModifiedElement> = pdms_io::io::diff_ele_data;
    let reexported: fn(&EleData, &EleData) -> Option<ModifiedElement> = pdms_io::net_window::diff_ele_data;
    assert!(shared == reexported, "the net window reuses the io element diff");
}

fn element(pairs: &[(&str, &str)], children: &[u64]) -> EleData {
    EleData {
        refno: 0,
        owner: 0,
        noun: 0,
        noun_name: String::new(),
        attrs: pairs.iter().map(|(name, value)| (name.to_string(), value.to_string())).collect(),
        children: children.to_vec(),
        sesno: 0,
    }
}

fn attr<'a>(data: &'a EleData, name: &str) -> Option<&'a str> {
    data.attrs.iter().find(|(n, _)| n == name).map(|(_, v)| v.as_str())
}

fn owned(refno: u64, owner: u64, children: &[u64]) -> EleData {
    let mut data = element(&[("TYPE", "STRU")], children);
    data.refno = refno;
    data.owner = owner;
    data
}

fn parent_modified(parent: u64, owner: u64, old_children: &[u64], new_children: &[u64], sesno: u32) -> EleOperationData {
    let before = owned(parent, owner, old_children);
    let after = owned(parent, owner, new_children);
    EleOperationData::new(parent, sesno, EleOperationDetail::Modified(diff_ele_data(&before, &after).expect("member delta")))
}

fn operation_kinds(window: &BTreeMap<u32, Vec<EleOperationData>>) -> BTreeMap<u64, &'static str> {
    window
        .values()
        .flatten()
        .map(|operation| {
            let kind = match operation.detail {
                EleOperationDetail::Add(_) => "add",
                EleOperationDetail::Modified(_) => "modified",
                EleOperationDetail::Deleted => "deleted",
                EleOperationDetail::NoOp => "none",
            };
            (operation.refno, kind)
        })
        .collect()
}

fn resolver_with(records: Vec<(i32, EleData)>) -> MemMembership {
    let mut resolver = MemMembership::new();
    for (sesno, data) in records {
        resolver.insert(sesno, data);
    }
    resolver
}

#[test]
fn stale_index_record_removed_from_owner_becomes_deleted() {
    let (owner, parent, child) = (1, 10, 20);
    let mut window = BTreeMap::from([(2, vec![parent_modified(parent, owner, &[child], &[], 2)])]);
    let mut resolver = resolver_with(vec![
        (1, owned(parent, owner, &[child])),
        (1, owned(child, parent, &[])),
        (2, owned(parent, owner, &[])),
        // the target index still reaches the old child record, but the parent no longer lists it
        (2, owned(child, parent, &[])),
    ]);

    let supplemented = reconcile_member_deletions(&mut window, Some(1), 2, &mut resolver)
        .expect("membership reconciliation")
        .membership_deleted;

    assert_eq!(supplemented, 1);
    assert_eq!(operation_kinds(&window)[&parent], "modified");
    assert_eq!(operation_kinds(&window)[&child], "deleted");
}

#[test]
fn member_relocated_between_owners_is_not_deleted() {
    let (root, old_owner, new_owner, child) = (1, 10, 11, 20);
    let mut window = BTreeMap::from([(
        2,
        vec![parent_modified(old_owner, root, &[child], &[], 2), parent_modified(new_owner, root, &[], &[child], 2)],
    )]);
    let mut resolver = MemMembership::new();

    let supplemented = reconcile_member_deletions(&mut window, Some(1), 2, &mut resolver)
        .expect("move is decided by the two parent deltas")
        .membership_deleted;

    assert_eq!(supplemented, 0);
    assert!(!operation_kinds(&window).contains_key(&child));
}

#[test]
fn deleted_root_expands_its_unreachable_base_subtree() {
    let (world, parent, root, leaf) = (1, 10, 20, 21);
    let mut window = BTreeMap::from([(2, vec![parent_modified(parent, world, &[root], &[], 2)])]);
    let mut resolver = resolver_with(vec![
        (1, owned(parent, world, &[root])),
        (1, owned(root, parent, &[leaf])),
        (1, owned(leaf, root, &[])),
        (2, owned(parent, world, &[])),
        (2, owned(root, parent, &[leaf])),
        (2, owned(leaf, root, &[])),
    ]);

    let supplemented = reconcile_member_deletions(&mut window, Some(1), 2, &mut resolver)
        .expect("subtree reconciliation")
        .membership_deleted;
    let kinds = operation_kinds(&window);

    assert_eq!(supplemented, 2);
    assert_eq!(kinds[&root], "deleted");
    assert_eq!(kinds[&leaf], "deleted");
}

#[test]
fn descendant_relocated_out_of_a_deleted_subtree_stays_live() {
    let (world, parent, root, leaf, new_owner) = (1, 10, 20, 21, 30);
    let mut window = BTreeMap::from([(2, vec![parent_modified(parent, world, &[root], &[], 2)])]);
    let mut resolver = resolver_with(vec![
        (1, owned(parent, world, &[root])),
        (1, owned(root, parent, &[leaf])),
        (1, owned(leaf, root, &[])),
        (2, owned(parent, world, &[])),
        (2, owned(root, parent, &[leaf])),
        (2, owned(leaf, new_owner, &[])),
        (2, owned(new_owner, world, &[leaf])),
    ]);

    reconcile_member_deletions(&mut window, Some(1), 2, &mut resolver).expect("moved descendant");
    let kinds = operation_kinds(&window);

    assert_eq!(kinds[&root], "deleted");
    assert!(!kinds.contains_key(&leaf));
}

/// Born and deleted inside the window: neither owner list has the element, so no
/// member delta shows it, while the index side reports an addition.
#[test]
fn add_created_and_deleted_inside_the_window_is_dropped() {
    let (owner, parent, child) = (1, 10, 20);
    let mut window =
        BTreeMap::from([(2, vec![EleOperationData::new(child, 2, EleOperationDetail::Add(owned(child, parent, &[])))])]);
    let mut resolver = resolver_with(vec![
        (0, owned(parent, owner, &[])),
        // the target still reaches the orphan record, but the parent no longer lists it
        (2, owned(parent, owner, &[])),
        (2, owned(child, parent, &[])),
    ]);

    let reconciliation =
        reconcile_member_deletions(&mut window, Some(0), 2, &mut resolver).expect("collapsed window reconciliation");

    assert_eq!(reconciliation.dropped_phantom_adds, 1);
    assert_eq!(reconciliation.membership_deleted, 0);
    assert!(!operation_kinds(&window).contains_key(&child));
}

/// An addition its target owner lists is an ordinary addition.
#[test]
fn add_still_listed_by_its_target_owner_survives() {
    let (owner, parent, child) = (1, 10, 20);
    let mut window =
        BTreeMap::from([(2, vec![EleOperationData::new(child, 2, EleOperationDetail::Add(owned(child, parent, &[])))])]);
    let mut resolver = resolver_with(vec![
        (0, owned(parent, owner, &[])),
        (2, owned(parent, owner, &[child])),
        (2, owned(child, parent, &[])),
    ]);

    let reconciliation =
        reconcile_member_deletions(&mut window, Some(0), 2, &mut resolver).expect("live add reconciliation");

    assert_eq!(reconciliation, MemberReconciliation::default());
    assert_eq!(operation_kinds(&window)[&child], "add");
}

#[test]
fn member_arbitration_parse_failure_blocks_the_window() {
    let (owner, parent, child) = (1, 10, 20);
    let mut window = BTreeMap::from([(2, vec![parent_modified(parent, owner, &[child], &[], 2)])]);
    let mut resolver = MemMembership::new();
    let injected = IoError::UnreadableRecord { offset: 4242 };
    resolver.fail(2, child, injected);

    let error = reconcile_member_deletions(&mut window, Some(1), 2, &mut resolver).expect_err("parse failure must block");
    assert_eq!(error, ResolveError::MemberLookupFailed { refno: child, sesno: 2, cause: injected });
    assert!(error.message().contains(&injected.message()), "the injected failure text propagates: {}", error.message());
}

/// Two versions equal field by field: a record rewritten unchanged, no operation.
#[test]
fn identical_versions_diff_to_none() {
    let prev = element(&[("TYPE", "BOX"), ("XLEN", "100")], &[7]);
    let latest = element(&[("TYPE", "BOX"), ("XLEN", "100")], &[7]);
    assert!(diff_ele_data(&prev, &latest).is_none());
}

/// Changed values go to the modified bucket (old value first), new keys to the
/// added bucket, vanished keys to the deleted bucket.
#[test]
fn attribute_buckets_carry_old_and_new_values() {
    let prev = element(&[("TYPE", "BOX"), ("XLEN", "100"), ("GONE", "1")], &[]);
    let latest = element(&[("TYPE", "BOX"), ("XLEN", "200"), ("NEW", "9")], &[]);

    let modified = diff_ele_data(&prev, &latest).expect("a net change");

    assert_eq!(
        modified.modified_attr("XLEN"),
        Some(("100".to_string(), "200".to_string())),
        "the modified bucket carries (old value, new value)"
    );
    assert_eq!(modified.added_attrs, vec![("NEW".to_string(), "9".to_string())]);
    assert_eq!(modified.deleted_attrs, vec![("GONE".to_string(), "1".to_string())]);
    assert!(modified.children_changed.is_none());
}

/// A change of the member list alone (a reorder too) is a modification.
#[test]
fn children_only_change_still_emits_modified() {
    let prev = element(&[("TYPE", "ZONE")], &[1, 2]);
    let latest = element(&[("TYPE", "ZONE")], &[2, 1]);

    let modified = diff_ele_data(&prev, &latest).expect("a reorder of members is a net change");
    let (old, new) = modified.children_changed.expect("both member lists are carried");
    assert_eq!(old, vec![1, 2]);
    assert_eq!(new, vec![2, 1]);
    assert!(modified.added_attrs.is_empty());
}

fn at(pgno: u32, offset: u32) -> RecordLoc {
    RecordLoc { pgno, offset }
}

fn net_entry(refno: u64, loc: RecordLoc, base_loc: Option<RecordLoc>, last_touch_sesno: Option<i32>) -> NetEntry {
    NetEntry { refno, loc, base_loc, last_touch_sesno, noun: None }
}

fn change_set(target_sesno: i32) -> NetChangeSet {
    NetChangeSet {
        requested_start: 1,
        requested_end: target_sesno,
        base_sesno: Some(1),
        target_sesno,
        added: Vec::new(),
        deleted: Vec::new(),
        modified: Vec::new(),
        stats: NetChangeStats::default(),
    }
}

/// Records known by position only; a position not listed does not decode.
fn records(known: Vec<(RecordLoc, u64, EleData)>) -> MemRecords {
    let list = known
        .into_iter()
        .map(|(loc, refno, mut data)| {
            data.refno = refno;
            (loc, data)
        })
        .collect();
    MemRecords::new(list, Vec::new())
}

/// A net addition hangs on its last-touch session, not on the window end; the
/// diff statistics pass into the receipt unchanged.
#[test]
fn a_net_added_entry_becomes_an_add_on_its_last_touch_session() {
    let mut net = change_set(30);
    net.added.push(net_entry(7, at(10, 0), None, Some(12)));
    net.stats.elapsed_ms = 42;

    let mut resolver = records(vec![(at(10, 0), 7, element(&[("TYPE", "BOX")], &[]))]);
    let outcome = synthesize_net_window(net, &mut resolver).expect("synthesis");

    let ops = outcome.window.get(&12).expect("hangs on last-touch session 12");
    assert_eq!(ops.len(), 1);
    assert_eq!(ops[0].refno, 7);
    assert_eq!(ops[0].sesno, 12);
    match &ops[0].detail {
        EleOperationDetail::Add(data) => assert_eq!(attr(data, "TYPE"), Some("BOX")),
        other => panic!("a net addition must become an Add, got {other:?}"),
    }
    assert!(
        !outcome.window.contains_key(&30),
        "must not hang on the window end session: {:?}",
        outcome.window.keys().collect::<Vec<_>>()
    );
    assert!(outcome.warnings.is_empty());
    assert_eq!(outcome.stats.elapsed_ms, 42, "the diff statistics reach the receipt");
}

/// A net deletion hangs on the window end session and decodes no record.
#[test]
fn a_net_deleted_entry_hangs_on_the_window_end_session() {
    let mut net = change_set(30);
    net.deleted.push(net_entry(8, at(11, 4), None, Some(12)));

    let mut resolver = records(Vec::new());
    let outcome = synthesize_net_window(net, &mut resolver).expect("synthesis");

    assert!(!outcome.window.contains_key(&12), "must not hang on the session of the old version");
    let ops = outcome.window.get(&30).expect("hangs on window end session 30");
    assert!(matches!(ops[0].detail, EleOperationDetail::Deleted));
    assert_eq!(ops[0].sesno, 30);
    assert_eq!(outcome.unparseable_finals, 0, "a deletion decodes no record");
    assert!(resolver.asked.is_empty());
}

/// A net modification decodes each version exactly once, the final one first.
#[test]
fn a_net_modified_entry_diffs_both_versions_exactly_once() {
    let mut net = change_set(30);
    net.modified.push(net_entry(9, at(20, 0), Some(at(19, 0)), Some(25)));
    let base = element(&[("TYPE", "BOX"), ("XLEN", "100")], &[]);
    let latest = element(&[("TYPE", "BOX"), ("XLEN", "200")], &[]);

    let mut resolver = records(vec![(at(20, 0), 9, latest), (at(19, 0), 9, base)]);
    let outcome = synthesize_net_window(net, &mut resolver).expect("synthesis");

    assert_eq!(resolver.asked, vec![(at(20, 0), true), (at(19, 0), true)], "each side decoded once, the final version first");
    let ops = outcome.window.get(&25).expect("hangs on last-touch session 25");
    match &ops[0].detail {
        EleOperationDetail::Modified(modified) => {
            assert_eq!(modified.modified_attr("XLEN"), Some(("100".to_string(), "200".to_string())))
        },
        other => panic!("a net modification must become a Modified, got {other:?}"),
    }
    assert_eq!(outcome.unchanged_rewrites, 0);
    assert!(outcome.warnings.is_empty());
}

/// A base version that does not decode turns the modification into a full addition
/// and a warning that names the reference number.
#[test]
fn a_base_parse_failure_degrades_to_add_and_names_the_refno() {
    let mut net = change_set(30);
    net.modified.push(net_entry(9, at(20, 0), Some(at(19, 0)), Some(25)));

    let mut resolver = records(vec![(at(20, 0), 9, element(&[("TYPE", "BOX")], &[]))]);
    let outcome = synthesize_net_window(net, &mut resolver).expect("synthesis");

    let ops = outcome.window.get(&25).expect("an operation after the fallback");
    assert!(matches!(ops[0].detail, EleOperationDetail::Add(_)), "an unreadable base version falls back to an addition");
    assert_eq!(outcome.warnings.len(), 1);
    match &outcome.warnings[0] {
        WindowWarning::BaseDecodeFailed { refno, error } => {
            assert_eq!(*refno, 9);
            assert_eq!(*error, ResolveError::Undecodable { pgno: 19, offset: 0 });
        },
        other => panic!("the warning must name the refno and the base version: {other:?}"),
    }
    assert_eq!(outcome.unparseable_finals, 0, "the base version failed, not the final one");
}

fn identity(refno: u64, noun_hash: i32, noun_name: &str) -> RawElementIdentity {
    RawElementIdentity { refno, noun_hash, noun_name: noun_name.to_owned(), owner: 0 }
}

/// Only MNUM may be omitted after a final record fails to decode.
#[test]
fn mnum_final_failure_is_skipped_counted_and_aggregated() {
    let mut net = change_set(30);
    net.added.push(net_entry(7, at(10, 0), None, Some(12)));
    net.modified.push(net_entry(9, at(20, 0), Some(at(19, 0)), Some(25)));
    let mut resolver =
        MemRecords::new(Vec::new(), vec![(at(10, 0), identity(7, 0xC40CC, "MNUM")), (at(20, 0), identity(9, 0xC40CC, "MNUM"))]);

    let outcome = synthesize_net_window_with_resolver(net, SnapshotToken::for_test(), &mut resolver).expect("MNUM synthesis");

    assert!(
        outcome.window.is_empty(),
        "no entry whose final record fails to decode enters the window: {:?}",
        outcome.window.keys().collect::<Vec<_>>()
    );
    assert_eq!(outcome.unparseable_finals, 2);
    assert!(outcome.ignored_finals.iter().all(|item| item.noun == "MNUM"));
    assert_eq!(outcome.warnings.len(), 1, "the details go into one aggregated warning");
    match &outcome.warnings[0] {
        WindowWarning::IgnoredFinals { count, sample_refnos } => {
            assert_eq!(*count, 2, "the aggregated warning reports the count");
            assert!(sample_refnos.contains(&7) && sample_refnos.contains(&9), "the aggregated warning carries sample refnos");
        },
        other => panic!("expected the aggregated warning, got {other:?}"),
    }
}

#[test]
fn ordinary_noun_final_failure_rejects_the_whole_window() {
    let mut net = change_set(30);
    net.added.push(net_entry(7, at(10, 0), None, Some(12)));
    let mut resolver = MemRecords::new(Vec::new(), vec![(at(10, 0), identity(7, 0x861E0, "BOX"))]);

    let error = synthesize_net_window_with_resolver(net, SnapshotToken::for_test(), &mut resolver)
        .expect_err("a final record of a noun not on the allow list must fail");

    assert_eq!(error, ResolveError::NotAllowlisted { refno: 7 });
}

#[test]
fn resolver_returning_the_wrong_refno_is_a_hard_failure() {
    let mut net = change_set(30);
    net.added.push(net_entry(7, at(10, 0), None, Some(12)));
    let mut resolver = records(vec![(at(10, 0), 99, element(&[("TYPE", "BOX")], &[]))]);
    let error = synthesize_net_window(net, &mut resolver).expect_err("a wrong refno must fail");

    assert_eq!(error, ResolveError::WrongRefno { expected: 7, actual: 99, pgno: 10, offset: 0 });
}

#[test]
fn a_missing_last_touch_session_fails_instead_of_using_the_window_end() {
    let mut net = change_set(30);
    net.added.push(net_entry(7, at(10, 0), None, None));
    let mut resolver = records(vec![(at(10, 0), 7, element(&[("TYPE", "BOX")], &[]))]);
    let error = synthesize_net_window(net, &mut resolver).err().expect("a missing last-touch session fails the window");
    assert_eq!(error, ResolveError::MissingLastTouch { refno: 7 });
}

/// A modification without a base position breaks the classification invariant and
/// fails the whole batch.
#[test]
fn a_missing_base_loc_fails_hard_and_names_the_refno() {
    let mut net = change_set(30);
    net.modified.push(net_entry(9, at(20, 0), None, Some(25)));

    let mut resolver = records(vec![(at(20, 0), 9, element(&[("TYPE", "BOX")], &[]))]);
    let outcome = synthesize_net_window(net, &mut resolver);

    let Err(error) = outcome else {
        panic!("a missing base position must fail hard");
    };
    assert_eq!(error, ResolveError::MissingBaseLoc { refno: 9 });
}

/// A record rewritten unchanged on another page emits nothing but is counted.
#[test]
fn an_identical_rewrite_emits_nothing_but_is_counted() {
    let mut net = change_set(30);
    net.modified.push(net_entry(9, at(20, 0), Some(at(19, 0)), Some(25)));
    let same = element(&[("TYPE", "BOX"), ("XLEN", "100")], &[7]);
    let again = element(&[("TYPE", "BOX"), ("XLEN", "100")], &[7]);

    let mut resolver = records(vec![(at(20, 0), 9, same), (at(19, 0), 9, again)]);
    let outcome = synthesize_net_window(net, &mut resolver).expect("synthesis");

    assert!(outcome.window.is_empty(), "equal versions: nothing happened");
    assert_eq!(outcome.unchanged_rewrites, 1);
    assert!(outcome.warnings.is_empty(), "an unchanged rewrite is no fallback: {:?}", outcome.warnings);
}

fn loc(r0: u32, r1: u32, pgno: u32, offset: u32) -> RefnoDataLoc {
    RefnoDataLoc { refno_0: r0, refno_1: r1, pgno, offset, flag: 1 }
}

fn leaf(locs: Vec<RefnoDataLoc>) -> IndexPageData {
    IndexPageData { page_type: 6, noun: 0x00CC_47DF, level: 0, unknowns: [0; 3], pfno: 0, refno_locs: locs, remain_zero_bytes: Vec::new() }
}

/// Session 1 (page 20, index root 15) holds one element; session 2 (page 40, index
/// root 35) adds a second one, recorded on page 30.
fn two_session_image() -> PdmsIO {
    let header = PdmsHeader { db_num: 1, noun: 0, latest_ses_pgno: 40, page_no: 0 };
    let mut added = element(&[("TYPE", "BOX")], &[]);
    added.refno = (1u64 << 32) | 2;
    PdmsIO::new(
        "test".to_string(),
        "test.db".to_string(),
        true,
        Some(header),
        41 * 0x800,
        vec![
            SessionPageData { pgno: 40, sesno: 2, last_ses_pageno: 20, index_root_pageno: 35, end_pgno: 39 },
            SessionPageData { pgno: 20, sesno: 1, last_ses_pageno: -1, index_root_pageno: 15, end_pgno: 19 },
        ],
        vec![(15, leaf(vec![loc(1, 1, 12, 0)])), (35, leaf(vec![loc(1, 1, 12, 0), loc(1, 2, 30, 0)]))],
        vec![(30 * 0x800, added)],
        Vec::new(),
    )
}

fn open_snapshot(file_id: StableFileId) -> DabaconSnapshot {
    DabaconSnapshot::open(two_session_image(), "test.db".to_string(), file_id, 41 * 0x800, vec![0u8; 60], "DESI".to_string())
        .expect("open the image")
}

/// The window is collected from the file image alone: an image held in memory
/// yields the whole window.
#[test]
fn the_net_window_module_never_touches_the_database() {
    let file_id = StableFileId::Unix { device: 1, inode: 7 };
    let mut snapshot = open_snapshot(file_id);

    let outcome = collect_net_window(&mut snapshot, 2..=2, file_id).expect("a window from the image alone");

    let ops = outcome.window.get(&2).expect("the addition hangs on session 2");
    assert_eq!(ops.len(), 1);
    assert_eq!(ops[0].refno, (1u64 << 32) | 2);
    assert!(matches!(ops[0].detail, EleOperationDetail::Add(_)));
    assert_eq!(outcome.membership_deleted, 0);
    assert_eq!(outcome.dropped_phantom_adds, 0);

    let committed = finish_net_window(&snapshot, outcome, file_id).expect("same file at commit");
    assert_eq!(committed.window.len(), 1);
}

#[test]
fn a_replaced_file_fails_the_window_at_the_identity_stage() {
    let file_id = StableFileId::Unix { device: 1, inode: 7 };
    let mut snapshot = open_snapshot(file_id);

    let error = collect_net_window(&mut snapshot, 2..=2, StableFileId::Unix { device: 1, inode: 8 }).expect_err("replaced file");

    assert_eq!(error.stage, WindowStage::FileIdentity);
    assert_eq!(error.source, WindowFailure::Snapshot { error: SnapshotError::FileReplaced });
}

#[test]
fn a_window_end_other_than_the_frozen_session_is_refused() {
    let file_id = StableFileId::Unix { device: 1, inode: 7 };
    let mut snapshot = open_snapshot(file_id);

    let error = collect_net_window(&mut snapshot, 1..=1, file_id).expect_err("frozen at session 2");

    assert_eq!(error.stage, WindowStage::FrozenSession);
    assert_eq!(error.source, WindowFailure::FrozenSessionMismatch { requested: 1, frozen: 2 });
}

#[test]
fn a_file_replaced_before_commit_fails_the_commit() {
    let file_id = StableFileId::Unix { device: 1, inode: 7 };
    let mut snapshot = open_snapshot(file_id);
    let outcome = collect_net_window(&mut snapshot, 2..=2, file_id).expect("window");

    let error = finish_net_window(&snapshot, outcome, StableFileId::Unix { device: 2, inode: 7 }).expect_err("replaced at commit");

    assert_eq!(error.stage, WindowStage::CommitIdentity);
}

/// A window deletion needs a base session to expand from.
#[test]
fn a_deletion_without_base_session_is_refused() {
    let mut window = BTreeMap::from([(2, vec![EleOperationData::new(20, 2, EleOperationDetail::Deleted)])]);
    let mut resolver = MemMembership::new();
    assert_eq!(reconcile_member_deletions(&mut window, None, 2, &mut resolver), Err(ResolveError::NoBaseSession));
}

/// The least owner whose lookup fails names the error, before anything else is checked.
#[test]
fn the_least_failing_add_owner_names_the_error() {
    let mut window = BTreeMap::from([(
        2,
        vec![
            EleOperationData::new(21, 2, EleOperationDetail::Add(owned(21, 40, &[]))),
            EleOperationData::new(22, 2, EleOperationDetail::Add(owned(22, 30, &[]))),
        ],
    )]);
    let mut resolver = MemMembership::new();
    resolver.fail(2, 40, IoError::UnreadableRecord { offset: 40 });
    resolver.fail(2, 30, IoError::UnreadableRecord { offset: 30 });
    assert_eq!(
        reconcile_member_deletions(&mut window, None, 2, &mut resolver),
        Err(ResolveError::MemberLookupFailed { refno: 30, sesno: 2, cause: IoError::UnreadableRecord { offset: 30 } })
    );
}

/// A window with nothing to reconcile is left as it is, with or without a base session.
#[test]
fn a_window_without_candidates_is_left_alone() {
    let mut window =
        BTreeMap::from([(2, vec![EleOperationData::new(20, 2, EleOperationDetail::Add(owned(20, 10, &[])))])]);
    let mut resolver = resolver_with(vec![(2, owned(10, 1, &[20]))]);
    let before = operation_kinds(&window);
    assert_eq!(reconcile_member_deletions(&mut window, None, 2, &mut resolver), Ok(MemberReconciliation::default()));
    assert_eq!(operation_kinds(&window), before);
}

/// Each net entry gives exactly one operation on its session, an unchanged rewrite
/// none, and no session is left with an empty list.
#[test]
fn each_net_entry_gives_one_operation_and_no_session_is_empty() {
    let mut net = change_set(30);
    net.added.push(net_entry(5, at(20, 0), None, Some(25)));
    net.deleted.push(net_entry(8, at(11, 4), None, Some(12)));
    net.deleted.push(net_entry(6, at(11, 6), None, Some(12)));
    net.modified.push(net_entry(9, at(21, 0), Some(at(19, 0)), Some(26)));
    let same = element(&[("TYPE", "BOX"), ("XLEN", "100")], &[7]);
    let again = element(&[("TYPE", "BOX"), ("XLEN", "100")], &[7]);
    let mut resolver =
        records(vec![(at(20, 0), 5, element(&[("TYPE", "BOX")], &[])), (at(21, 0), 9, same), (at(19, 0), 9, again)]);

    let outcome = synthesize_net_window(net, &mut resolver).expect("synthesis");

    let keys: Vec<u32> = outcome.window.keys().copied().collect();
    assert_eq!(keys, vec![25, 30], "no list for the session of the unchanged rewrite");
    assert_eq!(outcome.window[&25].len(), 1);
    assert_eq!(outcome.window[&25][0].refno, 5);
    let deleted: Vec<u64> = outcome.window[&30].iter().map(|op| op.refno).collect();
    assert_eq!(deleted, vec![8, 6], "one deletion per net deletion, in order");
    assert!(outcome.window.values().all(|ops| !ops.is_empty()));
    assert_eq!(outcome.unchanged_rewrites, 1);
}

/// The texts of the resolution errors name the element and the session.
#[test]
fn resolve_errors_read_as_text() {
    let refno = (3u64 << 32) | 17;
    assert_eq!(ResolveError::NoBaseSession.message(), "成员删除候选存在，但窗口没有可展开删除子树的基会话");
    assert_eq!(
        ResolveError::MissingAtBase { refno, sesno: 4 }.message(),
        "删除子树元素 3_17 在基会话 sesno=4 不存在，拒绝猜测"
    );
    assert_eq!(
        ResolveError::MissingOwner { refno, owner: (3u64 << 32) | 1, sesno: 9 }.message(),
        "成员删除候选 3_17 的 OWNER 3_1 在 sesno=9 不存在"
    );
    assert_eq!(ResolveError::InvalidSession { sesno: -2 }.message(), "成员审计目标会话非法: -2");
    assert_eq!(
        ResolveError::MemberLookupFailed { refno, sesno: 2, cause: IoError::UnreadableRecord { offset: 64 } }.message(),
        "解析 3_17 在 sesno=2 的成员记录失败: 偏移 64 处的记录无法解码"
    );
}

/// The texts of the collection warnings carry the count and the sample elements.
#[test]
fn window_warnings_read_as_text() {
    let warning = WindowWarning::IgnoredFinals { count: 2, sample_refnos: vec![(1u64 << 32) | 5, (1u64 << 32) | 6] };
    assert_eq!(warning.message(), "2 条 MNUM 系统记录终稿解析失败，按代码白名单跳过且不生成 PE 操作。样例：1_5；1_6");
    let fallback = WindowWarning::BaseDecodeFailed {
        refno: (1u64 << 32) | 9,
        error: ResolveError::NotAllowlisted { refno: (1u64 << 32) | 9 },
    };
    assert_eq!(fallback.message(), "净修改 1_9 的基版本解析失败，按新增全量处理（保守整根重生成）: 非白名单终稿 1_9 解析失败");
}

/// The texts of the snapshot errors carry the frozen and current values.
#[test]
fn snapshot_errors_read_as_text() {
    assert_eq!(SnapshotError::FileReplaced.message(), "dabacon 路径已指向另一文件（冻结身份不匹配）");
    assert_eq!(SnapshotError::SessionRegressed { frozen: 7, current: 5 }.message(), "dabacon 会话从冻结值 7 回退到 5");
    assert_eq!(SnapshotError::LengthRegressed { frozen: 4096, current: 100 }.message(), "dabacon 文件长度从冻结值 4096 回退到 100");
    assert_eq!(SnapshotError::TargetBeyondFrozen { requested: 9, frozen: 3 }.message(), "请求会话 9 超过快照冻结会话 3");
    assert_eq!(SnapshotError::MissingTargetSession { sesno: 11 }.message(), "dabacon 快照缺少目标会话 11");
}

/// A final record that does not decode is decoded once and identified once; its
/// base is never asked for.
#[test]
fn each_undecodable_final_is_identified_once() {
    let mut net = change_set(30);
    net.added.push(net_entry(7, at(10, 0), None, Some(12)));
    net.modified.push(net_entry(9, at(20, 0), Some(at(19, 0)), Some(25)));
    let mut resolver =
        MemRecords::new(Vec::new(), vec![(at(10, 0), identity(7, 0xC40CC, "MNUM")), (at(20, 0), identity(9, 0xC40CC, "MNUM"))]);

    synthesize_net_window_with_resolver(net, SnapshotToken::for_test(), &mut resolver).expect("MNUM synthesis");

    assert_eq!(resolver.asked, vec![(at(10, 0), true), (at(10, 0), false), (at(20, 0), true), (at(20, 0), false)]);
}

/// The owner of several additions is looked up once.
#[test]
fn an_owner_of_several_additions_is_looked_up_once() {
    let mut window = BTreeMap::from([(
        2,
        vec![
            EleOperationData::new(21, 2, EleOperationDetail::Add(owned(21, 10, &[]))),
            EleOperationData::new(22, 2, EleOperationDetail::Add(owned(22, 10, &[]))),
        ],
    )]);
    let mut resolver = resolver_with(vec![(2, owned(10, 1, &[21, 22]))]);
    assert_eq!(reconcile_member_deletions(&mut window, Some(1), 2, &mut resolver), Ok(MemberReconciliation::default()));
    assert_eq!(resolver.asked, vec![(10, 2)]);
}
