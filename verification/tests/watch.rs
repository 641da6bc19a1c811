use pdms_io::defines::{DbPageBasicInfo, PdmsHeader, SessionPageData};
use pdms_io::watch::PdmsWatcher;

#[test]
fn test_watch() {}

fn info(page_no: u32, file_size: u64) -> DbPageBasicInfo {
    let session = SessionPageData { pgno: 40, sesno: 2, last_ses_pageno: 20, index_root_pageno: 35, end_pgno: 39 };
    DbPageBasicInfo {
        pdms_header: PdmsHeader { db_num: 1, noun: 0, latest_ses_pgno: 40, page_no },
        latest_ses_pageno: 40,
        latest_ses_data: session,
        file_size,
    }
}

#[test]
fn a_rescan_with_the_same_header_page_keeps_the_record() {
    let mut watcher = PdmsWatcher::new(vec!["dbs".to_string()]);
    assert!(watcher.header_of(&"dbs/a".to_string()).is_none());
    assert!(watcher.record_header("dbs/a".to_string(), info(7, 100)));
    assert!(!watcher.record_header("dbs/a".to_string(), info(7, 200)), "same header page: no news");
    assert_eq!(watcher.header_of(&"dbs/a".to_string()).map(|i| i.file_size), Some(100));
    assert!(watcher.record_header("dbs/a".to_string(), info(8, 300)), "a new header page replaces the record");
    assert_eq!(watcher.header_of(&"dbs/a".to_string()).map(|i| i.file_size), Some(300));
    assert!(watcher.record_header("dbs/b".to_string(), info(7, 50)));
    assert_eq!(watcher.watch_dirs, vec!["dbs".to_string()]);
}
