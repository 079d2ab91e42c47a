use memscan::bitmap::PageStatusBitmap;
use memscan::controller::{region_pairs, ErrorKind, SearchController, SearchStatus};

#[test]
fn start_requires_init_and_no_scan_in_flight() {
    let mut c = SearchController::new();
    assert_eq!(c.start(3), Err(ErrorKind::NotInitialized));
    assert_eq!(c.header.status, SearchStatus::Error.code());
    assert_eq!(c.header.error_code, ErrorKind::NotInitialized.code());
    c.init();
    assert_eq!(c.start(3), Ok(()));
    assert_eq!(c.header.status, SearchStatus::Searching.code());
    assert_eq!(c.start(3), Err(ErrorKind::AlreadySearching));
    assert_eq!(c.header.error_code, 2);
}

#[test]
fn completion_publishes_counts_then_status() {
    let mut c = SearchController::new();
    c.init();
    c.start(4).unwrap();
    for found in [1u64, 0, 5, 2] {
        c.region_done(found);
    }
    assert_eq!(c.header.regions_done, 4);
    assert_eq!(c.header.found_count, 8);
    assert_eq!(c.header.progress, 100);
    c.publish_counts(8);
    assert_eq!(c.header.status, SearchStatus::Searching.code());
    c.complete();
    assert_eq!(c.header.status, SearchStatus::Completed.code());
    assert!(!c.searching);
}

#[test]
fn cancel_ends_as_cancelled() {
    let mut c = SearchController::new();
    c.init();
    c.start(10).unwrap();
    c.region_done(3);
    c.request_cancel();
    assert!(c.should_stop());
    c.complete();
    assert_eq!(c.header.status, SearchStatus::Cancelled.code());
    assert_eq!(c.start(1), Ok(()));
    assert!(!c.should_stop());
}

#[test]
fn abort_reports_the_error() {
    let mut c = SearchController::new();
    c.init();
    c.start(1).unwrap();
    c.abort(ErrorKind::ReaderFailure);
    assert_eq!(c.header.status, 4);
    assert_eq!(c.header.error_code, 5);
    assert!(!c.searching);
}

#[test]
fn region_pairs_split_and_check() {
    assert_eq!(region_pairs(&vec![0x1000, 0x2000, 0x5000, 0x6000]), Ok(vec![(0x1000, 0x2000), (0x5000, 0x6000)]));
    assert_eq!(region_pairs(&vec![1, 2, 3]), Err(ErrorKind::InvalidArgument));
    assert_eq!(region_pairs(&vec![9, 2]), Err(ErrorKind::InvalidArgument));
    assert_eq!(region_pairs(&vec![]), Ok(vec![]));
}

#[test]
fn bitmap_counts_and_runs() {
    let mut b = PageStatusBitmap::new(5 * 4096 + 10, 0x10000 + 100);
    assert_eq!(b.num_pages(), 6);
    for p in [0usize, 1, 3, 5] {
        b.mark_success(p);
    }
    b.mark_success(99);
    assert_eq!(b.success_count(), 4);
    assert_eq!(b.get_success_page_ranges(), vec![(0, 2), (3, 4), (5, 6)]);
    assert_eq!(b.failed_pages(), vec![2, 4]);
    assert!(b.is_page_success(3));
    assert!(!b.is_page_success(4));
    b.mark_failed(3);
    assert_eq!(b.get_success_page_ranges(), vec![(0, 2), (5, 6)]);
}

#[test]
fn bitmap_of_an_aligned_read() {
    let b = PageStatusBitmap::new(8192, 0x4000);
    assert_eq!(b.num_pages(), 2);
    assert_eq!(b.success_count(), 0);
    assert!(b.get_success_page_ranges().is_empty());
}
