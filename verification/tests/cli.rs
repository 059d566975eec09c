use tlrl::cli::log_filter;

#[test]
fn verbosity_selects_log_filter() {
    assert_eq!(log_filter(0), "error");
    assert_eq!(log_filter(1), "warn");
    assert_eq!(log_filter(2), "tlrl=info");
    assert_eq!(log_filter(3), "tlrl=debug");
    assert_eq!(log_filter(4), "debug");
    assert_eq!(log_filter(5), "trace");
    assert_eq!(log_filter(u64::MAX), "trace");
}
