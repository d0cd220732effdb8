use atproxy::stats::Stats;

#[test]
fn counters_start_at_zero() {
    let s = Stats::new();
    assert_eq!(s.total(), 0);
    assert_eq!(s.active(), 0);
    assert_eq!(s.failed(), 0);
    assert_eq!(s.bytes_up_kb(), 0);
    assert_eq!(s.bytes_down_kb(), 0);
}

#[test]
fn connections_are_counted() {
    let mut s = Stats::new();
    s.conn_open();
    s.conn_open();
    s.conn_open();
    assert_eq!(s.total(), 3);
    assert_eq!(s.active(), 3);
    s.conn_close(true);
    s.conn_close(false);
    assert_eq!(s.total(), 3);
    assert_eq!(s.active(), 1);
    assert_eq!(s.failed(), 1);
}

#[test]
fn bytes_are_shown_in_whole_kilobytes() {
    let mut s = Stats::new();
    s.add_up(1023);
    assert_eq!(s.bytes_up_kb(), 0);
    s.add_up(1);
    assert_eq!(s.bytes_up_kb(), 1);
    s.add_down(10 * 1024 + 5);
    assert_eq!(s.bytes_down_kb(), 10);
}

#[test]
fn a_failed_copy_adds_nothing() {
    let mut s = Stats::new();
    s.add_transfer(Some(2048), None);
    assert_eq!(s.bytes_up_kb(), 2);
    assert_eq!(s.bytes_down_kb(), 0);
    s.add_transfer(None, Some(4096));
    assert_eq!(s.bytes_up_kb(), 2);
    assert_eq!(s.bytes_down_kb(), 4);
}

#[test]
fn summary_is_one_line() {
    let mut s = Stats::new();
    s.conn_open();
    s.conn_open();
    s.conn_close(false);
    s.add_transfer(Some(5000), Some(1_000_000));
    assert_eq!(s.summary_line(), "conns=2, active=1, failed=1, up=4KB, down=976KB");
}

#[test]
fn counters_wrap_like_machine_counters() {
    let mut s = Stats::new();
    s.conn_close(true);
    assert_eq!(s.active(), u32::MAX);
    s.add_up(u64::MAX);
    assert_eq!(s.bytes_up_kb(), 0);
    s.add_up(1 << 63);
    assert_eq!(s.bytes_up_kb(), ((1u64 << 63) - 1) as i64 / 1024);
    s.add_down(1 << 63);
    assert_eq!(s.bytes_down_kb(), i64::MIN / 1024);
    assert_eq!(
        s.summary_line(),
        format!(
            "conns=0, active={}, failed=0, up={}KB, down={}KB",
            u32::MAX,
            i64::MAX / 1024,
            i64::MIN / 1024
        )
    );
}
