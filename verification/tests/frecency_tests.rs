use glyf::frecency::Frecency;

#[test]
fn new_frecency_returns_zero() {
    let f = Frecency::empty_for_testing();
    assert_eq!(f.get(0x0041), 0);
}

#[test]
fn record_then_get() {
    let mut f = Frecency::empty_for_testing();
    f.record(0x0041);
    assert_eq!(f.get(0x0041), 1);
}

#[test]
fn record_multiple_times() {
    let mut f = Frecency::empty_for_testing();
    for _ in 0..5 {
        f.record(0x0041);
    }
    assert_eq!(f.get(0x0041), 5);
}

#[test]
fn record_sets_dirty() {
    let mut f = Frecency::empty_for_testing();
    f.record(0x0041);
    assert!(f.is_dirty());
}

#[test]
fn flush_noop_when_not_dirty() {
    let f = Frecency::empty_for_testing();
    assert!(f.flush().is_none());
}

#[test]
fn record_multiple_codepoints() {
    let mut f = Frecency::empty_for_testing();
    f.record(0x0041);
    f.record(0x1F600);
    assert_eq!(f.get(0x0041), 1);
    assert_eq!(f.get(0x1F600), 1);
    assert_eq!(f.get(0x0042), 0);
}

#[test]
fn flush_writes_sorted_little_endian_records() {
    let mut f = Frecency::empty_for_testing();
    f.record(0x1F600);
    f.record(0x0041);
    f.record(0x0041);
    let bytes = f.flush().expect("dirty after recording");
    assert_eq!(
        bytes,
        vec![0x41, 0, 0, 0, 2, 0, 0, 0, 0x00, 0xF6, 0x01, 0x00, 1, 0, 0, 0]
    );
}

#[test]
fn flush_then_load_roundtrip() {
    let mut f = Frecency::empty_for_testing();
    f.record(0x0041);
    f.record(0x00E9);
    f.record(0x00E9);
    f.record(0x10FFFF);
    let bytes = f.flush().expect("dirty after recording");
    let g = Frecency::load(Some(&bytes));
    assert_eq!(g.get(0x0041), 1);
    assert_eq!(g.get(0x00E9), 2);
    assert_eq!(g.get(0x10FFFF), 1);
    assert_eq!(g.get(0x0042), 0);
    assert!(!g.is_dirty());
    assert_eq!(g.flush(), None);
}

#[test]
fn load_ignores_partial_records() {
    let g = Frecency::load(Some(&[0x41, 0, 0, 0, 3, 0, 0]));
    assert_eq!(g.get(0x41), 0);
    let h = Frecency::load(None);
    assert_eq!(h.get(0x41), 0);
}

#[test]
fn load_later_record_wins() {
    let g = Frecency::load(Some(&[0x41, 0, 0, 0, 3, 0, 0, 0, 0x41, 0, 0, 0, 7, 0, 0, 0]));
    assert_eq!(g.get(0x41), 7);
}

#[test]
fn mark_saved_clears_dirty() {
    let mut f = Frecency::empty_for_testing();
    f.record(0x41);
    f.mark_saved();
    assert!(!f.is_dirty());
    assert_eq!(f.get(0x41), 1);
}
