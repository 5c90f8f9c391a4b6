use tavtop::profiler::Profiler;
use tavtop::unit_types::{Delta, Magnitude, Size};
use tavtop::ITER;

#[test]
fn delta_reports_growth_over_the_window() {
    let mut d = Delta::new();
    assert_eq!(d.average, 0);
    d.add(100);
    assert_eq!(d.average, 100);
    for k in 1..ITER as usize {
        d.add(100 + k);
    }
    assert_eq!(d.values.len(), ITER as usize);
    d.add(500);
    assert_eq!(d.average, 400);
    d.add(50);
    assert_eq!(d.average, 0);
}

#[test]
fn delta_window_holds_latest() {
    let mut d = Delta::new();
    for k in 0..(ITER as usize + 5) {
        d.add(k);
    }
    let held: Vec<usize> = d.values.iter().copied().collect();
    let expected: Vec<usize> = (5..ITER as usize + 5).collect();
    assert_eq!(held, expected);
}

#[test]
fn magnitude_hands_back_leaving_reading() {
    let mut m = Magnitude::new("/sys/some/file");
    assert_eq!(m.file(), "/sys/some/file");
    for k in 1..=ITER {
        assert_eq!(m.add(k), 0);
    }
    assert_eq!(m.add(999), 1);
    assert_eq!(m.add(998), 2);
}

#[test]
fn size_starts_unused() {
    let s = Size::new("/sys/vram_used", 8192);
    assert_eq!(s.used, 0);
    assert_eq!(s.total, 8192);
    assert_eq!(s.file(), "/sys/vram_used");
}

#[test]
fn profiler_reports_every_half_window() {
    let mut p = Profiler::new();
    let mut reports = Vec::new();
    for pass in 1..=61u32 {
        let step = p.update(1000 + pass as u128).unwrap();
        assert_eq!(step.sample, 1000 + pass as u16);
        if step.report {
            reports.push(pass);
        }
    }
    assert_eq!(reports, vec![21, 41, 61]);
}

#[test]
fn profiler_takes_long_passes_as_zero() {
    let mut p = Profiler::new();
    let step = p.update(70_000).unwrap();
    assert_eq!(step.sample, 0);
    assert_eq!(step.evicted, 0);
}

#[test]
fn profiler_report_calls_over_long_run() {
    let mut p = Profiler::new();
    for k in 1..=200u32 {
        let step = p.update(10).unwrap();
        assert_eq!(step.report, k >= 21 && k % 20 == 1, "call {k}");
    }
}
