use throttler::rate::Rate;
use throttler::throttle::{Throttle, Verdict};

fn verdicts(t: &mut Throttle, times: &[u128]) -> Vec<Verdict> {
    times.iter().map(|&now| t.decide(now).verdict).collect()
}

#[test]
fn example_two_per_second() {
    let mut t = Throttle::new(&Rate::Second(2), true);
    let mut out = Vec::new();
    for now in [0u128, 100, 200, 300] {
        let d = t.decide(now);
        assert_eq!(d.skipped, None);
        out.push(d.verdict);
    }
    assert_eq!(out, vec![Verdict::Admit, Verdict::Admit, Verdict::Drop, Verdict::Drop]);
    let d = t.decide(1000);
    assert_eq!(d.skipped, Some(2));
    assert_eq!(d.verdict, Verdict::Admit);
    assert_eq!(t.finish(), None);
}

#[test]
fn quota_enforced_within_one_window() {
    let mut t = Throttle::new(&Rate::Minute(3), true);
    let v = verdicts(&mut t, &[5000, 5001, 5001, 6000, 7000, 64999]);
    let admitted = v.iter().filter(|x| **x == Verdict::Admit).count();
    assert_eq!(admitted, 3);
    assert_eq!(v.len() - admitted, 3);
    assert_eq!(t.finish(), Some(3));
}

#[test]
fn rollover_at_exact_boundary() {
    let mut t = Throttle::new(&Rate::Millis(1), true);
    assert_eq!(t.decide(10).verdict, Verdict::Admit);
    assert_eq!(t.decide(10).verdict, Verdict::Drop);
    let d = t.decide(11);
    assert_eq!(d.verdict, Verdict::Admit);
    assert_eq!(d.skipped, Some(1));
    let d = t.decide(12);
    assert_eq!(d.verdict, Verdict::Admit);
    assert_eq!(d.skipped, None);
}

#[test]
fn one_notice_after_long_gap() {
    let mut t = Throttle::new(&Rate::Second(1), true);
    verdicts(&mut t, &[0, 1, 2]);
    let d = t.decide(50000);
    assert_eq!(d.skipped, Some(2));
    assert_eq!(d.verdict, Verdict::Admit);
    let d = t.decide(50999);
    assert_eq!(d.skipped, None);
    assert_eq!(d.verdict, Verdict::Drop);
}

#[test]
fn end_of_stream_flush() {
    let mut t = Throttle::new(&Rate::Second(1), true);
    verdicts(&mut t, &[0, 10, 20, 30]);
    assert_eq!(t.finish(), Some(3));
}

#[test]
fn end_of_stream_without_drops() {
    let mut t = Throttle::new(&Rate::Second(5), true);
    verdicts(&mut t, &[0, 10, 20]);
    assert_eq!(t.finish(), None);
    let t = Throttle::new(&Rate::Second(5), true);
    assert_eq!(t.finish(), None);
}

#[test]
fn suppressed_warnings_keep_verdicts() {
    let times = [0u128, 1, 2, 3, 1000, 1001, 1002, 2500, 2501];
    let mut loud = Throttle::new(&Rate::Second(2), true);
    let mut quiet = Throttle::new(&Rate::Second(2), false);
    let mut notices = 0;
    for now in times {
        let a = loud.decide(now);
        let b = quiet.decide(now);
        assert_eq!(a.verdict, b.verdict);
        assert_eq!(b.skipped, None);
        if a.skipped.is_some() {
            notices += 1;
        }
    }
    assert_eq!(notices, 2);
    assert_eq!(loud.finish(), None);
    assert_eq!(quiet.finish(), None);
    quiet.decide(2502);
    quiet.decide(2503);
    assert_eq!(quiet.finish(), None);
}

#[test]
fn admitted_lines_keep_their_order() {
    let lines = ["a", "b", "c", "d", "e", "f"];
    let times = [0u128, 1, 2, 1000, 1001, 1002];
    let mut t = Throttle::new(&Rate::Second(2), true);
    let mut out: Vec<String> = Vec::new();
    for (line, now) in lines.iter().zip(times) {
        let d = t.decide(now);
        if let Some(n) = d.skipped {
            out.push(format!("--- Skipped {} line(s) ---", n));
        }
        if d.verdict == Verdict::Admit {
            out.push(line.to_string());
        }
    }
    assert_eq!(out, vec!["a", "b", "--- Skipped 1 line(s) ---", "d", "e"]);
    assert_eq!(t.finish(), Some(1));
}

#[test]
fn zero_quota_drops_everything() {
    let mut t = Throttle::new(&Rate::Second(0), true);
    let v = verdicts(&mut t, &[0, 1, 2]);
    assert_eq!(v, vec![Verdict::Drop; 3]);
    let d = t.decide(1000);
    assert_eq!(d.verdict, Verdict::Drop);
    assert_eq!(d.skipped, Some(3));
}

#[test]
fn clock_going_backwards_stays_in_window() {
    let mut t = Throttle::new(&Rate::Second(2), true);
    assert_eq!(t.decide(5000).verdict, Verdict::Admit);
    let d = t.decide(10);
    assert_eq!(d.verdict, Verdict::Admit);
    assert_eq!(d.skipped, None);
    assert_eq!(t.decide(20).verdict, Verdict::Drop);
}

#[test]
fn can_decide_near_the_limit() {
    let t = Throttle::new(&Rate::Second(1), true);
    assert!(t.can_decide(0));
    assert!(t.can_decide(u128::MAX - 1000));
    assert!(!t.can_decide(u128::MAX - 999));
}
