use raytracer::tracer::{HitKind, TraceState};

#[test]
fn zero_budget_is_black_at_once() {
    let s = TraceState::start(0);
    assert_eq!(s, TraceState::Exhausted);
    assert!(s.is_done());
}

#[test]
fn miss_ends_in_black() {
    let s = TraceState::start(5).step(HitKind::Miss);
    assert_eq!(s, TraceState::Missed);
    assert!(s.is_done());
}

#[test]
fn emissive_ends_whatever_depth_is_left() {
    for depth in 1..20usize {
        let s = TraceState::start(depth);
        assert_eq!(s, TraceState::Tracing { depth });
        let e = s.step(HitKind::Emissive);
        assert_eq!(e, TraceState::Emitted);
        // what lies behind the light does not matter
        assert_eq!(e.step(HitKind::Surface), TraceState::Emitted);
        assert_eq!(e.step(HitKind::Miss), TraceState::Emitted);
    }
}

#[test]
fn surface_spends_one_bounce() {
    let s = TraceState::start(3).step(HitKind::Surface);
    assert_eq!(s, TraceState::Tracing { depth: 2 });
    let s = TraceState::start(1).step(HitKind::Surface);
    assert_eq!(s, TraceState::Exhausted);
}

#[test]
fn surfaces_forever_stop_within_budget() {
    for max_depth in 0..12usize {
        let mut s = TraceState::start(max_depth);
        let mut queries = 0usize;
        while !s.is_done() {
            s = s.step(HitKind::Surface);
            queries += 1;
        }
        assert_eq!(queries, max_depth);
        assert_eq!(s, TraceState::Exhausted);
    }
}
