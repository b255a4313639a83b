use motiongfx::time::{cs, ms, ns, s, Duration, Range};

#[test]
fn unit_helpers_agree_with_duration_constructors() {
    assert_eq!(s(2), ms(2_000));
    assert_eq!(cs(150), ms(1_500));
    assert_eq!(ms(1), ns(1_000_000));
    assert_eq!(cs(u64::MAX), Duration::from_millis(u64::MAX));
}

#[test]
fn range_overlap_counts_boundary_touch() {
    let a = Range {
        start: s(0),
        end: s(5),
    };
    let b = Range {
        start: s(3),
        end: s(8),
    };
    let c = Range {
        start: s(6),
        end: s(10),
    };
    let touching = Range {
        start: s(5),
        end: s(5),
    };

    assert!(a.overlap(&b));
    assert!(!a.overlap(&c));
    assert!(a.overlap(&touching));
}

#[test]
fn range_intersect_drops_boundary_touch() {
    let a = Range {
        start: s(0),
        end: s(5),
    };
    let b = Range {
        start: s(3),
        end: s(8),
    };
    let c = Range {
        start: s(6),
        end: s(10),
    };
    let touching = Range {
        start: s(5),
        end: s(8),
    };

    assert_eq!(
        a.intersect(&b),
        Some(Range {
            start: s(3),
            end: s(5)
        }),
    );
    assert_eq!(a.intersect(&c), None);
    assert_eq!(a.intersect(&touching), None);
}

#[test]
fn overlap_and_intersect_do_not_depend_on_order() {
    let a = Range {
        start: s(0),
        end: s(5),
    };
    let b = Range {
        start: s(3),
        end: s(8),
    };
    assert_eq!(a.overlap(&b), b.overlap(&a));
    assert_eq!(a.intersect(&b), b.intersect(&a));
    assert_eq!(
        b.intersect(&a),
        Some(Range {
            start: s(3),
            end: s(5)
        })
    );
}

#[test]
fn duration_arithmetic_saturates() {
    let max = Duration::max_value();
    assert_eq!(max.saturating_add(s(1)), max);
    assert_eq!(s(1).saturating_sub(s(2)), Duration::zero());
    assert_eq!(s(3).saturating_sub(s(1)), s(2));
    assert_eq!(s(1).saturating_add(ms(500)), ms(1_500));
    assert_eq!(max.as_secs(), u64::MAX);
    assert_eq!(max.subsec_nanos(), 999_999_999);
}

#[test]
fn duration_division_rounds_down_to_nanoseconds() {
    assert_eq!(s(1).div_u32(3), ns(333_333_333));
    assert_eq!(s(3).div_u32(3), s(1));
    assert_eq!(ms(10).div_u32(4), ns(2_500_000));
}

#[test]
fn duration_comparisons() {
    assert!(s(1).lt(&s(2)));
    assert!(!s(2).lt(&s(2)));
    assert!(s(2).le(&s(2)));
    assert!(ms(1_000).same(&s(1)));
    assert_eq!(s(1).min(s(2)), s(1));
    assert_eq!(s(1).max(s(2)), s(2));
    assert_eq!(s(1).abs_diff(s(3)), s(2));
    assert_eq!(s(3).abs_diff(s(1)), s(2));
    assert_eq!(s(7).as_nanos(), 7_000_000_000);
}
