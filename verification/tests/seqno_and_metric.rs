use root::router::INF;
use root::util::{increment, increment_by, seqno_less_than, sum_inf};

#[test]
fn seqno_less_than_orders_nearby_numbers() {
    assert!(seqno_less_than(5, 10000));
    assert!(seqno_less_than(60000, 61000));
    assert!(!seqno_less_than(20000, 61000));
    assert!(!seqno_less_than(10000, 5));
}

#[test]
fn seqno_is_not_less_than_itself() {
    assert!(!seqno_less_than(0, 0));
    assert!(!seqno_less_than(65535, 65535));
    assert!(!seqno_less_than(123, 123));
}

#[test]
fn seqno_wraps_from_last_to_first() {
    assert!(seqno_less_than(65535, 0));
    assert!(!seqno_less_than(0, 65535));
    assert!(seqno_less_than(65000, 100));
}

#[test]
fn seqno_half_turn_is_the_boundary() {
    assert!(seqno_less_than(0, 32767));
    assert!(!seqno_less_than(0, 32768));
    assert!(!seqno_less_than(32768, 0));
    assert!(seqno_less_than(32769, 0));
}

#[test]
fn seqno_successor_is_always_later() {
    for a in [0u16, 1, 32767, 32768, 65534, 65535] {
        let next = increment_by(a, 1);
        assert!(seqno_less_than(a, next));
        assert!(!seqno_less_than(next, a));
    }
}

#[test]
fn increment_steps_by_one_and_wraps() {
    let mut x = 41;
    increment(&mut x);
    assert_eq!(x, 42);
    let mut y = 65535;
    increment(&mut y);
    assert_eq!(y, 0);
}

#[test]
fn increment_by_adds_modulo_the_cycle() {
    assert_eq!(increment_by(10, 5), 15);
    assert_eq!(increment_by(65535, 1), 0);
    assert_eq!(increment_by(65535, 65535), 65534);
    assert_eq!(increment_by(40000, 30000), 4464);
    assert_eq!(increment_by(7, 0), 7);
}

#[test]
fn sum_inf_adds_finite_metrics() {
    assert_eq!(sum_inf(1, 2), 3);
    assert_eq!(sum_inf(0, 0), 0);
    assert_eq!(sum_inf(100, 8), 108);
}

#[test]
fn sum_inf_saturates_below_infinity() {
    assert_eq!(sum_inf(INF - 1, 1), INF - 1);
    assert_eq!(sum_inf(INF - 1, INF - 1), INF - 1);
    assert_eq!(sum_inf(40000, 30000), INF - 1);
    assert_eq!(sum_inf(INF - 2, 1), INF - 1);
    assert_eq!(sum_inf(INF - 3, 1), INF - 2);
}

#[test]
fn sum_inf_keeps_infinity() {
    assert_eq!(sum_inf(INF, 0), INF);
    assert_eq!(sum_inf(0, INF), INF);
    assert_eq!(sum_inf(INF, INF), INF);
    assert_eq!(sum_inf(INF, 17), INF);
}

#[test]
fn sum_inf_is_symmetric() {
    for (a, b) in [(1u16, 2u16), (INF, 3), (INF - 1, 9), (0, 0), (500, 65000)] {
        assert_eq!(sum_inf(a, b), sum_inf(b, a));
    }
}
