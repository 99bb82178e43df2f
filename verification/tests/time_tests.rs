use memsim::Time;
use memsim::TimeError;

#[test]
fn new_time_is_zero() {
    assert_eq!(Time::new().milliseconds(), 0);
}

#[test]
fn from_miliseconds_keeps_the_value() {
    assert_eq!(Time::from_miliseconds(1500).milliseconds(), 1500);
}

#[test]
fn max_time_is_the_sentinel() {
    assert_eq!(Time::max().milliseconds(), u32::MAX);
}

#[test]
fn addition_adds_milliseconds() {
    let t = Time::from_miliseconds(1000).add(Time::from_miliseconds(234));
    assert_eq!(t.milliseconds(), 1234);
}

#[test]
fn addition_saturates_at_the_cap() {
    let t = Time::max().add(Time::from_miliseconds(1));
    assert_eq!(t.milliseconds(), u32::MAX);
}

#[test]
fn subtraction_of_a_smaller_value_succeeds() {
    let t = Time::from_miliseconds(4000).subtract(Time::from_miliseconds(1500));
    assert_eq!(t, Ok(Time::from_miliseconds(2500)));
}

#[test]
fn subtraction_of_a_larger_value_underflows() {
    let t = Time::from_miliseconds(100).subtract(Time::from_miliseconds(200));
    assert_eq!(t, Err(TimeError::Underflow));
}

#[test]
fn is_before_orders_values() {
    assert!(Time::from_miliseconds(1).is_before(Time::from_miliseconds(2)));
    assert!(!Time::from_miliseconds(2).is_before(Time::from_miliseconds(2)));
    assert!(!Time::from_miliseconds(3).is_before(Time::from_miliseconds(2)));
}
