use neurotask::action::default::timer;

#[test]
fn instruction_timer_defaults_to_three_seconds() {
    assert_eq!(timer(), 3000);
}
