use oxidd_viz::config::{Button, ButtonListener, Choice, FieldUSize, IntValue, OpenSide};

#[test]
fn choice_keeps_value_and_name() {
    let c = Choice::new(3, "three");
    assert_eq!(c.value, 3);
    assert_eq!(c.name, "three");
}

#[test]
fn values_are_kept_within_bounds() {
    let v = IntValue { value: 0, min: Some(0), max: Some(10) };
    assert_eq!(v.bound(15), 10);
    assert_eq!(v.bound(-3), 0);
    assert_eq!(v.bound(5), 5);
    assert_eq!(v.bound(v.bound(15)), 10);
    let open = IntValue { value: 0, min: None, max: None };
    assert_eq!(open.bound(isize::MIN), isize::MIN);
}

#[test]
fn minimum_wins_over_maximum() {
    let v = IntValue { value: 0, min: Some(5), max: Some(3) };
    assert_eq!(v.bound(4), 5);
    assert_eq!(v.bound(0), 5);
}

#[test]
fn open_sides_have_layout_names() {
    assert_eq!(OpenSide::In.name(), "in");
    assert_eq!(OpenSide::Above.name(), "north");
    assert_eq!(OpenSide::Right.name(), "east");
    assert_eq!(OpenSide::Below.name(), "south");
    assert_eq!(OpenSide::Left.name(), "west");
}

#[test]
fn button_starts_without_clicks() {
    assert_eq!(Button::new().clicks(), 0);
    let listener = ButtonListener::new(5);
    assert_eq!(listener.0, 5);
}

#[test]
fn field_returns_its_value() {
    assert_eq!(FieldUSize::with_value(7).get(), 7);
}

#[test]
fn int_updates_keep_the_value_within_bounds() {
    let v = IntValue { value: 4, min: Some(0), max: Some(10) };
    assert_eq!(v.with_value(12).value, 10);
    assert_eq!(v.with_value(-3).value, 0);
    assert_eq!(v.with_value(7).value, 7);
    let raised = v.with_min(Some(6));
    assert_eq!((raised.value, raised.min, raised.max), (6, Some(6), Some(10)));
    let lowered = v.with_max(Some(2));
    assert_eq!((lowered.value, lowered.min, lowered.max), (2, Some(0), Some(2)));
    let open = v.with_max(None);
    assert_eq!((open.value, open.max), (4, None));
}
