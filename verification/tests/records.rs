use measurements::record::Record;

#[test]
fn new_seeds_every_field_with_the_first_value() {
    let r = Record::new(35);
    assert_eq!(r.min, 35);
    assert_eq!(r.total, 35);
    assert_eq!(r.max, 35);
    assert_eq!(r.count, 1);
}

#[test]
fn add_temperature_updates_bounds_independently() {
    let mut r = Record::new(50);
    r.add_temperature(30);
    assert_eq!((r.min, r.max), (30, 50));
    r.add_temperature(70);
    assert_eq!((r.min, r.max), (30, 70));
    assert_eq!(r.total, 150);
    assert_eq!(r.count, 3);
}

#[test]
fn add_equal_value_changes_neither_bound() {
    let mut r = Record::new(-10);
    r.add_temperature(-10);
    assert_eq!((r.min, r.max), (-10, -10));
    assert_eq!(r.total, -20);
    assert_eq!(r.count, 2);
}

#[test]
fn merge_combines_all_fields() {
    let mut a = Record::new(10);
    a.add_temperature(20);
    let mut b = Record::new(-5);
    b.add_temperature(40);
    a.merge(&b);
    assert_eq!(a.min, -5);
    assert_eq!(a.max, 40);
    assert_eq!(a.total, 65);
    assert_eq!(a.count, 4);
}

#[test]
fn merge_order_is_immaterial() {
    let mut a1 = Record::new(3);
    a1.add_temperature(9);
    let b1 = {
        let mut b = Record::new(-2);
        b.add_temperature(6);
        b
    };
    let mut a2 = b1;
    let orig_a = a1;
    a1.merge(&b1);
    a2.merge(&orig_a);
    assert_eq!((a1.min, a1.total, a1.max, a1.count), (a2.min, a2.total, a2.max, a2.count));
}
