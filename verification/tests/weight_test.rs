use amount::custom;
use amount::Exchanger;
use amount::Unit;

#[test]
fn create_custom_with_weight_base_unit() {
    let weight = custom(
        "g",
        vec![(Unit::new("bag"), 45_000), (Unit::new("box"), 100_000)],
    )
    .unwrap();

    assert_eq!(
        weight.sorted_units().to_vec(),
        [
            (Unit::new("t"), 1_000_000),
            (Unit::new("box"), 100_000),
            (Unit::new("bag"), 45_000),
            (Unit::new("kg"), 1_000),
            (Unit::new("jin"), 500),
            (Unit::new("g"), 1),
        ]
    );
}

#[test]
fn create_custom_with_weight_high_unit() {
    let weight = custom("kg", vec![(Unit::new("bag"), 45), (Unit::new("box"), 100)]).unwrap();

    assert_eq!(
        weight.sorted_units().to_vec(),
        [
            (Unit::new("t"), 1_000),
            (Unit::new("box"), 100),
            (Unit::new("bag"), 45),
            (Unit::new("kg"), 1),
        ]
    );
}

#[test]
fn create_custom_weight_without_base_unit() {
    let weight = custom(
        "bag",
        vec![(Unit::new("car"), 500), (Unit::new("box"), 20)],
    )
    .unwrap();

    assert_eq!(
        weight.sorted_units().to_vec(),
        [
            (Unit::new("car"), 500),
            (Unit::new("box"), 20),
            (Unit::new("bag"), 1),
        ]
    );
}
