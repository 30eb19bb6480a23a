use amount::Exchanger;
use amount::Ladder;
use amount::Unit;

fn g() -> Unit {
    Unit::new("g")
}

fn kg() -> Unit {
    Unit::new("kg")
}

#[test]
fn exchanger_without_base_unit() {
    let ladder = Ladder::new("g", vec![(Unit::new("kg"), 1_000)]);

    let weight = ladder.base("kg").unwrap();
    let cloned = weight.clone();
    assert_eq!(weight.sorted_units(), cloned.sorted_units());

    assert_eq!(ladder.units(), ["kg", "g"]);
    assert_eq!(weight.sorted_units().to_vec(), [(kg(), 1)]);
    assert_eq!(*weight.base_unit(), kg());

    let weight = ladder.base("g").unwrap();
    assert_eq!(
        weight.sorted_units().to_vec(),
        [(kg(), 1_000), (g(), 1)]
    );
    assert_eq!(*weight.base_unit(), g());
}
