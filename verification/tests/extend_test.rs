use amount::extend;
use amount::Amount;
use amount::Exchanger;
use amount::ExchangerExt;
use amount::Ladder;
use amount::Table;
use amount::Unit;
use amount::Weight;

fn g() -> Unit {
    Unit::new("g")
}

fn kg() -> Unit {
    Unit::new("kg")
}

fn bag() -> Unit {
    Unit::new("bag")
}

fn custom_weight() -> Table {
    Ladder::new("kg", vec![(bag(), 45)]).default_table()
}

#[test]
fn extend_compose_two_exchangers_units() {
    let ext = extend(Weight::default(), custom_weight()).unwrap();
    assert_eq!(
        ext.sorted_units()
            .iter()
            .map(|(unit, _)| unit.clone())
            .collect::<Vec<_>>(),
        [
            Unit::new("t"),
            Unit::new("bag"),
            Unit::new("kg"),
            Unit::new("jin"),
            Unit::new("g")
        ]
    );
}

#[test]
fn extend_compose_two_exchangers_rates() {
    let ext = extend(Weight::default(), custom_weight()).unwrap();

    assert_eq!(ext.rate(&kg()).unwrap(), Weight::default().rate(&kg()).unwrap());
    assert_eq!(
        ext.rate(&bag()).unwrap(),
        custom_weight().rate(&bag()).unwrap() * Weight::default().rate(&kg()).unwrap()
    );
}

#[test]
fn extend_reduce_on_composed_exchanger() {
    let ext = extend(Weight::default(), custom_weight()).unwrap();
    assert_eq!(
        ext.reduce(Amount::new(1, bag())).unwrap(),
        Amount::new(45_000, g())
    );
    assert_eq!(
        ext.reduce(Amount::new(1, kg())).unwrap(),
        Amount::new(1_000, g())
    );
}
