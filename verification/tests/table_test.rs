use amount::merge;
use amount::Amount;
use amount::Exchanger;
use amount::ExchangerExt;
use amount::Ladder;
use amount::Table;
use amount::Unit;
use amount::Weight;

fn g() -> Unit {
    Unit::new("g")
}

fn kg() -> Unit {
    Unit::new("kg")
}

fn bag() -> Unit {
    Unit::new("bag")
}

fn custom_weight() -> Table {
    Ladder::new("kg", vec![(bag(), 45)]).default_table()
}

#[test]
fn table_compose_two_exchangers_units() {
    let ext = merge(Weight::default(), custom_weight()).unwrap();
    assert_eq!(
        ext.sorted_units()
            .iter()
            .map(|(unit, _)| unit.clone())
            .collect::<Vec<_>>(),
        [
            Unit::new("t"),
            Unit::new("bag"),
            Unit::new("kg"),
            Unit::new("jin"),
            Unit::new("g")
        ]
    );
}

#[test]
fn table_compose_two_exchangers_rates() {
    let ext = merge(Weight::default(), custom_weight()).unwrap();

    assert_eq!(
        ext.rate(&kg()).unwrap(),
        Weight::default().rate(&kg()).unwrap()
    );
    assert_eq!(
        ext.rate(&bag()).unwrap(),
        custom_weight().rate(&bag()).unwrap() * Weight::default().rate(&kg()).unwrap()
    );
}

#[test]
fn table_reduce_on_composed_exchanger() {
    let ext = merge(Weight::default(), custom_weight()).unwrap();
    assert_eq!(
        ext.reduce(Amount::new(1, bag())).unwrap(),
        Amount::new(45_000, g())
    );
    assert_eq!(
        ext.reduce(Amount::new(1, kg())).unwrap(),
        Amount::new(1_000, g())
    );
}

#[test]
fn extend_exchangers_with_diff_base_units() {
    let boxes = Ladder::new(
        "kg",
        vec![(Unit::new("box"), 2_000), (Unit::new("bag"), 50)],
    )
    .default_table();

    let ext = merge(Weight::base("jin").unwrap(), boxes).unwrap();

    assert_eq!(
        ext.sorted_units().to_vec(),
        [
            (Unit::new("box"), 4_000),
            (Unit::new("t"), 2_000),
            (Unit::new("bag"), 100),
            (Unit::new("kg"), 2),
            (Unit::new("jin"), 1),
        ]
    );
    assert_eq!(
        ext.reduce(Amount::new(1, Unit::new("box"))).unwrap(),
        Amount::new(4_000, Unit::new("jin"))
    );
}

#[test]
fn new_table_unit_rates_contains_base_unit() {
    let table = Table::new(g(), vec![(Unit::new("kg"), 1000_u64), (Unit::new("g"), 1)]);

    assert_eq!(
        table
            .sorted_units()
            .iter()
            .map(|(unit, _)| unit.key.clone())
            .collect::<Vec<_>>(),
        ["kg", "g"]
    );
    assert_eq!(table.base_unit().key, "g");
}

#[test]
fn add_base_unit_when_new_table_unit_rates_does_not_contains_base_unit() {
    let table = Table::new(g(), vec![(Unit::new("kg"), 1000_u64)]);

    assert_eq!(
        table.sorted_units().to_vec(),
        [(Unit::new("kg"), 1_000), (Unit::new("g"), 1),]
    );
    assert_eq!(table.base_unit().key, "g");
}
