use amount::Amount;
use amount::Exchanger;
use amount::ExchangerExt;
use amount::Ladder;
use amount::Table;
use amount::Unit;
use amount::Weight;

fn g() -> Unit {
    Unit::new("g")
}

fn kg() -> Unit {
    Unit::new("kg")
}

fn bag() -> Unit {
    Unit::new("bag")
}

fn custom_weight() -> Table {
    Ladder::new("kg", vec![(bag(), 45)]).default_table()
}

#[test]
fn extend_exchanger() {
    let ext = Weight::default().extend(custom_weight()).unwrap();

    assert_eq!(ext.rate(&kg()).unwrap(), 1_000);
    assert_eq!(ext.rate(&bag()).unwrap(), 45_000);
}

#[test]
fn add_empty_split() {
    let ext = Weight::default().extend(custom_weight()).unwrap();
    let empty = ext.split(Amount::new(0, kg())).unwrap();

    assert_eq!(empty.iter().cloned().collect::<Vec<_>>(), []);

    let sum = empty.add(Amount::new(1_100, g()).into_expr());
    let split = ext.split(sum).unwrap();
    assert_eq!(
        split.iter().cloned().collect::<Vec<_>>(),
        [Amount::new(1, kg()), Amount::new(100, g())]
    );
}
