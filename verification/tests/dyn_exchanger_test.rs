use amount::Amount;
use amount::ExchangerExt;
use amount::Unit;
use amount::Weight;

fn g() -> Unit {
    Unit::new("g")
}

#[test]
fn dyn_exchanger() {
    let exchanger = Box::new(Weight::default());

    let amount = "50kg".parse::<Amount>().unwrap();
    assert_eq!(exchanger.reduce(amount).unwrap(), Amount::new(50_000, g()));
}
