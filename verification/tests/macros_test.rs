use amount::Amount;
use amount::Error;
use amount::Exchanger;
use amount::ExchangerExt;
use amount::Ladder;
use amount::Unit;

fn mg_ladder() -> Ladder {
    Ladder::new(
        "MG",
        vec![
            (Unit::new("T"), 1_000_000_000),
            (Unit::new("KG"), 1_000_000),
            (Unit::new("JIN"), 500_000),
            (Unit::new("G"), 1_000),
        ],
    )
}

#[test]
fn define_exchanger_using_macros() {
    assert_eq!(mg_ladder().units(), ["T", "KG", "JIN", "G", "MG"]);

    let weight = mg_ladder().default_table();
    assert_eq!(
        weight.sorted_units().to_vec(),
        [
            (Unit::new("T"), 1_000_000_000),
            (Unit::new("KG"), 1_000_000),
            (Unit::new("JIN"), 500_000),
            (Unit::new("G"), 1_000),
            (Unit::new("MG"), 1),
        ]
    );

    assert_eq!(weight.rate(&Unit::new("T")).unwrap(), 1_000_000_000);
    assert_eq!(weight.rate(&Unit::new("MG")).unwrap(), 1);
    assert!(
        matches!(weight.rate(&Unit::new("BAG")), Err(Error::NotFound(unit)) if unit.key == "BAG")
    );
    assert_eq!(*weight.base_unit(), Unit::new("MG"));
}

#[test]
fn weight_with_specified_base_unit() {
    let weight = mg_ladder().base("JIN").unwrap();
    assert_eq!(
        weight.sorted_units().to_vec(),
        [
            (Unit::new("T"), 2000),
            (Unit::new("KG"), 2),
            (Unit::new("JIN"), 1)
        ]
    );
    assert_eq!(*weight.base_unit(), Unit::new("JIN"));

    assert!(matches!(
        weight.reduce(Amount::new(500, Unit::new("G"))),
        Err(Error::NotFound(_))
    ));
    assert_eq!(
        weight.reduce(Amount::new(5, Unit::new("KG"))).unwrap(),
        Amount::new(5 * 2, Unit::new("JIN"))
    );
}

#[test]
fn weight_with_invalid_base_unit() {
    let result = mg_ladder().base("bag");
    assert!(matches!(result, Err(Error::NotFound(unit)) if unit.key == "bag"));
}

#[test]
fn define_exchanger_with_base_unit_rate() {
    let ladder = Ladder::new("g", vec![(Unit::new("kg"), 1_000), (Unit::new("g"), 1)]);
    let weight = ladder.default_table();

    assert_eq!(
        weight.sorted_units().to_vec(),
        [(Unit::new("kg"), 1_000), (Unit::new("g"), 1)]
    );
    assert_eq!(ladder.units(), ["kg", "g"]);
}

#[test]
fn accessible() {
    let ladder = Ladder::new("g", vec![]);
    let _ = ladder.default_table();
}
