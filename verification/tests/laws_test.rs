use amount::custom;
use amount::Amount;
use amount::Error;
use amount::ExchangerExt;
use amount::Exchanger;
use amount::Ladder;
use amount::ParseError;
use amount::Table;
use amount::Unit;
use amount::Weight;

fn g() -> Unit {
    Unit::new("g")
}

fn kg() -> Unit {
    Unit::new("kg")
}

#[test]
fn round_trip_of_reduced_amount() {
    let ladder = Ladder::new("g", vec![(kg(), 1_000)]).default_table();

    let reduced = ladder.reduce("2200g".parse::<Amount>().unwrap()).unwrap();
    let split = ladder.split(&reduced).unwrap();
    assert_eq!(
        split.iter().cloned().collect::<Vec<_>>(),
        [Amount::new(2, kg()), Amount::new(200, g())]
    );

    assert_eq!(ladder.reduce(split).unwrap(), reduced);
}

#[test]
fn sum_reduction_commutes() {
    let a = Amount::new(3, kg());
    let b = Amount::new(70, g());

    let ab = Weight::default()
        .reduce(a.clone().add(b.clone().into_expr()))
        .unwrap();
    let ba = Weight::default().reduce(b.add(a.into_expr())).unwrap();

    assert_eq!(ab, ba);
    assert_eq!(ab, Amount::new(3_070, g()));
}

#[test]
fn multiplication_distributes_over_sum() {
    let a = Amount::new(3, kg());
    let b = Amount::new(70, g());

    let left = a.clone().add(b.clone().into_expr()).mul(4).unwrap();
    let right = a.mul(4).unwrap().add(b.mul(4).unwrap().into_expr());

    assert_eq!(
        Weight::default().reduce(left).unwrap(),
        Weight::default().reduce(right).unwrap()
    );
}

#[test]
fn table_keeps_sort_invariant() {
    let table = Table::new(
        g(),
        vec![
            (Unit::new("jin"), 500),
            (Unit::new("t"), 1_000_000),
            (kg(), 1_000),
        ],
    );

    let units = table.sorted_units();
    for i in 1..units.len() {
        assert!(units[i - 1].1 >= units[i].1);
    }
    let ones: Vec<_> = units.iter().filter(|(_, rate)| *rate == 1).collect();
    assert_eq!(ones.len(), 1);
    assert_eq!(ones[0].0, *table.base_unit());
}

#[test]
fn rebase_divides_coarser_rates() {
    let weight = Weight::base("jin").unwrap();
    assert_eq!(
        weight.sorted_units().to_vec(),
        [
            (Unit::new("t"), 2_000),
            (kg(), 2),
            (Unit::new("jin"), 1)
        ]
    );
    assert_eq!(*weight.base_unit(), Unit::new("jin"));

    assert!(matches!(
        Weight::base("bag"),
        Err(Error::NotFound(unit)) if unit.key == "bag"
    ));
}

#[test]
fn merge_rescales_through_cross_rate() {
    let bags = Ladder::new("kg", vec![(Unit::new("bag"), 45)]).default_table();
    let ext = Weight::default().extend(bags).unwrap();

    assert_eq!(ext.rate(&Unit::new("bag")).unwrap(), 45_000);
    assert_eq!(
        ext.reduce(Amount::new(1, Unit::new("bag"))).unwrap(),
        Amount::new(45_000, g())
    );
}

#[test]
fn empty_split_renders_empty() {
    let split = Weight::default().split(Amount::new(0, kg())).unwrap();
    assert_eq!(split.iter().count(), 0);
    assert_eq!(split.to_string(), "");
}

#[test]
fn parse_splits_at_first_non_digit() {
    assert_eq!("12g".parse::<Amount>().unwrap(), Amount::new(12, g()));
    assert_eq!("".parse::<Amount>(), Err(ParseError::Empty));
    assert_eq!("g".parse::<Amount>(), Err(ParseError::Empty));
    assert_eq!("123".parse::<Amount>(), Err(ParseError::Empty));
    assert_eq!(
        "99999999999999999999x".parse::<Amount>(),
        Err(ParseError::Malformed)
    );
}

#[test]
fn overflow_is_reported() {
    let huge = Amount::new(u64::MAX, g());
    assert_eq!(huge.mul(2), Err(Error::Overflow));

    assert_eq!(
        Weight::default().reduce(Amount::new(u64::MAX, kg())),
        Err(Error::Overflow)
    );

    let sum = huge.add(Amount::new(1, g()).into_expr());
    assert_eq!(Weight::default().reduce(sum), Err(Error::Overflow));
}

#[test]
fn message_wraps_opaque_reasons() {
    let error = Error::from(String::from("no such rate source"));
    assert!(matches!(error, Error::Message(m) if m == "no such rate source"));
}

#[test]
fn decimal_rendering_is_exact() {
    assert_eq!(Amount::new(0, g()).to_string(), "0g");
    assert_eq!(Amount::new(1_234_567_890, g()).to_string(), "1234567890g");
    assert_eq!(Amount::new(u64::MAX, g()).to_string(), "18446744073709551615g");
}

#[test]
fn custom_keeps_unknown_base_alone() {
    let table = custom("night", vec![(Unit::new("week"), 7)]).unwrap();
    assert_eq!(
        table.sorted_units().to_vec(),
        [(Unit::new("week"), 7), (Unit::new("night"), 1)]
    );
    assert_eq!(table.rate(&Unit::new("kg")).ok(), None);
}
