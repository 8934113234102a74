use rustyread::cli::{i82level, Duo, Quantity, Trio};
use rustyread::error::Cli;
use std::str::FromStr;

#[test]
fn loglevel() {
    assert_eq!(i82level(i8::MIN), None);
    assert_eq!(i82level(-3), None);
    assert_eq!(i82level(1), Some(log::Level::Error));
    assert_eq!(i82level(2), Some(log::Level::Warn));
    assert_eq!(i82level(3), Some(log::Level::Info));
    assert_eq!(i82level(4), Some(log::Level::Debug));
    assert_eq!(i82level(5), Some(log::Level::Trace));
    assert_eq!(i82level(i8::MAX), Some(log::Level::Trace));
}

#[test]
fn parse_quantity() {
    assert_eq!(Quantity::from_str("50").unwrap(), Quantity { coverage: 0, base: Some(50) });
    assert_eq!(Quantity::from_str("50K").unwrap(), Quantity { coverage: 0, base: Some(50_000) });
    assert_eq!(Quantity::from_str("50M").unwrap(), Quantity { coverage: 0, base: Some(50_000_000) });
    assert_eq!(
        Quantity::from_str("50G").unwrap(),
        Quantity { coverage: 0, base: Some(50_000_000_000) }
    );
    assert_eq!(Quantity::from_str("50x").unwrap(), Quantity { coverage: 50, base: None });

    assert!(Quantity::from_str("").is_err());
    assert!(Quantity::from_str("50z").is_err());
    assert!(Quantity::from_str("bépo50").is_err());
    assert!(Quantity::from_str("bépo50K").is_err());
    assert!(Quantity::from_str("bépo50M").is_err());
    assert!(Quantity::from_str("bépo50G").is_err());
    assert!(Quantity::from_str("bépo50x").is_err());
}

#[test]
fn quantity2number_of_base() {
    assert_eq!(Quantity::from_str("50").unwrap().number_of_base(50), 50);
    assert_eq!(Quantity::from_str("50K").unwrap().number_of_base(50), 50_000);
    assert_eq!(Quantity::from_str("50M").unwrap().number_of_base(50), 50_000_000);
    assert_eq!(Quantity::from_str("50G").unwrap().number_of_base(50), 50_000_000_000);
    assert_eq!(Quantity::from_str("50x").unwrap().number_of_base(50), 2500);
}

#[test]
fn parse_pair() {
    assert_eq!(Duo::from_str("50,45").unwrap(), Duo(50, 45));

    assert!(Duo::from_str("50,43,").is_err());
    assert!(Duo::from_str("50,43,74").is_err());
    assert!(Duo::from_str("50,43,,").is_err());
    assert!(Duo::from_str("50,,43").is_err());
    assert!(Duo::from_str(",,").is_err());

    assert!(Duo::from_str("bépo50,43").is_err());
    assert!(Duo::from_str("50,bépo43").is_err());
}

#[test]
fn parse_trio() {
    assert_eq!(Trio::from_str("50,45,74").unwrap(), Trio(50, 45, 74));

    assert!(Trio::from_str("50,43").is_err());
    assert!(Trio::from_str("50,43,,").is_err());
    assert!(Trio::from_str("50,,43").is_err());
    assert!(Trio::from_str(",,,").is_err());

    assert!(Trio::from_str("bépo50,43,74").is_err());
    assert!(Trio::from_str("50,bépo43,74").is_err());
    assert!(Trio::from_str("50,43,bépo74").is_err());
}

#[test]
fn quantity_errors_and_edges() {
    assert_eq!(Quantity::from_str("x"), Err(Cli::CantParseQuantity));
    assert_eq!(Quantity::from_str("+7K").unwrap(), Quantity { coverage: 0, base: Some(7_000) });
    assert_eq!(
        Quantity::from_str("18446744073709551615").unwrap(),
        Quantity { coverage: 0, base: Some(u64::MAX) }
    );
    assert_eq!(Quantity::from_str("18446744073709551616"), Err(Cli::CantParseQuantity));
    assert_eq!(Quantity::from_str("18446744073709551G"), Err(Cli::CantParseQuantity));
    assert_eq!(Duo::from_str("1"), Err(Cli::CantParseDuo));
    assert_eq!(Trio::from_str("1,2"), Err(Cli::CantParseTrio));
    assert_eq!(Trio::from_str("0,+2,3").unwrap(), Trio(0, 2, 3));
}
