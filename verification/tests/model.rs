use rebalance::assets::{Asset, AssetClass, AssetClassifications};
use rebalance::config::Config;
use rebalance::gnucash::Commodity;
use rebalance::decutil::{format_dollars, price_to_cents};
use rebalance::rational::Rational;

#[test]
fn test_exact_value_equality() {
    let half = Rational::new(1, 2).unwrap();
    let two_quarters = Rational::new(2, 4).unwrap();
    assert!(half.eq_value(&two_quarters));
    assert!(!half.eq_value(&Rational::new(1, 3).unwrap()));
    assert!(Rational::decimal(50, 2).eq_value(&half));
}

#[test]
fn test_exact_arithmetic() {
    let third = Rational::new(1, 3).unwrap();
    let sixth = Rational::new(1, 6).unwrap();
    let sum = third.checked_add(sixth).unwrap();
    assert!(sum.eq_value(&Rational::new(1, 2).unwrap()));

    let product = third.checked_mul(Rational::from_integer(3)).unwrap();
    assert!(product.eq_value(&Rational::from_integer(1)));

    let quotient = Rational::from_integer(1).checked_div(Rational::from_integer(3)).unwrap();
    assert!(quotient.eq_value(&third));

    let difference = Rational::decimal(3720, 2)
        .checked_sub(Rational::decimal(1467, 2))
        .unwrap();
    assert!(difference.eq_value(&Rational::decimal(2253, 2)));
}

#[test]
fn test_results_are_reduced() {
    // arithmetic results are stored in lowest terms
    let half = Rational::new(2, 4).unwrap();
    assert_eq!(half.numer(), 1);
    assert_eq!(half.denom(), 2);
    let sum = Rational::new(1, 6).unwrap().checked_add(Rational::new(1, 3).unwrap()).unwrap();
    assert_eq!(sum.numer(), 1);
    assert_eq!(sum.denom(), 2);
}

#[test]
fn test_comparisons_and_signs() {
    let neg = Rational::from_integer(-5);
    assert!(neg.is_negative());
    assert!(!neg.is_zero());
    assert!(neg.abs().eq_value(&Rational::from_integer(5)));
    assert!(neg.lt(&Rational::from_integer(0)));
    assert!(Rational::new(1, 3).unwrap().lt(&Rational::new(1, 2).unwrap()));
    assert!(Rational::from_integer(0).is_zero());
}

#[test]
fn test_classify_known_and_unknown_funds() {
    let mut table = AssetClassifications::new();
    table.add(String::from("VTSAX"), AssetClass::USStocks);
    table.add(String::from("VFIAX"), AssetClass::USStocks);

    assert_eq!(table.classify("VTSAX").unwrap(), AssetClass::USStocks);
    assert_eq!(table.classify("VFIAX").unwrap(), AssetClass::USStocks);
    let err = table.classify("ABCDE").unwrap_err();
    assert_eq!(err.fund_name, "ABCDE");
}

#[test]
fn test_classify_latest_entry_wins() {
    let mut table = AssetClassifications::new();
    table.add(String::from("VTSAX"), AssetClass::USStocks);
    table.add(String::from("VTSAX"), AssetClass::USTotal);
    assert_eq!(table.classify("VTSAX").unwrap(), AssetClass::USTotal);
}

#[test]
fn test_all_asset_classes_parse() {
    let names = [
        "USBonds",
        "USStocks",
        "USTotal",
        "USSmall",
        "IntlBonds",
        "IntlStocks",
        "REIT",
        "Target",
        "Cash",
    ];
    for name in names.iter() {
        assert!(AssetClass::from_name(name).is_some());
    }
    assert!(AssetClass::from_name("NotAClass").is_none());
}

#[test]
fn test_display_names() {
    assert_eq!(AssetClass::USBonds.display_name(), "US bonds");
    assert_eq!(AssetClass::IntlStocks.display_name(), "International stocks");
    assert_eq!(AssetClass::Cash.display_name(), "Cash");
}

#[test]
fn test_asset_price_is_dated() {
    let week = 604800i64;
    let asset = Asset::new(
        String::from("Fund"),
        None,
        Rational::from_integer(100),
        AssetClass::Cash,
        None,
        None,
        Some(1_000_000),
    );
    // dated only once a second whole week has passed
    assert!(!asset.price_is_dated(1_000_000 + week));
    assert!(!asset.price_is_dated(1_000_000 + 2 * week - 1));
    assert!(asset.price_is_dated(1_000_000 + 2 * week));

    let unpriced = Asset::new(
        String::from("Fund"),
        None,
        Rational::from_integer(100),
        AssetClass::Cash,
        None,
        None,
        None,
    );
    assert!(!unpriced.price_is_dated(i64::MAX));
}

#[test]
fn test_fallback_to_default_settings() {
    let conf = Config::default();
    assert_eq!(conf.user.birthday, "1985-01-01");
    assert_eq!(conf.gnucash.path_to_book, "example/sqlite3.gnucash");
    assert_eq!(conf.gnucash.file_format, "sqlite3");
    assert_eq!(conf.gnucash.update_prices, false);
}

#[test]
fn test_commodity_name_falls_back_to_id() {
    let unnamed = Commodity::new(None, String::from("VTSAX"), None, None);
    assert_eq!(unnamed.name, "VTSAX");

    let named = Commodity::new(
        None,
        String::from("VTSAX"),
        Some(String::from("FUND")),
        Some(String::from("Vanguard Total Stock Market Index Fund")),
    );
    assert_eq!(named.name, "Vanguard Total Stock Market Index Fund");
}

#[test]
fn test_commodity_is_investment() {
    let fund = Commodity::new(None, String::from("VTSAX"), Some(String::from("FUND")), None);
    assert!(fund.is_investment());
    let currency = Commodity::new(None, String::from("USD"), Some(String::from("CURRENCY")), None);
    assert!(!currency.is_investment());
    let unknown = Commodity::new(None, String::from("X"), None, None);
    assert!(!unknown.is_investment());
}

#[test]
fn test_less_than_one_thousand() {
    assert_eq!(format_dollars(&Rational::from_integer(150)), "$150");
}

#[test]
fn test_thousands() {
    assert_eq!(format_dollars(&Rational::from_integer(25123)), "$25,123");
}

#[test]
fn test_millions() {
    assert_eq!(format_dollars(&Rational::from_integer(9_123_955)), "$9,123,955");
}

#[test]
fn test_rounds_up() {
    assert_eq!(format_dollars(&Rational::decimal(123_95593, 2)), "$123,956");
}

#[test]
fn test_rounds_down() {
    assert_eq!(format_dollars(&Rational::decimal(123_95547, 2)), "$123,955");
}

#[test]
fn test_format_negative_dollars() {
    assert_eq!(format_dollars(&Rational::from_integer(-1234)), "$-1234");
    assert_eq!(format_dollars(&Rational::decimal(-2, 1)), "$0");
}

#[test]
fn test_price_to_cents() {
    assert_eq!(price_to_cents(&Rational::decimal(3525, 2)), Some(3525));
    assert_eq!(price_to_cents(&Rational::decimal(254, 1)), Some(2540));
    assert_eq!(price_to_cents(&Rational::from_integer(25)), Some(2500));
}

#[test]
fn test_negative_prices() {
    assert_eq!(price_to_cents(&Rational::from_integer(-1)), None);
}

#[test]
fn test_zero_prices() {
    assert_eq!(price_to_cents(&Rational::from_integer(0)), Some(0));
    assert_eq!(price_to_cents(&Rational::decimal(0, 2)), Some(0));
}

#[test]
fn test_fractional_cents() {
    // Fractional cents are rounded away
    assert_eq!(price_to_cents(&Rational::decimal(35250, 3)), Some(3525));
    assert_eq!(price_to_cents(&Rational::decimal(352505, 4)), Some(3525));

    // Banker's rounding is used!
    assert_eq!(price_to_cents(&Rational::decimal(35245, 3)), Some(3524));
    assert_eq!(price_to_cents(&Rational::decimal(35255, 3)), Some(3526));
}
