use rebalance::assets::{Asset, AssetClass};
use rebalance::rational::Rational;
use rebalance::rebalance::{optimally_allocate, AssetAllocation, Portfolio, RebalanceError};

fn asset(name: &str, symbol: &str, dollars: i64, class: AssetClass) -> Asset {
    Asset::new(
        String::from(name),
        Some(String::from(symbol)),
        Rational::from_integer(dollars),
        class,
        None,
        None,
        None,
    )
}

#[test]
fn test_asset_types_must_match() {
    let mut stocks = AssetAllocation::new(AssetClass::USTotal, Rational::from_integer(1));
    let result = stocks.add_asset(asset(
        "Vanguard Total Intl Bd Idx Admiral",
        "VTABX",
        1234,
        AssetClass::IntlBonds,
    ));
    assert_eq!(result, Err(RebalanceError::ClassMismatch));
}

#[test]
fn test_current_value_is_summed_assets() {
    let mut stocks = AssetAllocation::new(AssetClass::USTotal, Rational::from_integer(1));
    assert!(stocks.current_value().eq_value(&Rational::from_integer(0)));

    stocks
        .add_asset(asset(
            "Vanguard Total Stock Market Index Fund Admiral Shares",
            "VTSAX",
            8675,
            AssetClass::USTotal,
        ))
        .unwrap();
    assert!(stocks.current_value().eq_value(&Rational::from_integer(8675)));

    stocks
        .add_asset(asset(
            "Fidelity ZERO Total Market Index Fund",
            "FZROX",
            10000,
            AssetClass::USTotal,
        ))
        .unwrap();
    assert!(stocks.current_value().eq_value(&Rational::from_integer(18675)));
}

#[test]
fn test_add_contribution() {
    let mut bonds = AssetAllocation::new(AssetClass::USBonds, Rational::from_integer(1));

    assert!(bonds.current_value().eq_value(&Rational::from_integer(0)));
    assert!(bonds.future_value().unwrap().eq_value(&Rational::from_integer(0)));

    bonds.add_contribution(Rational::decimal(3720, 2)).unwrap();
    assert!(bonds.current_value().eq_value(&Rational::from_integer(0)));
    assert!(bonds.future_value().unwrap().eq_value(&Rational::decimal(3720, 2)));

    bonds.add_contribution(Rational::decimal(1467, 2)).unwrap();
    assert!(bonds.current_value().eq_value(&Rational::from_integer(0)));
    assert!(bonds.future_value().unwrap().eq_value(&Rational::decimal(5187, 2)));
}

#[test]
fn test_minimum_to_balance_two_fund_portfolio() {
    let mut stocks = AssetAllocation::new(AssetClass::USTotal, Rational::decimal(50, 2));
    let bonds = AssetAllocation::new(AssetClass::USBonds, Rational::decimal(50, 2));
    stocks
        .add_asset(asset(
            "Vanguard Total Stock Market Index Fund Admiral Shares",
            "VTSAX",
            8675,
            AssetClass::USTotal,
        ))
        .unwrap();

    let portfolio = Portfolio::new(vec![stocks, bonds]);
    // With $8,675 in stocks and 0 in bonds, you need $8,675 in bonds to get 50/50
    assert!(portfolio
        .minimum_addition_to_balance()
        .unwrap()
        .eq_value(&Rational::from_integer(8675)));
}

#[test]
fn test_minimum_to_balance_three_fund_portfolio() {
    let mut us_stocks = AssetAllocation::new(AssetClass::USTotal, Rational::decimal(60, 2));
    let mut intl_stocks = AssetAllocation::new(AssetClass::IntlStocks, Rational::decimal(30, 2));
    let mut bonds = AssetAllocation::new(AssetClass::USBonds, Rational::decimal(10, 2));

    us_stocks
        .add_asset(asset(
            "Vanguard Total Stock Market Index Fund Admiral Shares",
            "VTSAX",
            660,
            AssetClass::USTotal,
        ))
        .unwrap();
    intl_stocks
        .add_asset(asset(
            "Vanguard Total International Stock Index Fund Admiral Shares",
            "VTIAX",
            200,
            AssetClass::IntlStocks,
        ))
        .unwrap();
    bonds
        .add_asset(asset(
            "Vanguard Total Bond Market Index Fund Admiral Shares",
            "VBTLX",
            140,
            AssetClass::USBonds,
        ))
        .unwrap();

    let portfolio = Portfolio::new(vec![us_stocks, intl_stocks, bonds]);

    assert!(portfolio
        .minimum_addition_to_balance()
        .unwrap()
        .eq_value(&Rational::from_integer(400)));

    // The recommendations for allocating money match what we'd expect:
    // - $220 into Intl stocks, total $420
    // - $180 into US stocks, total $840
    // - $0 to bonds, remaining at $140
    let balanced = optimally_allocate(portfolio, Rational::from_integer(400)).unwrap();
    assert!(balanced
        .future_value()
        .unwrap()
        .eq_value(&Rational::from_integer(1400)));

    let classes: Vec<AssetClass> = balanced
        .allocations
        .iter()
        .map(|allocation| allocation.asset_class)
        .collect();
    assert_eq!(
        classes,
        vec![
            AssetClass::IntlStocks,
            AssetClass::USTotal,
            AssetClass::USBonds,
        ]
    );

    let expected = [420i64, 840, 140];
    for (allocation, want) in balanced.allocations.iter().zip(expected.iter()) {
        assert!(allocation
            .future_value()
            .unwrap()
            .eq_value(&Rational::from_integer(*want)));
    }
}

#[test]
fn test_minimum_to_balance_single_fund_portfolio() {
    let terrible_allocation = AssetAllocation::new(AssetClass::Cash, Rational::from_integer(1));
    let portfolio = Portfolio::new(vec![terrible_allocation]);
    // Obviously, you never need to add money to get a 100% allocation
    assert!(portfolio
        .minimum_addition_to_balance()
        .unwrap()
        .eq_value(&Rational::from_integer(0)));
}

#[test]
fn test_allocations_sum_to_1() {
    let terrible_allocation = AssetAllocation::new(AssetClass::Cash, Rational::from_integer(1));
    let portfolio = Portfolio::new(vec![terrible_allocation]);
    let balanced = optimally_allocate(portfolio, Rational::from_integer(1_000)).unwrap();
    assert!(balanced
        .future_value()
        .unwrap()
        .eq_value(&Rational::from_integer(1_000)));
}

#[test]
fn test_allocations_do_not_sum() {
    let does_not_sum = vec![
        AssetAllocation::new(AssetClass::USTotal, Rational::decimal(3, 1)),
        AssetAllocation::new(AssetClass::USBonds, Rational::decimal(3, 1)),
    ];
    let portfolio = Portfolio::new(does_not_sum);

    let result = optimally_allocate(portfolio, Rational::from_integer(1_000));
    assert_eq!(result.err(), Some(RebalanceError::ImbalancedTargets));
}

#[test]
fn test_should_sort_by_current_allocation_value() {
    let mut stocks = AssetAllocation::new(AssetClass::USTotal, Rational::decimal(50, 2));
    let mut bonds = AssetAllocation::new(AssetClass::USBonds, Rational::decimal(50, 2));

    // We keep $10 in bonds, but plan to contribute nearly $1 million in stocks
    bonds
        .add_asset(asset(
            "Vanguard Total Intl Bd Idx Admiral",
            "VBTLX",
            10,
            AssetClass::USBonds,
        ))
        .unwrap();
    stocks.add_contribution(Rational::from_integer(999_999)).unwrap();

    // Ordering is done by current value alone.
    let portfolio = Portfolio::new(vec![stocks, bonds]);
    let classes: Vec<AssetClass> = portfolio
        .allocations
        .iter()
        .map(|allocation| allocation.asset_class)
        .collect();
    assert_eq!(classes, vec![AssetClass::USBonds, AssetClass::USTotal]);
}

#[test]
fn test_conservation_on_withdrawal() {
    let mut us_stocks = AssetAllocation::new(AssetClass::USTotal, Rational::decimal(60, 2));
    let mut intl_stocks = AssetAllocation::new(AssetClass::IntlStocks, Rational::decimal(30, 2));
    let mut bonds = AssetAllocation::new(AssetClass::USBonds, Rational::decimal(10, 2));
    us_stocks
        .add_asset(asset("US total market fund", "VTSAX", 660, AssetClass::USTotal))
        .unwrap();
    intl_stocks
        .add_asset(asset("International fund", "VTIAX", 200, AssetClass::IntlStocks))
        .unwrap();
    bonds
        .add_asset(asset("Bond fund", "VBTLX", 140, AssetClass::USBonds))
        .unwrap();
    let portfolio = Portfolio::new(vec![us_stocks, intl_stocks, bonds]);

    let withdrawal = Rational::from_integer(-100);
    let balanced = optimally_allocate(portfolio, withdrawal).unwrap();

    // The most overweight classes are drained first: bonds give up $40 and
    // US stocks $60; international stocks, underweight, are untouched.
    let mut total = Rational::from_integer(0);
    for allocation in balanced.allocations.iter() {
        total = total.checked_add(allocation.future_contribution()).unwrap();
        let fc = allocation.future_contribution();
        match allocation.asset_class {
            AssetClass::USBonds => assert!(fc.eq_value(&Rational::from_integer(-40))),
            AssetClass::USTotal => assert!(fc.eq_value(&Rational::from_integer(-60))),
            AssetClass::IntlStocks => assert!(fc.eq_value(&Rational::from_integer(0))),
            _ => panic!("unexpected class"),
        }
    }
    assert!(total.eq_value(&withdrawal));
    // Withdrawals are walked from the most overweight class down.
    let classes: Vec<AssetClass> = balanced
        .allocations
        .iter()
        .map(|allocation| allocation.asset_class)
        .collect();
    assert_eq!(
        classes,
        vec![
            AssetClass::USBonds,
            AssetClass::USTotal,
            AssetClass::IntlStocks,
        ]
    );
}

#[test]
fn test_proportional_allocation_for_empty_portfolio() {
    let stocks = AssetAllocation::new(AssetClass::USTotal, Rational::decimal(60, 2));
    let bonds = AssetAllocation::new(AssetClass::USBonds, Rational::decimal(40, 2));
    let portfolio = Portfolio::new(vec![stocks, bonds]);

    let balanced = optimally_allocate(portfolio, Rational::from_integer(1_000)).unwrap();
    for allocation in balanced.allocations.iter() {
        let expected = match allocation.asset_class {
            AssetClass::USTotal => Rational::from_integer(600),
            AssetClass::USBonds => Rational::from_integer(400),
            _ => panic!("unexpected class"),
        };
        assert!(allocation.future_contribution().eq_value(&expected));
    }
}

#[test]
fn test_zero_contribution_is_rejected() {
    let cash = AssetAllocation::new(AssetClass::Cash, Rational::from_integer(1));
    let portfolio = Portfolio::new(vec![cash]);
    let result = optimally_allocate(portfolio, Rational::from_integer(0));
    assert_eq!(result.err(), Some(RebalanceError::ZeroContribution));
}

#[test]
fn test_overwithdrawal_is_rejected() {
    let mut cash = AssetAllocation::new(AssetClass::Cash, Rational::from_integer(1));
    cash.add_asset(asset("Cash account", "CASH", 100, AssetClass::Cash))
        .unwrap();
    let portfolio = Portfolio::new(vec![cash]);
    let result = optimally_allocate(portfolio, Rational::from_integer(-100));
    assert_eq!(result.err(), Some(RebalanceError::OverWithdrawal));
}

#[test]
fn test_exact_fractions_survive_the_engine() {
    // Thirds do not terminate in decimal; the engine still conserves money.
    let a = AssetAllocation::new(AssetClass::USTotal, Rational::new(1, 3).unwrap());
    let b = AssetAllocation::new(AssetClass::IntlStocks, Rational::new(1, 3).unwrap());
    let c = AssetAllocation::new(AssetClass::USBonds, Rational::new(1, 3).unwrap());
    let portfolio = Portfolio::new(vec![a, b, c]);
    let balanced = optimally_allocate(portfolio, Rational::from_integer(100)).unwrap();
    let mut total = Rational::from_integer(0);
    for allocation in balanced.allocations.iter() {
        total = total.checked_add(allocation.future_contribution()).unwrap();
    }
    assert!(total.eq_value(&Rational::from_integer(100)));
}

#[test]
fn test_add_asset_keeps_holdings_sorted() {
    let mut stocks = AssetAllocation::new(AssetClass::USTotal, Rational::from_integer(1));
    // same name: the larger value must come first
    stocks
        .add_asset(asset("Vanguard fund", "V1", 1, AssetClass::USTotal))
        .unwrap();
    stocks
        .add_asset(asset("Vanguard fund", "V2", 2, AssetClass::USTotal))
        .unwrap();
    // an earlier name goes to the front, a later one to the back
    stocks
        .add_asset(asset("Zebra fund", "Z", 5, AssetClass::USTotal))
        .unwrap();
    stocks
        .add_asset(asset("Alpha fund", "A", 3, AssetClass::USTotal))
        .unwrap();

    let names: Vec<String> = stocks.assets().iter().map(|a| a.name.clone()).collect();
    assert_eq!(names, vec!["Alpha fund", "Vanguard fund", "Vanguard fund", "Zebra fund"]);
    // of the two same-named holdings, the larger value stands first
    let expected = [3i64, 2, 1, 5];
    for (held, want) in stocks.assets().iter().zip(expected.iter()) {
        assert!(held.value.eq_value(&Rational::from_integer(*want)));
    }
}
