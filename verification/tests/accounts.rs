use etf_balancer::accounts::{Account, CashBalance, Investment, Portfolio, Results};

fn check_allocation(r: &Results, sym: &str, expected_ppm: i64) {
    let a = r
        .allocations
        .iter()
        .find(|a| a.symbol == sym)
        .expect("missing symbol");
    assert!((a.ppm - expected_ppm).abs() <= 10_000);
}

#[test]
fn test_portfolio_validation_alloc() {
    let mut portfolio = Portfolio::new();
    portfolio.market.push(Investment::new("A", 100));
    assert_eq!(
        portfolio.validate(),
        Some("Allocations must add up to 1.0")
    );

    portfolio.set_target("A", 1_001_000); // 1.001, within tolerance
    assert_eq!(portfolio.validate(), None);
}

#[test]
fn portfolio_can_sell_taxed() {
    let mut p = Portfolio::new();
    assert!(p.can_sell_taxed());

    p.no_taxed_sales = Some(false);
    assert!(p.can_sell_taxed());

    p.no_taxed_sales = Some(true);
    assert!(!p.can_sell_taxed());
}

#[test]
fn test_portfolio_validation_market() {
    let mut portfolio = Portfolio::new();
    portfolio.set_target("B", 1_001_000);
    let mut a = Account::new("a");
    a.set_position("A", 5);
    portfolio.accounts.push(a);

    assert_eq!(
        portfolio.validate(),
        Some("Missing prices for some investments")
    );

    portfolio.market.push(Investment::new("A", 100));
    portfolio.market.push(Investment::new("B", 100));
    assert_eq!(portfolio.validate(), None);
}

#[test]
fn test_portfolio_shares() {
    let mut portfolio = Portfolio::new();
    let mut a = Account::new("a");
    a.set_position("A", 5);
    a.set_position("B", 10);
    let mut b = Account::new("b");
    b.set_position("B", 20);
    portfolio.accounts.push(a);
    portfolio.accounts.push(b);

    let shares = portfolio.total_shares();
    let total = |sym: &str| {
        shares
            .iter()
            .find(|p| p.symbol == sym)
            .map(|p| p.shares)
            .unwrap_or(0)
    };
    assert_eq!(total("A"), 5);
    assert_eq!(total("B"), 30);
}

#[test]
fn test_account_value() {
    let market = vec![];
    let mut account = Account::new("a");
    assert_eq!(account.value(&market), 0);

    account.cash = 100;
    assert_eq!(account.value(&market), account.cash);

    let market = vec![
        Investment::new("VEU", 1_000),
        Investment::new("BD", 10_000),
    ];
    account.set_position("VEU", 3);
    account.set_position("BD", 1);
    account.set_position("NO-PRICE", 5);
    assert_eq!(account.value(&market), 13_100); // $131
}

#[test]
fn test_result_allocations() {
    let market = vec![Investment::new("A", 1_000), Investment::new("B", 100)];

    let mut r = Results::new();
    assert_eq!(r.transact("a1", "A", 1), 1);

    r.calculate_percentages(&market);
    check_allocation(&r, "A", 1_000_000);

    r.cash.push(CashBalance {
        name: String::from("a1"),
        cash: 5_000,
    });
    r.transact("a2", "A", 3);
    r.transact("a1", "B", 10);
    r.calculate_percentages(&market);

    check_allocation(&r, "A", 400_000);
    check_allocation(&r, "B", 100_000);
    check_allocation(&r, "cash", 500_000);
}
