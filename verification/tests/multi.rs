use etf_balancer::accounts::{Account, Investment, Portfolio, Results};
use etf_balancer::run_balancing;

fn shares_of(r: &Results, acct: &str, sym: &str) -> u64 {
    let account = r
        .positions
        .iter()
        .find(|a| a.name == acct)
        .expect("missing account");
    account
        .positions
        .iter()
        .find(|p| p.symbol == sym)
        .map(|p| p.shares)
        .unwrap_or(0)
}

fn check_shares(r: &Results, acct: &str, sym: &str, expected: u64) {
    assert_eq!(shares_of(r, acct, sym), expected);
}

fn check_allocation(r: &Results, sym: &str, expected_ppm: i64) {
    let a = r
        .allocations
        .iter()
        .find(|a| a.symbol == sym)
        .expect("missing symbol");
    assert!((a.ppm - expected_ppm).abs() <= 10_000);
}

fn build_multi_portfolio() -> Portfolio {
    let mut p = Portfolio::new();
    let mut taxed = Account::new("taxed");
    taxed.cash = 800_000; // $8,000
    p.accounts.push(taxed);
    let mut ira = Account::new("ira");
    ira.cash = 200_000; // $2,000
    ira.tax_sheltered = true;
    p.accounts.push(ira);
    p.set_target("A", 500_000);
    p.set_target("B", 500_000);
    p.market.push(Investment::new("A", 1_000));
    p.market.push(Investment::new("B", 10_000));
    p
}

#[test]
fn test_simple_multi() {
    let p = build_multi_portfolio();
    assert_eq!(p.total_value(), 1_000_000); // $10,000

    let r = run_balancing(p);

    assert_eq!(r.total_cash, 0);
    check_shares(&r, "taxed", "A", 400); // 400 x $10 = $4k, 50%
    check_shares(&r, "ira", "A", 100);

    check_shares(&r, "taxed", "B", 40); // 40 x $100 = $4k, 50%
    check_shares(&r, "ira", "B", 10);

    check_allocation(&r, "A", 500_000);
    check_allocation(&r, "B", 500_000);
    check_allocation(&r, "cash", 0);
}

#[test]
fn sell_tax_sheltered_first() {
    let mut p = build_multi_portfolio();
    p.accounts[0].cash = 0;
    p.accounts[0].set_position("A", 500);
    p.accounts[1].cash = 300_000;
    p.accounts[1].set_position("A", 200);

    let r = run_balancing(p);

    assert_eq!(r.total_cash, 0);
    // The needed half of A already sits in the taxed account; the extra
    // is sold out of the ira.
    check_shares(&r, "taxed", "A", 500);
    check_shares(&r, "ira", "A", 0);

    check_shares(&r, "taxed", "B", 0);
    check_shares(&r, "ira", "B", 50);
}

#[test]
fn high_yield_tax_sheltered() {
    let mut p = build_multi_portfolio();
    p.market[0].div_yield = Some(40_000); // A yields 4%
    p.market[1].div_yield = Some(10_000); // B yields 1%

    let r = run_balancing(p);

    assert_eq!(r.total_cash, 0);
    check_shares(&r, "taxed", "A", 300);
    check_shares(&r, "ira", "A", 200);

    check_shares(&r, "taxed", "B", 50);
    check_shares(&r, "ira", "B", 0); // the ira ends up all high-yield

    check_allocation(&r, "A", 500_000);
    check_allocation(&r, "B", 500_000);
}
