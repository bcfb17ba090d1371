use spotbook::book::PriceLevel;
use spotbook::codec::SCALE;
use spotbook::render::render;
use spotbook::trade::Direction;

fn lvl(price: u64, quantity: u64) -> PriceLevel {
    PriceLevel { price, quantity }
}

fn line(price: &str, qty: &str) -> String {
    format!("{:<20} {:<20}\n", price, qty)
}

#[test]
fn renders_the_full_block() {
    let asks = vec![lvl(101 * SCALE, 2 * SCALE), lvl(102 * SCALE, 3 * SCALE)];
    let bids = vec![lvl(100 * SCALE, 5 * SCALE), lvl(99 * SCALE, 1 * SCALE)];
    let out = render("BTCUSDT", &asks, &bids, Direction::Up, Some(100 * SCALE + 50_000_000));
    let mut expected = String::from("\nBTCUSDT orderbook\n\n");
    expected += &line("price", "quantity");
    // asks are shown high-to-low toward the spread
    expected += &line("102", "3");
    expected += &line("101", "2");
    expected += "\n+ 100.5\n\n";
    expected += &line("100", "5");
    expected += &line("99", "1");
    assert_eq!(out, expected);
}

#[test]
fn renders_before_any_event() {
    let out = render("X", &vec![], &vec![], Direction::Unknown, None);
    let mut expected = String::from("\nX orderbook\n\n");
    expected += &line("price", "quantity");
    expected += "\n? \n\n";
    assert_eq!(out, expected);
}

#[test]
fn renders_fixed_point_values_canonically() {
    let asks = vec![lvl(6_530_000, 1)];
    let out = render("S", &asks, &vec![], Direction::Down, Some(SCALE + 1));
    // 0.0653 with the sub-scale quantity 0.00000001; the trade line
    // shows 1.00000001 behind the down marker
    let mut expected = String::from("\nS orderbook\n\n");
    expected += &line("price", "quantity");
    expected += &line("0.0653", "0.00000001");
    expected += "\n- 1.00000001\n\n";
    assert_eq!(out, expected);
}
