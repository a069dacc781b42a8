use kucoin_arbitrage::decimal::{is_wf, Dec};
use kucoin_arbitrage::text::{split_pair, str_contains, str_less};

fn dec(mantissa: i128, scale: u32) -> Dec {
    Dec { mantissa, scale }
}

#[test]
fn contains_finds_runs_of_characters() {
    assert!(str_contains("BTC-USDT", "USDT"));
    assert!(str_contains("BTC-USDT", ""));
    assert!(!str_contains("BTC-USD", "USDT"));
    assert!(!str_contains("", "A"));
    assert!(str_contains("ÄÖÜ-€", "Ü-€"));
}

#[test]
fn split_pair_needs_exactly_one_dash() {
    assert_eq!(split_pair("BTC-USDT"), Some(("BTC".to_string(), "USDT".to_string())));
    assert_eq!(split_pair("-USDT"), Some(("".to_string(), "USDT".to_string())));
    assert_eq!(split_pair("BTCUSDT"), None);
    assert_eq!(split_pair("A-B-C"), None);
}

#[test]
fn string_order_is_by_code_point() {
    assert!(str_less("BTC", "ETH"));
    assert!(!str_less("ETH", "BTC"));
    assert!(str_less("USD", "USDT"));
    assert!(!str_less("USDT", "USD"));
    assert!(!str_less("USD", "USD"));
    assert!(str_less("", "A"));
    assert!(str_less("Z", "a"));
    assert!(str_less("z", "é"));
    for (a, b) in [("A", "B"), ("AB", "A"), ("é", "e"), ("", "")] {
        assert_eq!(str_less(a, b), a < b);
    }
}

#[test]
fn decimal_bounds() {
    assert!(is_wf(dec(79228162514264337593543950335, 28)));
    assert!(is_wf(dec(-79228162514264337593543950335, 0)));
    assert!(!is_wf(dec(79228162514264337593543950336, 0)));
    assert!(!is_wf(dec(1, 29)));
}
