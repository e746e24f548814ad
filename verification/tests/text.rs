use pazifista::text::{is_float_literal, str_lt};

#[test]
fn float_literals_are_those_f64_reads() {
    for s in ["0", "-2674.33", "157114", "+.5", "5.", "1e5", "1E-5", "-inf", "Infinity", "NaN", "2.5e+10"] {
        assert!(is_float_literal(s), "{s}");
        assert!(s.parse::<f64>().is_ok(), "{s}");
    }
    for s in ["", "-", ".", "1.2.3", "e5", "1e", "1e+", " 1", "1 ", "0x10", "infin", "1_000"] {
        assert!(!is_float_literal(s), "{s}");
        assert!(s.parse::<f64>().is_err(), "{s}");
    }
}

#[test]
fn text_order_is_the_order_of_strings() {
    let words = ["", "a", "ab", "b", "kr", "k", "na", "\u{e9}", "z"];
    for a in words {
        for b in words {
            assert_eq!(str_lt(a, b), a < b, "{a} {b}");
        }
    }
}
