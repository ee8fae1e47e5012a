use fasttext::number::number;

fn is_number(token: &str) -> bool {
    let chars: Vec<char> = token.chars().collect();
    number(&chars)
}

#[test]
fn number_accepts_what_the_tool_prints() {
    for token in ["0.5", "1", "-0.25", "1e-05", "0.000123", "1.00001", "-3.5e+10", "12345"] {
        assert!(is_number(token), "{}", token);
    }
}

#[test]
fn number_accepts_the_special_values() {
    for token in ["inf", "-inf", "+inf", "infinity", "-Infinity", "nan", "NaN", "NAN", "INF"] {
        assert!(is_number(token), "{}", token);
    }
}

#[test]
fn number_accepts_a_point_at_either_end() {
    for token in ["5.", ".5", "+.5e3", "-5.E-3", "0.e0"] {
        assert!(is_number(token), "{}", token);
    }
}

#[test]
fn number_rejects_what_is_none() {
    for token in [
        "", "+", "-", ".", "e", "e5", "1e", "1e+", "--1", "+-1", "1.2.3", "1e5.0", "0x10", "1_000",
        "abc", "1 ", " 1", "1,5", "in", "infinit", "nane", "1f", "١٢٣", "1e5e5", ".e5", "-.",
        "0.5\r", "inf1", "１",
    ] {
        assert!(!is_number(token), "{}", token);
    }
}

#[test]
fn number_agrees_with_the_conversion() {
    let alphabet = ['0', '7', '.', 'e', 'E', '+', '-', 'n', 'a', 'i', 'f', 'x', ' '];
    let mut tokens: Vec<String> = vec![String::new()];
    let mut from = 0;
    for _ in 0..4 {
        let to = tokens.len();
        for i in from..to {
            for c in alphabet {
                let mut next = tokens[i].clone();
                next.push(c);
                tokens.push(next);
            }
        }
        from = to;
    }
    assert_eq!(tokens.len(), 1 + 13 + 169 + 2197 + 28561);
    for token in tokens {
        assert_eq!(is_number(&token), token.parse::<f64>().is_ok(), "{:?}", token);
    }
}

#[test]
fn number_agrees_with_the_conversion_on_longer_tokens() {
    for token in [
        "infinity", "Infinity", "INFINITY", "infinitY", "infinite", "-infinity", "+infinity",
        "infinityy", "1e-324", "1e400", "123456789012345678901234567890", "0.1e-10", "1.e1",
        "1e+05", "١", "nan0", "-nan", "+NaN", "0e", "00.00", "1.5E10", "1.5e1.0",
    ] {
        assert_eq!(is_number(token), token.parse::<f64>().is_ok(), "{:?}", token);
    }
}
