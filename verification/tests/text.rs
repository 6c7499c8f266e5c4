use exchange::text::{parse_u64, split_whitespace};

fn chars(s: &str) -> Vec<char> {
    s.chars().collect()
}

#[test]
fn split_whitespace_matches_std() {
    for s in ["", "  ", "bid 100 10", "  bid\t100\n10  ", "a", "a\u{3000}b\u{a0}c", "x  y"] {
        let ours: Vec<String> = split_whitespace(s).into_iter().map(|w| w.into_iter().collect()).collect();
        let theirs: Vec<String> = s.split_whitespace().map(|w| w.to_string()).collect();
        assert_eq!(ours, theirs, "on {:?}", s);
    }
}

#[test]
fn parse_u64_matches_std() {
    for s in ["0", "42", "+7", "-7", "", "+", "12a", "007", "18446744073709551615", "18446744073709551616", "99999999999999999999999"] {
        assert_eq!(parse_u64(&chars(s)), s.parse::<u64>().ok(), "on {:?}", s);
    }
}
