use signal_bot::text::{
    chars_of, decimal_exec, is_whitespace, join_exec, parse_u64_exec, replace_all_exec,
    seq_lt_exec, split_file_name_exec, split_ws_exec, strip_suffix_all_exec,
    trim_exec,
};

fn v(s: &str) -> Vec<char> {
    s.chars().collect()
}

fn st(c: &Vec<char>) -> String {
    c.iter().collect()
}

#[test]
fn chars_and_string_round_trip() {
    let c = chars_of("héllo");
    assert_eq!(c, vec!['h', 'é', 'l', 'l', 'o']);
    assert_eq!(st(&c), "héllo");
    assert_eq!(signal_bot::lua_api::with_prefix("h{::prefix}éllo", "»"), "h»éllo");
}

#[test]
fn replace_is_leftmost_and_non_overlapping() {
    assert_eq!(st(&replace_all_exec(&v("aaa"), &v("aa"), &v("b"))), "ba");
    assert_eq!(st(&replace_all_exec(&v("x{::prefix}y{::prefix}"), &v("{::prefix}"), &v("!"))), "x!y!");
    assert_eq!(st(&replace_all_exec(&v("none here"), &v("{1}"), &v("z"))), "none here");
}

#[test]
fn split_whitespace_matches_std() {
    for s in ["", "   ", "a", "  ping   one\ttwo\n", "x\u{3000}y\u{a0}z", "a b  c "] {
        let got: Vec<String> = split_ws_exec(&v(s));
        let want: Vec<String> = s.split_whitespace().map(|w| w.to_string()).collect();
        assert_eq!(got, want, "input {:?}", s);
    }
}

#[test]
fn trim_matches_std() {
    for s in ["", "  a  ", "\n\tx y\n", "\u{2003}z\u{2029}", "abc"] {
        assert_eq!(st(&trim_exec(&v(s))), s.trim(), "input {:?}", s);
    }
}

#[test]
fn whitespace_matches_std() {
    for c in ['\u{0}', ' ', '\t', '\n', '\u{b}', '\u{85}', '\u{a0}', '\u{1680}', '\u{2000}', '\u{200a}', '\u{200b}', '\u{2028}', '\u{202f}', '\u{205f}', '\u{3000}', 'a', 'é'] {
        assert_eq!(is_whitespace(c), c.is_whitespace(), "char {:?}", c);
    }
}

#[test]
fn join_with_separator() {
    let ws = vec!["a".to_string(), "bc".to_string(), "d".to_string()];
    assert_eq!(st(&join_exec(&ws, &v(" "))), "a bc d");
    assert_eq!(st(&join_exec(&Vec::new(), &v(" "))), "");
}

#[test]
fn decimal_digits() {
    assert_eq!(st(&decimal_exec(0)), "0");
    assert_eq!(st(&decimal_exec(7)), "7");
    assert_eq!(st(&decimal_exec(1234567890)), "1234567890");
    assert_eq!(st(&decimal_exec(u64::MAX)), u64::MAX.to_string());
}

#[test]
fn parse_u64_matches_std() {
    for s in ["", "+", "0", "+12", "-1", "12a", "18446744073709551615", "18446744073709551616", "007"] {
        assert_eq!(parse_u64_exec(&v(s)), s.parse::<u64>().ok(), "input {:?}", s);
    }
}

#[test]
fn lexicographic_order_matches_string_order() {
    let words = ["", "a", "ab", "b", "Z", "é", "help", "hel"];
    for a in words {
        for b in words {
            assert_eq!(seq_lt_exec(&v(a), &v(b)), a < b, "{:?} < {:?}", a, b);
        }
    }
}

#[test]
fn strip_repeated_suffix() {
    assert_eq!(st(&strip_suffix_all_exec(&v("5.json.json"), &v(".json"))), "5");
    assert_eq!(st(&strip_suffix_all_exec(&v("https://x//"), &v("/"))), "https://x");
    assert_eq!(st(&strip_suffix_all_exec(&v("abc"), &v(".json"))), "abc");
}

#[test]
fn file_name_split_matches_path() {
    for name in ["dice.lua", "a.b.lua", ".lua", "noext", "trail.", "x.json"] {
        let (stem, ext) = split_file_name_exec(&v(name));
        let p = std::path::Path::new(name);
        assert_eq!(st(&stem), p.file_stem().unwrap().to_str().unwrap(), "stem of {:?}", name);
        assert_eq!(ext.map(|e| st(&e)), p.extension().map(|e| e.to_str().unwrap().to_string()), "ext of {:?}", name);
    }
}
