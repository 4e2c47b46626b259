use japannik::text::{chars_of, join, next_line, parse_i64, split, string_of, trim};

fn strs(v: Vec<Vec<char>>) -> Vec<String> {
    v.iter().map(|l| l.iter().collect()).collect()
}

#[test]
fn lines_like_str_lines() {
    for s in ["", "a", "a\n", "a\nb", "a\r\nb\r\n", "\n", "a\n\nb", "x\ry", "x\r", "\r\n\r\n"] {
        let expected: Vec<String> = s.lines().map(|l| l.to_string()).collect();
        let cs = chars_of(s);
        let mut got = Vec::new();
        let mut start = 0;
        while start < cs.len() {
            let (line, next) = next_line(&cs, start);
            got.push(line);
            start = next;
        }
        assert_eq!(strs(got), expected, "input {:?}", s);
    }
}

#[test]
fn split_like_str_split() {
    for s in ["", "a", "a\tb", "\t", "a\t\tb\t", "日本\t語"] {
        let expected: Vec<String> = s.split('\t').map(|l| l.to_string()).collect();
        assert_eq!(strs(split(&chars_of(s), '\t')), expected, "input {:?}", s);
    }
}

#[test]
fn trim_like_str_trim() {
    for s in ["", "   ", " a ", "\u{3000}語\u{3000}", "\t\na b\r\n", "x"] {
        let t: String = trim(&chars_of(s)).iter().collect();
        assert_eq!(t, s.trim(), "input {:?}", s);
    }
}

#[test]
fn parse_like_i64_from_str() {
    for s in [
        "0", "42", "+7", "-7", "", "-", "+", "1a", " 1", "9223372036854775807",
        "9223372036854775808", "-9223372036854775808", "-9223372036854775809", "007",
        "99999999999999999999999",
    ] {
        assert_eq!(parse_i64(&chars_of(s)), s.parse::<i64>().ok(), "input {:?}", s);
    }
}

#[test]
fn join_and_round_trip() {
    let v = vec!["n".to_string(), "adj-no".to_string(), "vs".to_string()];
    assert_eq!(join(&v, ","), "n,adj-no,vs");
    assert_eq!(join(&Vec::new(), ";"), "");
    assert_eq!(string_of(&chars_of("かな")), "かな");
}
