use cloudyy_system_monitor::number;
use cloudyy_system_monitor::text;

fn chars(s: &str) -> Vec<char> {
    s.chars().collect()
}

fn strings(v: Vec<&[char]>) -> Vec<String> {
    v.into_iter().map(|t| t.iter().collect()).collect()
}

const SAMPLES: [&str; 16] = [
    "",
    " ",
    "a",
    " a b\tc ",
    "one\ntwo\r\nthree",
    "trailing\n",
    "\n\n",
    "bare\r",
    "bare\r\nlast\r",
    "a\r\r\n",
    "\u{a0}x\u{2003}y\u{3000}",
    "no\u{200b}space",
    "k: v: w",
    "50%%",
    "a,b,,c,",
    "h\u{e9}llo w\u{f6}rld",
];

#[test]
fn whitespace_is_that_of_char() {
    for n in 0..=0x10ffffu32 {
        if let Some(c) = char::from_u32(n) {
            assert_eq!(text::is_space(c), c.is_whitespace());
        }
    }
}

#[test]
fn words_are_those_of_split_whitespace() {
    for s in SAMPLES {
        let want: Vec<String> = s.split_whitespace().map(String::from).collect();
        assert_eq!(strings(text::split_words(&chars(s))), want);
    }
}

#[test]
fn lines_are_those_of_str() {
    for s in SAMPLES {
        let want: Vec<String> = s.lines().map(String::from).collect();
        assert_eq!(strings(text::split_lines(&chars(s))), want);
    }
}

#[test]
fn pieces_are_those_of_split() {
    for s in SAMPLES {
        let want: Vec<String> = s.split(',').map(String::from).collect();
        assert_eq!(strings(text::split_at_each(&chars(s), ',')), want);
    }
}

#[test]
fn trimming_is_that_of_str() {
    for s in SAMPLES {
        assert_eq!(text::trim(&chars(s)).iter().collect::<String>(), s.trim());
        assert_eq!(
            text::trim_trailing(&chars(s), '%').iter().collect::<String>(),
            s.trim_end_matches('%')
        );
    }
}

#[test]
fn splitting_once_is_that_of_str() {
    for s in SAMPLES {
        let cs = chars(s);
        let got = text::split_first(&cs, ':')
            .map(|(a, b)| (a.iter().collect::<String>(), b.iter().collect::<String>()));
        let want = s.split_once(':').map(|(a, b)| (a.to_string(), b.to_string()));
        assert_eq!(got, want);
        assert_eq!(
            text::take_before(&cs, ':').iter().collect::<String>(),
            s.split(':').next().unwrap()
        );
        assert_eq!(text::holds(&cs, 'o'), s.contains('o'));
        assert_eq!(text::find(&cs, 'o'), cs.iter().position(|c| *c == 'o').unwrap_or(cs.len()));
    }
}

#[test]
fn prefixes_and_suffixes() {
    let cs = chars("temp1_input");
    assert!(text::has_prefix(&cs, "temp"));
    assert!(text::has_prefix(&cs, ""));
    assert!(!text::has_prefix(&cs, "fan"));
    assert!(!text::has_prefix(&cs, "temp1_input_"));
    assert!(text::has_suffix(&cs, "_input"));
    assert!(text::has_suffix(&cs, ""));
    assert!(!text::has_suffix(&cs, "_label"));
    assert!(!text::has_suffix(&cs, "xtemp1_input"));
    assert!(text::same_text(&cs, "temp1_input"));
    assert!(!text::same_text(&cs, "temp1_inpux"));
    assert!(!text::same_text(&cs, "temp1"));
    assert_eq!(
        text::strip(&cs, "temp1").map(|t| t.iter().collect::<String>()),
        Some("_input".to_string())
    );
    assert!(text::strip(&cs, "fan").is_none());
}

#[test]
fn text_is_made_of_its_characters() {
    for s in SAMPLES {
        assert_eq!(text::text_of(&text::chars_of(s)), s);
    }
    let cs = chars("a b");
    let words = text::split_words(&cs);
    assert_eq!(text::column(&words, 1).iter().collect::<String>(), "b");
    assert!(text::column(&words, 2).is_empty());
}

#[test]
fn numbers_are_those_of_parse() {
    let cases = [
        "",
        "+",
        "-",
        "0",
        "-0",
        "+7",
        "++7",
        "-7",
        "007",
        "12a",
        " 1",
        "1 ",
        "1_000",
        "255",
        "256",
        "4294967295",
        "4294967296",
        "9223372036854775807",
        "9223372036854775808",
        "-9223372036854775808",
        "-9223372036854775809",
        "18446744073709551615",
        "18446744073709551616",
        "99999999999999999999999",
        "000000000000000000000000000000042",
        "\u{663}",
    ];
    for s in cases {
        let cs = chars(s);
        assert_eq!(number::parse_u8(&cs), s.parse::<u8>().ok());
        assert_eq!(number::parse_u32(&cs), s.parse::<u32>().ok());
        assert_eq!(number::parse_u64(&cs), s.parse::<u64>().ok());
        assert_eq!(number::parse_i64(&cs), s.parse::<i64>().ok());
    }
}

#[test]
fn decimals_are_written_and_read_back() {
    for n in [0u64, 7, 10, 99, 100, 12345, u64::MAX - 1, u64::MAX] {
        let s = number::decimal_of(n);
        assert_eq!(s, n.to_string());
        assert_eq!(number::parse_u64(&chars(&s)), Some(n));
    }
}
