use autochat::number::{parse_real, Real, ONE_BITS};
use autochat::order::{arrange, rank, rank_down, Counted};
use autochat::text;
use autochat::util;

fn bits_of(x: f64) -> Real {
    Real { bits: x.to_bits() }
}

fn float(x: Real) -> f64 {
    f64::from_bits(x.bits)
}

const SAMPLES: [f64; 15] = [
    0.0,
    -0.0,
    1.0,
    -1.0,
    0.5,
    -2.75,
    1e300,
    -1e300,
    9.3e18,
    -9.3e18,
    4503599627370497.5,
    1.5e-310,
    f64::INFINITY,
    f64::NEG_INFINITY,
    f64::NAN,
];

#[test]
fn white_characters_are_those_of_std() {
    for code in 0..0x110000u32 {
        if let Some(c) = char::from_u32(code) {
            assert_eq!(text::white(c), c.is_whitespace(), "{code:x}");
        }
    }
}

#[test]
fn trimming_and_splitting() {
    for s in ["", "  ", " a b ", "\u{3000}你好\n", "x", "\t x\r\n y \u{85}"] {
        assert_eq!(text::trim(s), s.trim());
        let words: Vec<&str> = s.split_whitespace().collect();
        assert_eq!(text::split_words(s), words);
        let parts: Vec<&str> = s.split(' ').collect();
        assert_eq!(text::split(s, ' '), parts);
    }
    assert_eq!(text::until_char("a:b:c", ':'), "a");
    assert_eq!(text::until_char("abc", ':'), "abc");
}

#[test]
fn searching_and_replacing() {
    assert!(text::contains("abcabd", "abd"));
    assert!(text::contains("abc", ""));
    assert!(!text::contains("ab", "abc"));
    assert_eq!(text::replace("aaaa", "aa", "b"), "aaaa".replace("aa", "b"));
    assert_eq!(text::replace("a{x}b{x}", "{x}", ""), "ab");
    assert_eq!(text::replace("abc", "z", "y"), "abc");
    let parts = vec!["a".to_string(), "".to_string(), "c".to_string()];
    assert_eq!(text::join(&parts, ", "), "a, , c");
    assert_eq!(text::concat(&parts), "ac");
    assert_eq!(text::join(&Vec::new(), ", "), "");
}

#[test]
fn decimal_numbers_read_back() {
    for n in [0i64, 1, -1, 10, -907, i64::MAX, i64::MIN] {
        assert_eq!(text::signed_text(n), n.to_string());
        assert_eq!(text::parse_int(&text::signed_text(n)), Some(n));
    }
    assert_eq!(text::unsigned_text(u64::MAX), u64::MAX.to_string());
    for s in [
        "", "+", "-", "+5", "-0", "007", " 5", "5 ", "9223372036854775808", "-9223372036854775809",
        "१२", "1_000", "0x10", "--1",
    ] {
        assert_eq!(text::parse_int(s), s.parse::<i64>().ok(), "{s}");
    }
}

#[test]
fn order_of_texts() {
    let texts = ["", "a", "ab", "b", "Z", "é", "你", "\u{10000}", "\u{ffff}"];
    for a in texts {
        for b in texts {
            assert_eq!(text::comes_before(a, b), a < b);
        }
    }
    assert_eq!(text::to_ascii_upper("aZé9"), "AZé9");
}

#[test]
fn reals_compare_as_doubles() {
    for a in SAMPLES {
        for b in SAMPLES {
            assert_eq!(bits_of(a).lt(bits_of(b)), a < b);
            assert_eq!(bits_of(a).le(bits_of(b)), a <= b);
            let least = float(bits_of(a).min(bits_of(b)));
            let most = float(bits_of(a).max(bits_of(b)));
            assert!(least == a.min(b) || (least.is_nan() && a.min(b).is_nan()));
            assert!(most == a.max(b) || (most.is_nan() && a.max(b).is_nan()));
        }
        assert_eq!(bits_of(a).trunc(), a as i64);
        assert_eq!(bits_of(a).is_nan(), a.is_nan());
        let clamped = float(bits_of(a).clamp(bits_of(0.0), bits_of(1.0)));
        let expected = a.clamp(0.0, 1.0);
        assert!(clamped == expected || (clamped.is_nan() && expected.is_nan()));
    }
    assert_eq!(float(Real { bits: ONE_BITS }), 1.0);
}

#[test]
fn reals_are_read_as_std_reads_them() {
    for s in ["1", "-2.5e3", "inf", "nan", ".5", "5.", "", "abc", " 1", "1e400"] {
        let expected = s.parse::<f64>().ok();
        let got = parse_real(s).map(float);
        match (got, expected) {
            (Some(g), Some(e)) => assert!(g == e || (g.is_nan() && e.is_nan())),
            (None, None) => {}
            _ => panic!("{s}"),
        }
    }
    assert_eq!(parse_real("0.8").unwrap().bits, autochat::voice::ALIKE_BITS);
    assert_eq!(parse_real("-1").unwrap().bits, autochat::sticker::MINUS_ONE_BITS);
    assert_eq!(parse_real("0.3").unwrap().bits, autochat::chat::THREE_TENTHS_BITS);
    assert_eq!(parse_real("0.005").unwrap().bits, autochat::chat::FIVE_THOUSANDTHS_BITS);
}

#[test]
fn ranking_is_ordered_and_stable() {
    let keys: Vec<Real> = [3.0, 1.0, 2.0, 1.0, -0.0, 0.0].iter().map(|x| bits_of(*x)).collect();
    assert_eq!(rank(&keys), vec![4, 5, 1, 3, 2, 0]);
    let pairs: Vec<(Real, Real)> = [(0.5, 0.1), (0.9, 0.0), (0.5, 0.7), (0.5, 0.1)]
        .iter()
        .map(|(a, b)| (bits_of(*a), bits_of(*b)))
        .collect();
    assert_eq!(rank_down(&pairs), vec![1, 2, 0, 3]);
    let counts = vec![
        Counted { count: 1, item: 10 },
        Counted { count: 3, item: 20 },
        Counted { count: 1, item: 30 },
        Counted { count: 3, item: 40 },
    ];
    let order: Vec<i64> = arrange(counts).iter().map(|c| c.item).collect();
    assert_eq!(order, vec![20, 40, 10, 30]);
}

#[test]
fn truncation_counts_wide_characters_twice() {
    assert_eq!(util::truncate("hello", 5), "hello");
    assert_eq!(util::truncate("hello!", 5), "hello...");
    assert_eq!(util::truncate("你好吗", 3), "你好...");
    assert_eq!(util::truncate("你好", 4), "你好");
    assert_eq!(util::truncate("abc", 0), "...");
    assert_eq!(util::truncate("abc", -7), "...");
    assert_eq!(util::truncate("", 0), "");
    assert_eq!(util::truncate("a你b", i64::MAX), "a你b");
}

#[test]
fn moments_in_words() {
    let say = |ms: i64| {
        util::get_readable_datetime("S", &chrono::Duration::milliseconds(ms), false)
    };
    assert_eq!(say(0), "0秒后");
    assert_eq!(say(-1), "0秒前");
    assert_eq!(say(59_999), "59秒后");
    assert_eq!(say(-60_000), "1分钟前");
    assert_eq!(say(-3_600_000), "1小时0分钟前");
    assert_eq!(say(3_600_000 * 5 + 61_000), "5小时1分钟后");
    assert_eq!(say(-86_400_000 * 3), "3天前");
    assert_eq!(say(i64::MAX), format!("{}天后", i64::MAX / 86_400_000));
    assert_eq!(say(-i64::MAX), format!("{}天前", i64::MAX / 86_400_000));
    let small = chrono::Duration::nanoseconds(-999_999);
    assert_eq!(util::get_readable_datetime("S", &small, false), "0秒后");
    let shown = util::get_readable_datetime("2024-01-02 03:04:05", &chrono::Duration::seconds(-5), true);
    assert_eq!(shown, "2024-01-02 03:04:05 (5秒前)");
    assert_eq!(util::readable_datetime("S", -90_000, false), "1分钟前");
}

#[test]
fn spans_in_words() {
    let say = |s: i64| util::get_readable_timedelta(&chrono::Duration::seconds(s));
    assert_eq!(say(0), "0秒");
    assert_eq!(say(-5), "0秒");
    assert_eq!(say(59), "59秒");
    assert_eq!(say(61), "1分钟");
    assert_eq!(say(3600), "1小时");
    assert_eq!(say(86400), "1天");
    assert_eq!(say(86400 * 2 + 3600 * 3 + 60 * 4 + 5), "2天3小时4分钟");
    assert_eq!(util::readable_seconds(3605), "1小时");
    let back = chrono::Duration::milliseconds(-1500);
    assert_eq!(util::get_readable_timedelta(&back), "0秒");
}

#[test]
fn the_last_items_are_kept() {
    assert_eq!(util::keep_last(vec![1, 2, 3], 2), vec![2, 3]);
    assert_eq!(util::keep_last(vec![1, 2, 3], 3), vec![1, 2, 3]);
    assert_eq!(util::keep_last(vec![1, 2, 3], 0), Vec::<i32>::new());
}

#[test]
fn vectors_read_back_from_bytes() {
    let v: Vec<u32> = [0.0f32, 1.5, -2.25, f32::MAX].iter().map(|x| x.to_bits()).collect();
    let mut expected = Vec::new();
    for x in [0.0f32, 1.5, -2.25, f32::MAX] {
        expected.extend_from_slice(&x.to_le_bytes());
    }
    let bytes = util::f32_to_le_bytes(&v);
    assert_eq!(bytes, expected);
    assert_eq!(util::f32_from_le_bytes(&bytes), v);
    let mut longer = bytes.clone();
    longer.extend_from_slice(&[1, 2, 3]);
    assert_eq!(util::f32_from_le_bytes(&longer), v);
    assert_eq!(util::f32_from_le_bytes(&vec![1, 2]), Vec::<u32>::new());
}
