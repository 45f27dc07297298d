use isotopes::decay::Decay;
use isotopes::record::{read_line, split, split_words, split_entry};
use isotopes::text::{trim, keep, Keep, parse_u32, parse_digits, starts_with, same, strip_end_char};

#[test]
fn rows_read_into_their_fields() {
    let r = read_line("92,146,U,0+,99.2742,1.41E17,4.468E9 Y,A:100 SF:5.45E-5,7570.1262,47308.9,1896").unwrap();
    assert_eq!((r.z, r.n), (92, 146));
    assert_eq!(r.symbol, "U");
    assert_eq!(r.jp, "0+");
    assert_eq!(r.abundance, "99.2742");
    assert_eq!(r.half_life, "1.41E17");
    assert!(!r.stable);
    assert_eq!(r.half_life_text, "4.468E9 Y");
    assert_eq!(
        r.decays,
        vec![
            (Decay::Alpha, "A".to_string(), "100".to_string()),
            (Decay::Fission, "SF".to_string(), "5.45E-5".to_string()),
        ]
    );
    assert_eq!(r.binding, "7570.1262");
    assert_eq!(r.mass_excess, "47308.9");
    assert_eq!(r.discovery, Some(1896));
}

#[test]
fn stable_rows_and_missing_fields() {
    let r = read_line("26,30,Fe,0+,91.754,STABLE,STABLE,,8790.3557,-60607.1,").unwrap();
    assert!(r.stable);
    assert!(r.decays.is_empty());
    assert_eq!(r.discovery, None);
    let r = read_line("1,0,H,,,,,IT,,,+1920,extra").unwrap();
    assert_eq!(r.decays, vec![(Decay::Other, "IT".to_string(), String::new())]);
    assert_eq!(r.discovery, Some(1920));
}

#[test]
fn comments_and_broken_rows_are_skipped() {
    assert!(read_line("# z,n,symbol").is_none());
    assert!(read_line("#92,146,U,0+,,,,,,,").is_none());
    assert!(read_line("92,146,U,0+,,,,,,").is_none());
    assert!(read_line("x,146,U,0+,,,,,,,").is_none());
    assert!(read_line("92,-1,U,0+,,,,,,,").is_none());
    assert!(read_line("92,4294967296,U,0+,,,,,,,").is_none());
    assert!(read_line("").is_none());
}

#[test]
fn splitting_keeps_empty_pieces_but_not_empty_words() {
    assert_eq!(split("a,,b,", ','), vec!["a", "", "b", ""]);
    assert_eq!(split("", ','), vec![""]);
    assert_eq!(split_words("  B-:89.28\tEC:10.72  "), vec!["B-:89.28", "EC:10.72"]);
    assert!(split_words(" \u{3000} ").is_empty());
    assert_eq!(split_entry("B-:89.28"), ("B-".to_string(), "89.28".to_string()));
    assert_eq!(split_entry("A:1:2"), ("A".to_string(), "1:2".to_string()));
    assert_eq!(split_entry("IT"), ("IT".to_string(), String::new()));
}

#[test]
fn numbers_read_as_rust_reads_them() {
    assert_eq!(parse_u32("0"), Some(0));
    assert_eq!(parse_u32("+7"), Some(7));
    assert_eq!(parse_u32("007"), Some(7));
    assert_eq!(parse_u32("4294967295"), Some(u32::MAX));
    assert_eq!(parse_u32("4294967296"), None);
    assert_eq!(parse_u32(""), None);
    assert_eq!(parse_u32("+"), None);
    assert_eq!(parse_u32("-1"), None);
    assert_eq!(parse_u32(" 1"), None);
    assert_eq!(parse_digits("238"), Some(238));
    assert_eq!(parse_digits("99999999999"), None);
    for s in ["0", "+7", "007", "4294967295", "4294967296", "", "+", "-1", " 1", "12a"] {
        assert_eq!(parse_u32(s), s.parse::<u32>().ok(), "{s}");
    }
}

#[test]
fn text_helpers_do_what_std_does() {
    for s in ["  U 238\t", "\u{2003}x\u{3000}", "", "   ", "a b"] {
        assert_eq!(trim(s), s.trim());
    }
    assert_eq!(keep("u-2_3 8", Keep::Unseparated), "u238");
    assert_eq!(keep("u238x", Keep::Digits), "238");
    assert_eq!(keep("u238x", Keep::Letters), "ux");
    assert!(starts_with("EC+B+", "EC"));
    assert!(!starts_with("E", "EC"));
    assert!(same("SF", "SF"));
    assert!(!same("SF", "SF+"));
    assert_eq!(strip_end_char("100.0000", '0'), "100.");
    assert_eq!(strip_end_char("000", '0'), "");
}
