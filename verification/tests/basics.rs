use existence::config::{Config, Meta, Ring};
use existence::digest::sha256_hex;
use existence::json::{json_number, json_string, write_json, Json};
use existence::number::{decimal_text, long_decimal_text, padded_text};
use existence::order::{comes_before, sort_set, sort_texts};
use existence::table::Table;
use existence::text::{
    chars_of, control_char, lines_of, split_chars, text_of, trimmed, utf8_at_least, white_space,
    words_of,
};

/// Every character there is.
fn all_chars() -> Vec<char> {
    (0..=0x10FFFFu32).filter_map(char::from_u32).collect()
}

#[test]
fn white_space_and_control_characters_are_those_of_unicode() {
    for c in all_chars() {
        assert_eq!(white_space(c), c.is_whitespace(), "{c:?}");
        assert_eq!(control_char(c), c.is_control(), "{c:?}");
    }
}

#[test]
fn texts_are_cut_as_strings_are() {
    for s in ["", "a", " a b ", "a\r\nb\n\nc", "\n", "x\r", "\u{2003}é\u{a0}", "a//b/"] {
        let cs = chars_of(s);
        assert_eq!(text_of(&cs), s);
        assert_eq!(text_of(trimmed(&cs)), s.trim());
        let ls: Vec<String> = lines_of(&cs).iter().map(|l| text_of(l)).collect();
        assert_eq!(ls, s.lines().collect::<Vec<&str>>());
        let ws: Vec<String> = words_of(&cs).iter().map(|l| text_of(l)).collect();
        assert_eq!(ws, s.split_whitespace().collect::<Vec<&str>>());
        let ps: Vec<String> = split_chars(&cs, '/').iter().map(|l| text_of(l)).collect();
        assert_eq!(ps, s.split('/').collect::<Vec<&str>>());
        for n in 0..12 {
            assert_eq!(utf8_at_least(&cs, n), s.len() >= n);
        }
    }
}

#[test]
fn numbers_are_written_in_decimal() {
    for n in [0u64, 7, 10, 99, 100, 1_234_567, u64::MAX] {
        assert_eq!(decimal_text(n), n.to_string());
        assert_eq!(long_decimal_text(n as u128), n.to_string());
    }
    assert_eq!(long_decimal_text(u128::MAX), u128::MAX.to_string());
    assert_eq!(padded_text(7, 2), "07");
    assert_eq!(padded_text(2026, 2), "2026");
    assert_eq!(padded_text(-5, 4), "-005");
}

#[test]
fn texts_are_ordered_as_strings_are() {
    let list: Vec<String> = ["b", "a", "é", "", "a-b", "a", "aa", "☃", "𝄞", "Z"]
        .iter()
        .map(|s| s.to_string())
        .collect();
    let mut expected = list.clone();
    expected.sort();
    assert_eq!(sort_texts(&list), expected);
    expected.dedup();
    assert_eq!(sort_set(&list), expected);
    for a in &list {
        for b in &list {
            assert_eq!(comes_before(a, b), a < b);
        }
    }
}

#[test]
fn tables_keep_their_keys_in_order() {
    let mut t: Table<String> = Table::new();
    for (k, v) in [("b", "1"), ("a", "2"), ("c", "3"), ("b", "4")] {
        t.insert(k.to_string(), v.to_string());
    }
    assert_eq!(t.len(), 3);
    let keys: Vec<&String> = (0..3).map(|i| t.key(i)).collect();
    assert_eq!(keys, ["a", "b", "c"]);
    assert_eq!(t.get("b").map(String::as_str), Some("4"));
    assert_eq!(t.value(2), "3");
    assert!(t.get("d").is_none() && !t.contains_key("d"));
}

#[test]
fn digests_are_those_of_sha_256() {
    assert_eq!(
        sha256_hex(""),
        "e3b0c44298fc1c149afbf4c8996fb92427ae41e4649b934ca495991b7852b855"
    );
    assert_eq!(
        sha256_hex("abc"),
        "ba7816bf8f01cfea414140de5dae2223b00361a396177a9cb410ff61f20015ad"
    );
}

#[test]
fn json_strings_read_back() {
    let mut odd: String = (0..0x80u8).map(|b| b as char).collect();
    odd.push_str("é☃𝄞\u{7f}\u{80}\u{2028}\u{FEFF}");
    let text = write_json(&json_string(&odd));
    let back: String = serde_json::from_str(&text).unwrap();
    assert_eq!(back, odd);
    assert_eq!(text, serde_json::to_string(&odd).unwrap());
    let doc = Json::Object(vec![
        ("a".to_string(), Json::List(vec![json_number(1), json_string("\"")])),
        ("b".to_string(), Json::Object(vec![])),
    ]);
    assert_eq!(write_json(&doc), r#"{"a":[1,"\""],"b":{}}"#);
}

#[test]
fn rings_stand_by_level() {
    let ring = |level: u32| Ring {
        level,
        name: format!("r{level}"),
        description: String::new(),
        terms: vec![],
    };
    let config = Config {
        meta: Meta {
            name: "n".to_string(),
            description: "d".to_string(),
            base_iri: None,
            vocab_iri: None,
        },
        rings: vec![ring(10), ring(2), ring(0)],
    };
    let levels: Vec<u32> = config.rings_sorted().iter().map(|r| r.level).collect();
    assert_eq!(levels, [0, 2, 10]);
    assert_eq!(config.get_ring(2).map(|r| r.name.as_str()), Some("r2"));
    assert!(config.get_ring(3).is_none());
}
