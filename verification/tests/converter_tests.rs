use niho::converter::{Converter, UnproductiveRule};
use niho::dictionary::DictionaryEntry;
use niho::tokenizer::{Token, Tokenizer};

fn hira(from: &str, to: &str) -> DictionaryEntry {
    DictionaryEntry::Hiragana {
        from: from.to_string(),
        to: to.to_string(),
        consume_chars: None,
    }
}

fn kata(from: &str, to: &str) -> DictionaryEntry {
    DictionaryEntry::Katakana {
        from: from.to_string(),
        to: to.to_string(),
        consume_chars: None,
    }
}

fn kanji(from: &str, to: &[&str]) -> DictionaryEntry {
    DictionaryEntry::Kanji {
        from: from.to_string(),
        to: to.iter().map(|s| s.to_string()).collect(),
    }
}

fn henkan(from: &str, to: &str) -> DictionaryEntry {
    DictionaryEntry::Henkan {
        from: from.to_string(),
        to: to.to_string(),
    }
}

fn convert_one(entries: Vec<DictionaryEntry>, token: Token) -> String {
    let converter = Converter::new(&entries).expect("dictionary should be accepted");
    let mut out = String::new();
    converter.convert(&mut out, &token);
    out
}

#[test]
fn descending_lexicographic_prefix_tie_break() {
    // Among the matching rules the lexicographically greatest `from` wins:
    // for "shi" the rules "shi" and "s" both match as prefixes, and "shi"
    // sorts after "s", so "shi" wins. "si" sorts after "shi" but is not a
    // prefix of "shi".
    let rules = vec![hira("shi", "し"), hira("si", "し"), hira("s", "す")];
    assert_eq!(
        convert_one(rules.clone(), Token::Hiragana { text: "shi".to_string() }),
        "し"
    );
    assert_eq!(
        convert_one(rules.clone(), Token::Hiragana { text: "si".to_string() }),
        "し"
    );
    assert_eq!(
        convert_one(rules.clone(), Token::Hiragana { text: "s".to_string() }),
        "す"
    );
    // "sho": neither "si" nor "shi" is a prefix, so the shorter "s" rule
    // fires and the rest passes through unmatched.
    assert_eq!(
        convert_one(rules, Token::Hiragana { text: "sho".to_string() }),
        "すho"
    );
}

#[test]
fn kana_input_is_lowercased_before_matching() {
    let rules = vec![kata("ka", "カ")];
    assert_eq!(
        convert_one(rules, Token::Katakana { text: "KA".to_string() }),
        "カ"
    );
}

#[test]
fn kana_consume_chars_overrides_pattern_length() {
    // The rule matches two characters but consumes only one.
    let rules = vec![DictionaryEntry::Hiragana {
        from: "tt".to_string(),
        to: "っ".to_string(),
        consume_chars: Some(1),
    }];
    // "tt" matches at the start and advances one character, leaving "ta",
    // which the rule no longer matches.
    assert_eq!(
        convert_one(rules, Token::Hiragana { text: "tta".to_string() }),
        "っta"
    );
}

#[test]
fn kana_conversion_of_empty_text_is_empty() {
    let rules = vec![hira("a", "あ")];
    assert_eq!(
        convert_one(rules, Token::Hiragana { text: "".to_string() }),
        ""
    );
}

#[test]
fn unmatched_characters_pass_through() {
    assert_eq!(
        convert_one(Vec::new(), Token::Hiragana { text: "abc".to_string() }),
        "abc"
    );
}

#[test]
fn kanji_count_truncation() {
    let entries = vec![kanji("x", &["日本語"])];
    let tok = |count: Option<i64>| Token::Kanji {
        text: "x".to_string(),
        index: 0,
        count,
    };
    assert_eq!(convert_one(entries.clone(), tok(Some(2))), "日本");
    assert_eq!(convert_one(entries.clone(), tok(Some(-2))), "本語");
    assert_eq!(convert_one(entries.clone(), tok(Some(10))), "日本語");
    assert_eq!(convert_one(entries.clone(), tok(Some(-10))), "日本語");
    assert_eq!(convert_one(entries.clone(), tok(Some(0))), "");
    assert_eq!(convert_one(entries, tok(None)), "日本語");
}

#[test]
fn kanji_reading_is_normalized_through_the_hiragana_table() {
    let entries = vec![
        hira("ne", "ね"),
        hira("ko", "こ"),
        kanji("ねこ", &["猫", "根子"]),
    ];
    assert_eq!(
        convert_one(
            entries.clone(),
            Token::Kanji {
                text: "neko".to_string(),
                index: 0,
                count: None,
            }
        ),
        "猫"
    );
    assert_eq!(
        convert_one(
            entries,
            Token::Kanji {
                text: "neko".to_string(),
                index: 1,
                count: None,
            }
        ),
        "根子"
    );
}

#[test]
fn kanji_miss_falls_back_to_the_original_text_in_angle_brackets() {
    // The fallback shows the span text as written, not the normalized
    // reading.
    assert_eq!(
        convert_one(
            Vec::new(),
            Token::Kanji {
                text: "Qz".to_string(),
                index: 0,
                count: None,
            }
        ),
        "<Qz>"
    );
}

#[test]
fn kanji_index_out_of_range_falls_back() {
    let entries = vec![kanji("x", &["一"])];
    assert_eq!(
        convert_one(
            entries,
            Token::Kanji {
                text: "x".to_string(),
                index: 1,
                count: None,
            }
        ),
        "<x>"
    );
}

#[test]
fn henkan_lookup_miss_fallback() {
    assert_eq!(
        convert_one(Vec::new(), Token::Henkan { text: "unknown".to_string() }),
        "<unknown>"
    );
}

#[test]
fn henkan_lookup_is_verbatim_and_last_wins() {
    let entries = vec![henkan("cat", "ねこ"), henkan("cat", "🐱")];
    assert_eq!(
        convert_one(entries.clone(), Token::Henkan { text: "cat".to_string() }),
        "🐱"
    );
    // Keys are looked up verbatim: case matters.
    assert_eq!(
        convert_one(entries, Token::Henkan { text: "Cat".to_string() }),
        "<Cat>"
    );
}

#[test]
fn kanji_last_record_for_a_reading_wins() {
    let entries = vec![kanji("x", &["一"]), kanji("x", &["二"])];
    assert_eq!(
        convert_one(
            entries,
            Token::Kanji {
                text: "x".to_string(),
                index: 0,
                count: None,
            }
        ),
        "二"
    );
}

#[test]
fn sonomama_is_the_identity() {
    assert_eq!(
        convert_one(Vec::new(), Token::Sonomama { text: "a _b_ `c` :d\n".to_string() }),
        "a _b_ `c` :d\n"
    );
}

#[test]
fn unproductive_kana_rule_is_rejected_at_construction() {
    // A rule with an empty pattern and no consume override would make the
    // conversion loop forever; construction reports its position.
    let entries = vec![hira("a", "あ"), hira("", "x"), hira("b", "ぶ")];
    assert_eq!(
        Converter::new(&entries).unwrap_err(),
        UnproductiveRule { index: 1 }
    );
    let entries = vec![DictionaryEntry::Katakana {
        from: "ka".to_string(),
        to: "カ".to_string(),
        consume_chars: Some(0),
    }];
    assert_eq!(
        Converter::new(&entries).unwrap_err(),
        UnproductiveRule { index: 0 }
    );
    // An empty pattern with a positive consume override is accepted.
    let entries = vec![DictionaryEntry::Hiragana {
        from: "".to_string(),
        to: "x".to_string(),
        consume_chars: Some(1),
    }];
    assert!(Converter::new(&entries).is_ok());
}

#[test]
fn end_to_end_scenario() {
    let entries = vec![
        hira("neko", "ねこ"),
        kanji("word", &["一言", "言葉"]),
        henkan("cat", "🐱"),
    ];
    let converter = Converter::new(&entries).unwrap();
    let mut tokenizer = Tokenizer::new("_raw text_ neko ___literal___ :cat word__2");
    let mut tokens = Vec::new();
    while let Some(t) = tokenizer.next() {
        tokens.push(t);
    }
    assert_eq!(
        tokens,
        vec![
            Token::Sonomama { text: "raw".to_string() },
            Token::Kanji { text: "text".to_string(), index: 0, count: None },
            Token::Hiragana { text: "neko".to_string() },
            Token::Sonomama { text: "literal".to_string() },
            Token::Henkan { text: "cat".to_string() },
            Token::Kanji { text: "word".to_string(), index: 1, count: Some(2) },
        ]
    );
    let mut out = String::new();
    for token in &tokens {
        converter.convert(&mut out, token);
    }
    // "text" has no dictionary reading, so it degrades to the marker; the
    // second candidate for "word" is two characters, which its count keeps
    // whole.
    assert_eq!(out, "raw<text>ねこliteral🐱言葉");
}
