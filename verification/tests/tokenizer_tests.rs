use niho::tokenizer::{Token, Tokenizer};

fn collect_tokens(input: &str) -> Vec<Token> {
    let mut tokenizer = Tokenizer::new(input);
    let mut tokens = Vec::new();
    while let Some(t) = tokenizer.next() {
        tokens.push(t);
    }
    tokens
}

fn text(token: &Token) -> &str {
    match token {
        Token::Sonomama { text }
        | Token::Hiragana { text }
        | Token::Katakana { text }
        | Token::Kanji { text, .. }
        | Token::Henkan { text } => text.as_str(),
    }
}

#[test]
fn whitespace_handling() {
    let tokens = collect_tokens("  foo bar  baz\n");
    let texts: Vec<&str> = tokens.iter().map(text).collect();
    assert_eq!(texts, ["  ", "foo", "bar", " ", "baz", "\n"]);
}

#[test]
fn classification_by_first_letter() {
    assert_eq!(
        collect_tokens("neko"),
        vec![Token::Hiragana {
            text: "neko".to_string()
        }]
    );
    assert_eq!(
        collect_tokens("Neko"),
        vec![Token::Katakana {
            text: "Neko".to_string()
        }]
    );
    // Leading non-alphabetic characters are skipped for classification.
    assert_eq!(
        collect_tokens("9Abc"),
        vec![Token::Katakana {
            text: "9Abc".to_string()
        }]
    );
    // No alphabetic character at all falls through to hiragana.
    assert_eq!(
        collect_tokens("123"),
        vec![Token::Hiragana {
            text: "123".to_string()
        }]
    );
}

#[test]
fn kanji_span_with_count() {
    assert_eq!(
        collect_tokens("word__2"),
        vec![Token::Kanji {
            text: "word".to_string(),
            index: 1,
            count: Some(2),
        }]
    );
    assert_eq!(
        collect_tokens("word_ x"),
        vec![
            Token::Kanji {
                text: "word".to_string(),
                index: 0,
                count: None,
            },
            Token::Hiragana {
                text: "x".to_string()
            },
        ]
    );
    assert_eq!(
        collect_tokens("w__-3"),
        vec![Token::Kanji {
            text: "w".to_string(),
            index: 1,
            count: Some(-3),
        }]
    );
}

#[test]
fn kanji_count_run_that_does_not_parse_is_left_in_place() {
    // "5-5" is a digit-and-hyphen run but not an integer, so no characters
    // are consumed for a count and the run is tokenized on its own.
    assert_eq!(
        collect_tokens("w__5-5"),
        vec![
            Token::Kanji {
                text: "w".to_string(),
                index: 1,
                count: None,
            },
            Token::Hiragana {
                text: "5-5".to_string()
            },
        ]
    );
}

#[test]
fn backtick_spans_keep_their_delimiters() {
    assert_eq!(
        collect_tokens("`code` next"),
        vec![
            Token::Sonomama {
                text: "`code`".to_string()
            },
            Token::Hiragana {
                text: "next".to_string()
            },
        ]
    );
    assert_eq!(
        collect_tokens("```a b``` x"),
        vec![
            Token::Sonomama {
                text: "```a b```".to_string()
            },
            Token::Hiragana {
                text: "x".to_string()
            },
        ]
    );
    // An unclosed quote runs to the end of the input.
    assert_eq!(
        collect_tokens("`abc"),
        vec![Token::Sonomama {
            text: "`abc".to_string()
        }]
    );
}

#[test]
fn underscore_spans_drop_their_delimiters() {
    assert_eq!(
        collect_tokens("___lit___ x"),
        vec![
            Token::Sonomama {
                text: "lit".to_string()
            },
            Token::Hiragana {
                text: "x".to_string()
            },
        ]
    );
    assert_eq!(
        collect_tokens("_raw rest"),
        vec![
            Token::Sonomama {
                text: "raw".to_string()
            },
            Token::Hiragana {
                text: "rest".to_string()
            },
        ]
    );
}

#[test]
fn colon_opens_a_henkan_span() {
    assert_eq!(
        collect_tokens(":cat x"),
        vec![
            Token::Henkan {
                text: "cat".to_string()
            },
            Token::Hiragana {
                text: "x".to_string()
            },
        ]
    );
    // A colon followed by whitespace is ordinary text.
    assert_eq!(
        collect_tokens(": x"),
        vec![
            Token::Hiragana {
                text: ":".to_string()
            },
            Token::Hiragana {
                text: "x".to_string()
            },
        ]
    );
}

#[test]
fn tokenizing_twice_yields_identical_sequences() {
    let input = "_raw text_ neko ___literal___ :cat word__2 `q` A1";
    assert_eq!(collect_tokens(input), collect_tokens(input));
}

#[test]
fn span_count_is_bounded_by_input_length() {
    let input = "a b c__1 :k `x`";
    let tokens = collect_tokens(input);
    assert!(tokens.len() <= input.chars().count());
}

#[test]
fn empty_input_yields_no_spans() {
    assert_eq!(collect_tokens(""), Vec::<Token>::new());
}

#[test]
fn count_at_the_integer_limits() {
    assert_eq!(
        collect_tokens("w__-9223372036854775808"),
        vec![Token::Kanji {
            text: "w".to_string(),
            index: 1,
            count: Some(i64::MIN),
        }]
    );
    // A run too large for the count type does not parse, so it is not
    // consumed and tokenizes on its own.
    assert_eq!(
        collect_tokens("w__99999999999999999999"),
        vec![
            Token::Kanji {
                text: "w".to_string(),
                index: 1,
                count: None,
            },
            Token::Hiragana {
                text: "99999999999999999999".to_string()
            },
        ]
    );
}

#[test]
fn four_underscores_fall_back_to_the_single_underscore_rule() {
    // Only a run of exactly three underscores opens the delimited literal
    // form; here one underscore is stripped and the span runs to whitespace.
    assert_eq!(
        collect_tokens("____x y"),
        vec![
            Token::Sonomama {
                text: "___x".to_string()
            },
            Token::Hiragana {
                text: "y".to_string()
            },
        ]
    );
}

#[test]
fn two_backticks_form_an_empty_quote() {
    assert_eq!(
        collect_tokens("``"),
        vec![Token::Sonomama {
            text: "``".to_string()
        }]
    );
}

#[test]
fn only_one_trailing_space_is_consumed_after_a_quote() {
    assert_eq!(
        collect_tokens("`a`  b"),
        vec![
            Token::Sonomama {
                text: "`a`".to_string()
            },
            Token::Sonomama {
                text: " ".to_string()
            },
            Token::Hiragana {
                text: "b".to_string()
            },
        ]
    );
}

#[test]
fn henkan_at_the_end_of_input() {
    assert_eq!(
        collect_tokens(":key"),
        vec![Token::Henkan {
            text: "key".to_string()
        }]
    );
}

#[test]
fn count_is_followed_by_a_consumed_separator_space() {
    assert_eq!(
        collect_tokens("w__2 x"),
        vec![
            Token::Kanji {
                text: "w".to_string(),
                index: 1,
                count: Some(2),
            },
            Token::Hiragana {
                text: "x".to_string()
            },
        ]
    );
}
