use piecer::tokenizer::utils::ProtoToken;
use piecer::tokenizer::{major_of, VERSION, VERSION_MAJOR};
use piecer::prepare::{classifications_hold, is_restorable};
use piecer::{Token, Tokenizer, TokenizerError};

const STRINGS: &[&str] = &[
    "кто-то где-то что-то с чем-то смешивает- смешивает да ка-а-ак смешает",
    "пробелы    пробелы[UNK]---=== (((Hello, World!))) ===---\n\
    1000000 / 1000 = 1000",
    "Кружка-термос на 0.5л (вмещает 50/64 см³, вес 516г).\
    Скорость составила 90км/ч, а длина кабеля — 15мм.",
    "В коробке 24шт. товара по цене 150руб/шт.\
    Это произошло в 90-х годах XX века. На 2-м этаже открылся новый офис.
    В 10-12 часах езды от города находится заповедник.
    Выпускники 11-го класса сдали экзамены на 95-100 баллов",
    "Модель процессора: Intel Core i7-12700K или Эльбрус-8С.",
];

#[test]
fn codepoint2token() {
    let tok: Tokenizer = Tokenizer::train(&STRINGS.concat(), &[], None).unwrap();
    for &s in STRINGS.iter() {
        let enc = tok.encode(s);
        let dec = tok.decode(&enc);
        assert_eq!(s, dec);
    }
}

#[test]
fn codepoint_bpe() {
    let tok: Tokenizer = Tokenizer::train(&STRINGS.concat(), &[], Some(512)).unwrap();
    for &s in STRINGS.iter() {
        let enc = tok.encode(s);
        let dec = tok.decode(&enc);
        assert_eq!(s, dec);
        println!(
            "input byte len: {}, encoded byte len: {}",
            s.len(),
            enc.len() * 2
        )
    }
}

#[test]
fn byte_fallback() {
    let tok: Tokenizer = Tokenizer::train(&STRINGS.concat(), &["[PAD]"], None).unwrap();
    let s = "龍";
    assert_eq!(s, tok.decode(&tok.encode(s)));
}

#[test]
fn quick_start_round_trip() {
    let tok: Tokenizer = Tokenizer::train("hello world", &["[PAD]"], Some(512)).unwrap();
    let tokens = tok.encode("hello world");
    assert_eq!("hello world", tok.decode(&tokens));
}

#[test]
fn unknown_character_falls_back_to_bytes() {
    let tok: Tokenizer = Tokenizer::train("hello", &[], Some(512)).unwrap();
    let tokens = tok.encode("龍");
    // U+9F8D is a letter, so it gets the marker; its three UTF-8 bytes
    // follow as byte tokens
    assert_eq!(tokens, vec![256, 0xe9, 0xbe, 0x8d]);
    assert_eq!("龍", tok.decode(&tokens));
}

#[test]
fn invalid_bytes_are_shown_in_hex() {
    let tok: Tokenizer = Tokenizer::train("hello", &[], None).unwrap();
    assert_eq!(tok.decode(&[0xe9, 0xbe]), "<e9><be>");
    assert_eq!(tok.decode(&[0xff, 0x41]), "<ff>A");
    assert_eq!(tok.decode(&[0x01]), "\u{1}");
}

#[test]
fn base_vocabulary_layout() {
    let tok: Tokenizer = Tokenizer::train("", &["[PAD]", "[BOS]"], None).unwrap();
    assert_eq!(tok.vocab_size(), 259);
    assert_eq!(tok.token_to_string(0x41), Some("A"));
    assert_eq!(tok.token_to_string(0x0a), Some("\n"));
    assert_eq!(tok.token_to_string(0x00), Some("<00>"));
    assert_eq!(tok.token_to_string(0xe9), Some("<e9>"));
    assert_eq!(tok.token_to_string(256), Some("▁"));
    assert_eq!(tok.token_to_string(257), Some("[PAD]"));
    assert_eq!(tok.token_to_string(258), Some("[BOS]"));
    assert_eq!(tok.token_to_string(259), None);
}

#[test]
fn codepoints_sorted_longest_first() {
    let tok: Tokenizer = Tokenizer::train("bé😀aé€", &[], None).unwrap();
    let strs: Vec<String> = tok.tokens().into_iter().skip(257).map(|(_, s)| s.to_string()).collect();
    assert_eq!(strs, vec!["😀", "€", "é"]);
}

#[test]
fn codepoints_limited_by_max_extra() {
    let tok: Tokenizer = Tokenizer::train("bé😀aé€", &[], Some(2)).unwrap();
    assert_eq!(tok.vocab_size(), 259);
    assert_eq!(tok.token_to_string(257), Some("😀"));
    assert_eq!(tok.token_to_string(258), Some("€"));
}

#[test]
fn merges_are_concatenations() {
    let tok: Tokenizer = Tokenizer::train("abab abab abab", &[], Some(3)).unwrap();
    assert_eq!(tok.vocab_size(), 260);
    let strs: Vec<String> = tok.tokens().into_iter().map(|(_, s)| s.to_string()).collect();
    for j in 257..strs.len() {
        let ok = (0..j).any(|a| (0..j).any(|b| strs[j] == format!("{}{}", strs[a], strs[b])));
        assert!(ok, "{} is not a merge", strs[j]);
    }
}

#[test]
fn most_frequent_pair_is_merged_first() {
    // "▁ab" occurs three times: the pairs (▁, a) and (a, b) both occur
    // three times; the greater pair wins the tie: (256, 97) over (97, 98)
    let tok: Tokenizer = Tokenizer::train("ab ab ab", &[], Some(1)).unwrap();
    assert_eq!(tok.vocab_size(), 258);
    assert_eq!(tok.token_to_string(257), Some("▁a"));
    assert_eq!(tok.encode("ab"), vec![257, 98]);
}

#[test]
fn str_to_token_finds_single_entries() {
    let tok: Tokenizer = Tokenizer::train("ab ab ab", &["[PAD]"], Some(2)).unwrap();
    assert_eq!(tok.str_to_token("[PAD]"), Some(257));
    assert_eq!(tok.str_to_token("a"), Some(0x61));
    assert_eq!(tok.str_to_token("▁a"), Some(258));
    assert_eq!(tok.str_to_token("ab"), None);
    assert_eq!(tok.str_to_token("abab"), None);
    assert_eq!(tok.str_to_token("<e9>"), None);
    assert_eq!(tok.str_to_token(""), None);
}

#[test]
fn vocabulary_round_trip() {
    let tok: Tokenizer = Tokenizer::train("some training text", &["[PAD]"], Some(32)).unwrap();
    let learned = tok.learned_vocabulary();
    let loaded: Tokenizer = Tokenizer::from_vocabulary(piecer::tokenizer::VERSION, learned).unwrap();
    assert_eq!(tok.vocab_size(), loaded.vocab_size());
    let text = "some text";
    assert_eq!(tok.encode(text), loaded.encode(text));
}

#[test]
fn vocabulary_of_another_major_version_is_refused() {
    let r: Result<Tokenizer, TokenizerError> = Tokenizer::from_vocabulary("1.0.0", vec![]);
    match r {
        Err(TokenizerError::Vocabulary(v)) => assert_eq!(v, "1.0.0"),
        _ => panic!("expected a version error"),
    }
}

#[test]
fn vocabulary_too_large_for_token_type() {
    let vocab: Vec<String> = (0..300).map(|i| format!("w{}", i)).collect();
    let r: Result<Tokenizer<u8>, TokenizerError> = Tokenizer::from_vocabulary("0.2", vocab);
    assert!(matches!(r, Err(TokenizerError::Vocabulary(_))));
}

#[test]
fn training_too_large_for_token_type() {
    let r: Result<Tokenizer<u8>, TokenizerError> = Tokenizer::train("abc", &[], None);
    assert!(matches!(r, Err(TokenizerError::Vocabulary(_))));
}

#[test]
fn duplicate_vocabulary_entries_are_refused() {
    let r: Result<Tokenizer, TokenizerError> =
        Tokenizer::from_vocabulary("0.1.0", vec!["xy".to_string(), "xy".to_string()]);
    assert!(matches!(r, Err(TokenizerError::Automaton(_))));
}

#[test]
fn token_size_is_type_size() {
    assert_eq!(Tokenizer::<Token>::token_size(), 2);
    assert_eq!(Tokenizer::<u32>::token_size(), 4);
}

#[test]
fn round_trip_with_letter_digits() {
    let tok: Tokenizer = Tokenizer::train("Ⅻ века, 1Ⅻ, a-Ⅻ", &[], Some(64)).unwrap();
    for s in ["Ⅻ", "1Ⅻ", "a Ⅻ", "a-Ⅻ", "XX век Ⅻ", "Ⅻ 1"] {
        assert_eq!(tok.decode(&tok.encode(s)), s);
    }
    assert_eq!(tok.decode(&tok.encode("aⅫ")), "a Ⅻ");
}

#[test]
fn round_trip_drops_a_trailing_space() {
    let tok: Tokenizer = Tokenizer::train("hello world", &[], None).unwrap();
    assert_eq!(tok.decode(&tok.encode("hello ")), "hello");
}

#[test]
fn version_major_matches_version() {
    assert_eq!(major_of(VERSION), VERSION_MAJOR);
    assert_eq!(major_of("12.3.4"), "12");
    assert_eq!(major_of("7"), "7");
}

#[test]
fn merges_fill_the_budget_past_special_tokens() {
    let tok: Tokenizer = Tokenizer::train("== == == +-+-", &["[PAD]"], Some(1)).unwrap();
    assert_eq!(tok.vocab_size(), 257 + 1 + 1);
    assert_eq!(tok.token_to_string(257), Some("[PAD]"));
    assert_eq!(tok.token_to_string(258), Some("=="));
}

#[test]
fn the_most_frequent_pair_is_merged() {
    let tok: Tokenizer = Tokenizer::train("== == == +-+-", &[], Some(1)).unwrap();
    assert_eq!(tok.vocab_size(), 258);
    assert_eq!(tok.token_to_string(257), Some("=="));
    assert_eq!(tok.str_to_token("=="), Some(257));
}

#[test]
fn encode_matches_chunk_by_chunk() {
    let tok: Tokenizer = Tokenizer::train("", &["a="], None).unwrap();
    assert_eq!(tok.token_to_string(257), Some("a="));
    assert_eq!(tok.encode("xa="), vec![256, 120, 97, 61]);
    assert_eq!(tok.decode(&tok.encode("xa=")), "xa=");
}

#[test]
fn codepoints_longest_first_then_by_codepoint() {
    let tok: Tokenizer = Tokenizer::train("é€", &[], None).unwrap();
    assert_eq!(tok.vocab_size(), 259);
    assert_eq!(tok.token_to_string(257), Some("€"));
    assert_eq!(tok.token_to_string(258), Some("é"));
    let tok: Tokenizer = Tokenizer::train("éü€", &[], Some(1)).unwrap();
    assert_eq!(tok.vocab_size(), 258);
    assert_eq!(tok.token_to_string(257), Some("€"));
    assert_eq!(tok.str_to_token("é"), None);
    assert_eq!(tok.str_to_token("ü"), None);
}

#[test]
fn byte_fallback_tokens_and_hex_display() {
    let tok: Tokenizer = Tokenizer::train("hello", &[], Some(512)).unwrap();
    assert_eq!(tok.encode("龍"), vec![256, 0xe9, 0xbe, 0x8d]);
    let tok: Tokenizer = Tokenizer::train("hello", &[], None).unwrap();
    assert_eq!(tok.decode(&[0xe9, 0xe9, 0xff]), "<e9><e9><ff>");
    assert_eq!(tok.str_to_token("hello world"), None);
    assert_eq!(tok.str_to_token("▁"), Some(256));
    assert_eq!(tok.str_to_token("h"), Some(104));
    assert_eq!(tok.str_to_token(""), None);
    assert_eq!(tok.str_to_token("<00>"), None);
}

#[test]
fn round_trip_premises_hold_on_samples() {
    assert!(classifications_hold());
    for &s in STRINGS.iter() {
        assert!(is_restorable(s));
    }
    assert!(!is_restorable("a "));
    assert!(!is_restorable("aⅫ"));
    assert!(!is_restorable("1 Ⅻ"));
    assert!(is_restorable("a Ⅻ"));
}

#[test]
fn too_large_vocabulary_message() {
    let vocab: Vec<String> = (0..300).map(|i| format!("w{}", i)).collect();
    let r: Result<Tokenizer<u8>, TokenizerError> = Tokenizer::from_vocabulary("0.2", vocab);
    match r {
        Err(TokenizerError::Vocabulary(m)) => assert_eq!(
            m,
            "vocabulary size 557 exceeds maximum for token type (max 256)"
        ),
        _ => panic!("expected a Vocabulary error"),
    }
}

#[test]
fn saved_vocabulary_loads_back() {
    let tok: Tokenizer = Tokenizer::train("some training text", &["[PAD]"], Some(64)).unwrap();
    let loaded: Tokenizer =
        Tokenizer::from_vocabulary(VERSION, tok.learned_vocabulary()).unwrap();
    assert_eq!(loaded.vocab_size(), tok.vocab_size());
    for i in 0..tok.vocab_size() {
        assert_eq!(loaded.token_to_string(i as u16), tok.token_to_string(i as u16));
    }
    assert_eq!(loaded.encode("some text"), tok.encode("some text"));
}

#[test]
fn pieces_follow_any_acyclic_stack() {
    let tokens: Vec<String> = vec!["a".to_string(), "b".to_string()];
    // entry 0 merges entries 2 and 1, which come after it
    let stack: Vec<ProtoToken<u16>> = vec![
        ProtoToken::Pair(2, 1),
        ProtoToken::Token(1),
        ProtoToken::Token(0),
    ];
    assert_eq!(stack[0].pieces(0, &tokens, &stack), "ab");
    assert_eq!(stack[1].pieces(1, &tokens, &stack), "b");
}

#[test]
fn round_trips_reports_the_guarantee() {
    let tok: Tokenizer = Tokenizer::train(&STRINGS.concat(), &[], Some(256)).unwrap();
    for &s in STRINGS.iter() {
        assert!(tok.round_trips(s));
        assert_eq!(tok.decode(&tok.encode(s)), s);
    }
    assert!(!tok.round_trips("trailing "));
    assert!(!tok.round_trips("aⅫ"));
}

#[test]
fn encode_keeps_text_the_chunk_pattern_leaves_out() {
    let tok: Tokenizer = Tokenizer::train("ls -la a -b", &[], Some(32)).unwrap();
    for s in ["a -b", "ls -la", "=\u{0301}", "a -b -c"] {
        assert!(tok.round_trips(s));
        assert_eq!(tok.decode(&tok.encode(s)), s);
    }
    assert_eq!(tok.decode(&tok.encode("a -b")), "a -b");
    assert_eq!(tok.decode(&tok.encode("ls -la")), "ls -la");
}

#[test]
fn byte_tokens_decode_to_their_text() {
    let tok: Tokenizer = Tokenizer::train("hello", &[], Some(16)).unwrap();
    for s in ["龍", "héllo", "a\u{1}b\u{7f}", "x😀y"] {
        let v: Vec<Token> = s.bytes().map(|b| b as Token).collect();
        assert_eq!(tok.decode(&v), s);
    }
}

#[test]
fn decoding_concatenated_token_lists() {
    let tok: Tokenizer = Tokenizer::train("hello world", &[], Some(16)).unwrap();
    let v1 = tok.encode("hello");
    let v2 = tok.encode("world");
    let joined: Vec<Token> = [v1.clone(), v2.clone()].concat();
    assert_eq!(tok.decode(&joined), tok.decode(&v1) + " " + &tok.decode(&v2));
    // a first list that ends inside a character is shown byte by byte,
    // and a lead byte after it starts afresh
    let cut: Vec<Token> = vec![0xe9, 0xe9, 0xbe, 0x8d];
    assert_eq!(tok.decode(&cut), "<e9>龍");
    assert_eq!(tok.decode(&cut[..1]) + &tok.decode(&cut[1..]), "<e9>龍");
}

#[test]
fn str_to_token_only_for_tokens_shown_by_their_string() {
    let tok: Tokenizer = Tokenizer::train("hello", &[], Some(16)).unwrap();
    for t in 0..tok.vocab_size() as Token {
        let s = tok.token_to_string(t).unwrap().to_string();
        let shown = t >= 256 || t == 9 || t == 10 || t == 13 || (0x20..0x7f).contains(&t);
        assert_eq!(tok.str_to_token(&s) == Some(t), shown);
    }
    assert_eq!(tok.str_to_token("<e9>"), None);
}

#[test]
fn reloaded_tokenizer_behaves_alike() {
    let tok: Tokenizer = Tokenizer::train("some training text", &[], Some(64)).unwrap();
    let loaded: Tokenizer =
        Tokenizer::from_vocabulary(VERSION, tok.learned_vocabulary()).unwrap();
    assert_eq!(loaded.vocab_size(), tok.vocab_size());
    for s in ["some text", "龍 training", "a -b"] {
        assert_eq!(loaded.encode(s), tok.encode(s));
        assert_eq!(loaded.decode(&tok.encode(s)), tok.decode(&tok.encode(s)));
    }
}
