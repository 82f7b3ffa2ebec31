use piecer::prepare::{chunks, denormalize, normalize, segments};

const NORM_STRINGS: &[(&str, &str)] = &[
    ("ABC\nabc", "▁ABC\n▁abc"),
    ("ABC\n abc", "▁ABC\n ▁abc"),
    ("def ghi", "▁def▁ghi"),
    ("def  ghi", "▁def ▁ghi"),
    ("123 456", "▁123▁456"),
    ("123  456", "▁123 ▁456"),
    ("a-b", "▁a-b"),
    ("12bc", "▁12▁bc"),
    ("ABC\n123", "▁ABC\n▁123"),
    ("ABC\n 321", "▁ABC\n ▁321"),
    ("123 ghi", "▁123 ▁ghi"),
    ("def  123", "▁def  ▁123"),
    (" abcdef", " ▁abcdef"),
    (" 123", " ▁123"),
    ("===", "==="),
    ("a\nв парке", "▁a\n▁в▁парке"),
    ("a\nb cdef", "▁a\n▁b▁cdef"),
    ("2-nd", "▁2-▁nd"),
];

#[test]
fn norm() {
    for (source, target) in NORM_STRINGS {
        assert_eq!(normalize(source), *target)
    }
}

#[test]
fn twice_norm() {
    for (source, target) in [
        ("▁a", "▁a"),
        ("▁1", "▁1"),
        ("▁def  ▁123", "▁def  ▁123"),
        ("▁a\n▁b", "▁a\n▁b"),
        ("▁a\n ▁b", "▁a\n ▁b"),
        ("▁a\n▁в▁парке", "▁a\n▁в▁парке"),
    ] {
        assert_eq!(normalize(source), *target)
    }
}

#[test]
fn denorm() {
    for (target, source) in NORM_STRINGS {
        assert_eq!(denormalize(source), *target)
    }
}

#[test]
fn twice_denorm() {
    for (source, target) in [("a a", "a a"), ("a  a", "a  a"), ("def  123", "def  123")] {
        assert_eq!(denormalize(source), *target)
    }
}

#[test]
fn normalize_drops_trailing_space_and_marker() {
    assert_eq!(normalize("a "), "▁a");
    assert_eq!(normalize("a▁"), "▁a");
    assert_eq!(normalize(""), "");
}

#[test]
fn normalize_is_idempotent_on_samples() {
    for (source, _) in NORM_STRINGS {
        let once = normalize(source);
        assert_eq!(normalize(&once), once);
    }
}

#[test]
fn denormalize_without_markers_is_identity() {
    for s in ["plain text", "a  b\tc\n", "x-y 12 34", ""] {
        assert_eq!(denormalize(s), s);
    }
}

#[test]
fn denormalize_marker_run_between_words() {
    assert_eq!(denormalize("▁a▁▁b"), "a b");
    assert_eq!(denormalize("▁1▁2"), "1 2");
    assert_eq!(denormalize("▁a▁1"), "a1");
}

#[test]
fn chunks_split_whitespace_and_words() {
    let n = normalize("hello  world, it's 12345");
    let c = chunks(&n);
    assert_eq!(
        c,
        vec!["▁hello", " ", "▁world", ",", " ", "▁it", "'", "▁s", " ", "▁123", "45"]
    );
}

#[test]
fn chunks_of_empty_text() {
    assert!(chunks("").is_empty());
}

#[test]
fn normalize_twice_drops_a_trailing_space_once_more() {
    let once = normalize("a  ");
    assert_eq!(once, "▁a ");
    assert_eq!(normalize(&once), "▁a");
    let once = normalize("a▁ ");
    assert_eq!(once, "▁a▁");
    assert_eq!(normalize(&once), "▁a");
}

#[test]
fn normalize_is_idempotent_with_letter_digits() {
    for s in ["Ⅻ", "aⅫ", "a-Ⅻ", "a-Ⅻ-b", "ⅫⅫ", "1 Ⅻ", "x-Ⅻ Ⅻ 3"] {
        let once = normalize(s);
        assert_eq!(normalize(&once), once, "{s}");
    }
}

#[test]
fn denormalize_undoes_normalize() {
    for (source, _) in NORM_STRINGS {
        assert_eq!(denormalize(&normalize(source)), *source);
    }
    for s in ["Ⅻ", "1Ⅻ", "a Ⅻ", "a-Ⅻ", "Ⅻa", "Ⅻ 1", "= Ⅻ", "a -b", "a- b"] {
        assert_eq!(denormalize(&normalize(s)), s);
    }
}

#[test]
fn denormalize_does_not_undo_normalize_outside_restorable_text() {
    assert_eq!(normalize("aⅫ"), "▁a▁Ⅻ");
    assert_eq!(denormalize("▁a▁Ⅻ"), "a Ⅻ");
    assert_eq!(denormalize(&normalize("1 Ⅻ")), "1Ⅻ");
    assert_eq!(denormalize(&normalize("a ")), "a");
    assert_eq!(denormalize(&normalize("▁a")), "a");
}

const STRINGS: &[&str] = &[
    "кто-то где-то что-то с чем-то смешивает- смешивает да ка-а-ак смешает",
    "пробелы    пробелы[UNK]---=== (((Hello, World!))) ===---\n\
    1000000 / 1000 = 1000",
    "Кружка-термос на 0.5л (вмещает 50/64 см³, вес 516г).\
    Скорость составила 90км/ч, а длина кабеля — 15мм.",
    "В коробке 24шт. товара по цене 150руб/шт.\
    Это произошло в 90-х годах XX века. На 2-м этаже открылся новый офис.
    В 10-12 часах езды от города находится заповедник.
    Выпускники 11-го класса сдали экзамены на 95-100 баллов",
    "Модель процессора: Intel Core i7-12700K или Эльбрус-8С.",
];

#[test]
fn chunking_agrees_with_one_pattern_over_the_whole_text() {
    let pattern =
        r"'s|'t|'re|'ve|'m|'ll|'d|▁?\p{L}+(?:-\p{L}+)*|▁?\p{N}{1,3}|[^\p{L}\p{N}▁\s]+|\s+";
    let re = regex::Regex::new(pattern).unwrap();
    for &s in STRINGS.iter() {
        let ns = normalize(s);
        let got = chunks(&ns);
        let expected: Vec<String> = re.find_iter(&ns).map(|m| m.as_str().to_string()).collect();
        assert_eq!(got, expected);
    }
}

#[test]
fn chunks_never_mix_whitespace_with_other_characters() {
    for &s in STRINGS.iter() {
        let ns = normalize(s);
        let got = chunks(&ns);
        assert!(got.len() > 1);
        assert_eq!(got.concat(), ns);
        for c in got {
            let ws = c.chars().filter(|ch| ch.is_whitespace()).count();
            assert!(ws == 0 || ws == c.chars().count(), "{c:?}");
        }
    }
}

#[test]
fn segments_cover_the_text() {
    use_segments_cover("▁a -b");
    use_segments_cover("▁ls -la");
    for &s in STRINGS.iter() {
        use_segments_cover(&normalize(s));
    }
    assert_eq!(segments("▁a -b"), vec!["▁a", " ", "-", "b"]);
}

fn use_segments_cover(s: &str) {
    assert_eq!(segments(s).concat(), s);
}
