use autonomo_arabic_reshaper::tokens::{classify_run, tokenize_chars, TokenKind};
use autonomo_arabic_reshaper::{
    apply_arabic_shaping, contains_arabic_letters, get_arabic_form, is_arabic_char,
    is_arabic_numeral, is_bidi_mark, is_diacritic, manual_rtl_for_unity,
    normalize_visual_rtl_output, reshape_arabic, try_manual_rtl_for_unity, try_reshape_arabic,
};

fn codepoints(s: &str) -> Vec<u32> {
    s.chars().map(|c| c as u32).collect()
}

// ── Shaping ──────────────────────────────────────────────────────────────

#[test]
fn test_lam_alef_final_after_joining_letter() {
    // ب joins the Lam → initial ب, final Lam-Alef.
    assert_eq!(codepoints(&apply_arabic_shaping("بلا")), vec![0xFE91, 0xFEFC]);
}

#[test]
fn test_lam_alef_isolated_after_non_joining_letter() {
    // ا does not join to the left, so the ligature that follows it is isolated.
    assert_eq!(codepoints(&apply_arabic_shaping("الآ")), vec![0xFE8D, 0xFEF5]);
}

#[test]
fn test_lam_alef_skips_diacritics_behind() {
    // Diacritics between the joining letter and the Lam are skipped.
    assert_eq!(codepoints(&apply_arabic_shaping("بَلإ")), vec![0xFE91, 0x064E, 0xFEFA]);
}

#[test]
fn test_shaping_keeps_text_without_letters() {
    let s = "Hello, world! 123 ؟ ٣ {tag}";
    assert_eq!(apply_arabic_shaping(s), s);
}

#[test]
fn test_shaping_in_place_with_diacritics() {
    // Diacritics pass through and the letters join across them.
    assert_eq!(
        codepoints(&apply_arabic_shaping("كَتَب")),
        vec![0xFEDB, 0x064E, 0xFE98, 0x064E, 0xFE90]
    );
    assert_eq!(codepoints(&apply_arabic_shaping("تَب")), vec![0xFE97, 0x064E, 0xFE90]);
}

#[test]
fn test_shaping_medial_form() {
    // ب ي ت: initial, medial, final.
    assert_eq!(codepoints(&apply_arabic_shaping("بيت")), vec![0xFE91, 0xFEF4, 0xFE96]);
}

#[test]
fn test_shaping_never_longer() {
    for s in ["لا", "سلام", "ابجد", "a لأ b", ""] {
        assert!(apply_arabic_shaping(s).chars().count() <= s.chars().count());
    }
    assert_eq!(apply_arabic_shaping("سلام").chars().count(), 3);
}

#[test]
fn test_forms_are_presentation_forms() {
    for c in "ءآأؤإئابةتثجحخدذرزسشصضطظعغفقكلمنهوىي".chars() {
        let (iso, fin, ini, med, _) = get_arabic_form(c).expect("letter has forms");
        for f in [iso, fin, ini, med] {
            assert!((0xFE70..=0xFEFF).contains(&(f as u32)));
            assert!(is_arabic_char(f));
        }
    }
    assert!(get_arabic_form('a').is_none());
    assert!(get_arabic_form('پ').is_none());
    assert_eq!(get_arabic_form('ي'), Some(('\u{FEF1}', '\u{FEF2}', '\u{FEF3}', '\u{FEF4}', true)));
}

// ── Detection ────────────────────────────────────────────────────────────

#[test]
fn test_detection_predicates() {
    assert!(!is_arabic_char('٣'));
    assert!(is_arabic_numeral('٣'));
    assert!(is_arabic_numeral('۵'));
    assert!(!is_arabic_numeral('5'));
    assert!(is_arabic_char('\u{FEFB}'));
    assert!(is_arabic_char('\u{0750}'));
    assert!(!is_arabic_char('\u{0780}'));
    assert!(is_bidi_mark('\u{200F}'));
    assert!(is_bidi_mark('\u{202C}'));
    assert!(is_bidi_mark('\u{2068}'));
    assert!(!is_bidi_mark('\u{2010}'));
    assert!(is_diacritic('\u{064E}'));
    assert!(is_diacritic('\u{0670}'));
    assert!(!is_diacritic('ا'));
    assert!(!contains_arabic_letters("٣٤٥"));
    assert!(contains_arabic_letters("x ﻻ"));
}

// ── Visual order ─────────────────────────────────────────────────────────

#[test]
fn test_arabic_text_reversed() {
    assert_eq!(manual_rtl_for_unity("ابج"), "جبا");
}

#[test]
fn test_space_between_arabic_and_latin() {
    assert_eq!(manual_rtl_for_unity("مرحباRimWorld"), "RimWorld ابحرم");
}

#[test]
fn test_tag_kept_whole() {
    assert_eq!(manual_rtl_for_unity("مرحبا {a b}"), "{a b} ابحرم");
}

#[test]
fn test_entity_between_arabic_runs() {
    assert_eq!(manual_rtl_for_unity("قل&amp;ب"), "ب&amp; لق");
}

#[test]
fn test_tab_escape_kept() {
    assert_eq!(manual_rtl_for_unity("ب\\tج"), "ج\\t ب");
}

#[test]
fn test_escaped_newline_breaks_line() {
    assert_eq!(manual_rtl_for_unity("ب\\nج"), "ب\nج");
}

#[test]
fn test_real_newline_breaks_line() {
    assert_eq!(manual_rtl_for_unity("ب ج\nد"), "ج ب\nد");
}

#[test]
fn test_unclosed_tag_runs_to_end() {
    assert_eq!(manual_rtl_for_unity("ب {abc"), "{abc ب");
}

#[test]
fn test_arabic_numerals_stay_left_to_right() {
    assert_eq!(manual_rtl_for_unity("ب ١٢٣"), "١٢٣ ب");
}

#[test]
fn test_bidi_mark_joins_arabic_run() {
    assert_eq!(manual_rtl_for_unity("\u{200F}ب"), "ب\u{200F}");
}

#[test]
fn test_quoted_arabic_not_protected() {
    assert_eq!(manual_rtl_for_unity("ب \"ج\""), "\" ج \" ب");
}

#[test]
fn test_quoted_ascii_span_atomic() {
    assert_eq!(manual_rtl_for_unity("ب \"x y\""), "\"x y\" ب");
}

#[test]
fn test_text_without_arabic_keeps_order() {
    assert_eq!(manual_rtl_for_unity("abc def"), "abc def");
    assert_eq!(manual_rtl_for_unity(""), "");
}

// ── Tokens ───────────────────────────────────────────────────────────────

#[test]
fn test_classify_run_decides_by_given_alphanumerics() {
    assert_eq!(classify_run(&vec!['é'], &vec![true]), TokenKind::Ltr);
    assert_eq!(classify_run(&vec!['é'], &vec![false]), TokenKind::Neutral);
    assert_eq!(classify_run(&vec!['ب', 'é'], &vec![true, true]), TokenKind::Rtl);
    assert_eq!(classify_run(&vec!['\u{200F}'], &vec![false]), TokenKind::Neutral);
}

#[test]
fn test_tokenize_asks_unicode_alphanumeric() {
    let ts = tokenize_chars(&vec!['é']).unwrap();
    assert_eq!(ts.len(), 1);
    assert_eq!(ts[0].kind, TokenKind::Ltr);
    let ts = tokenize_chars(&vec!['€']).unwrap();
    assert_eq!(ts.len(), 1);
    assert_eq!(ts[0].kind, TokenKind::Neutral);
}

#[test]
fn test_tokenize_kinds_and_spans() {
    let v: Vec<char> = "ب {x} RimWorld, &quot;".chars().collect();
    let ts = tokenize_chars(&v).unwrap();
    let kinds: Vec<TokenKind> = ts.iter().map(|t| t.kind).collect();
    assert_eq!(
        kinds,
        vec![
            TokenKind::Rtl,
            TokenKind::Neutral,
            TokenKind::Tag,
            TokenKind::Neutral,
            TokenKind::Ltr
        ]
    );
    assert_eq!((ts[2].start, ts[2].end), (2, 5));
    // A left-to-right run takes in ASCII punctuation and entities as well.
    assert_eq!((ts[4].start, ts[4].end), (6, 22));
}

#[test]
fn test_tokenize_stalls_on_bare_ampersand() {
    let v: Vec<char> = "ب &x".chars().collect();
    assert!(tokenize_chars(&v).is_none());
    let v: Vec<char> = "ب \\x".chars().collect();
    assert!(tokenize_chars(&v).is_none());
    // Inside a left-to-right run they are ordinary characters.
    let v: Vec<char> = "a&x\\y".chars().collect();
    assert!(tokenize_chars(&v).is_some());
}

// ── Post-processing ──────────────────────────────────────────────────────

#[test]
fn test_normalize_exact_values() {
    assert_eq!(normalize_visual_rtl_output(""), "");
    assert_eq!(normalize_visual_rtl_output("   "), "");
    assert_eq!(normalize_visual_rtl_output("  a   b  "), "a b");
    assert_eq!(normalize_visual_rtl_output("a\tb"), "a b");
    assert_eq!(normalize_visual_rtl_output("a / b"), "a/b");
    assert_eq!(normalize_visual_rtl_output("a  / b"), "a/b");
    assert_eq!(normalize_visual_rtl_output("a  &quot; b"), "a&quot;b");
    assert_eq!(normalize_visual_rtl_output("a\t&quot;b"), "a&quot;b");
    assert_eq!(normalize_visual_rtl_output("x &quot; y"), "x&quot;y");
    assert_eq!(normalize_visual_rtl_output("abc"), "abc");
}

#[test]
fn test_normalize_step_markers() {
    assert_eq!(normalize_visual_rtl_output("1)"), "1)");
    assert_eq!(normalize_visual_rtl_output("abc 2)"), "2) abc");
    assert_eq!(normalize_visual_rtl_output("abc 9)  "), "9) abc");
    assert_eq!(normalize_visual_rtl_output("abc 0)"), "abc 0)");
    assert_eq!(normalize_visual_rtl_output("abc10)"), "abc10)");
    assert_eq!(normalize_visual_rtl_output("abc11)"), "abc11)");
    assert_eq!(normalize_visual_rtl_output("\u{FE8F} 11)"), "\u{FE8F} 11)");
    assert_eq!(normalize_visual_rtl_output("abc a1)"), "1) abc a");
}

#[test]
fn test_normalize_output_is_tidy() {
    let inputs = ["  a \t b  /  c &quot;  d  ", "x\u{00A0}\u{3000}y", " / / ", "&quot; &quot; 3)"];
    for s in inputs {
        let out = normalize_visual_rtl_output(s);
        let cs: Vec<char> = out.chars().collect();
        for w in cs.windows(2) {
            assert!(!(w[0] == ' ' && w[1] == ' '), "{out:?}");
            assert!(!(w[0] == '/' && w[1] == ' '), "{out:?}");
        }
        for c in &cs {
            assert!(!c.is_whitespace() || *c == ' ', "{out:?}");
        }
        assert!(!out.contains("&quot; "), "{out:?}");
        assert_eq!(out.trim(), out);
    }
}

// ── Whole pipeline ───────────────────────────────────────────────────────

#[test]
fn test_reshape_word_is_shaped_and_reversed() {
    for w in ["كتاب", "سلام", "لا", "ب"] {
        let expected: String = apply_arabic_shaping(w).chars().rev().collect();
        assert_eq!(reshape_arabic(w), expected);
    }
}

#[test]
fn test_reshape_keeps_real_newline_count() {
    let s = "أ\nب\n\nج د\n";
    let out = reshape_arabic(s);
    assert_eq!(out.matches('\n').count(), 4);
}

#[test]
fn test_reshape_without_arabic_is_identity() {
    let s = "a & b \\ c {x";
    assert_eq!(reshape_arabic(s), s);
    assert_eq!(try_reshape_arabic(s), Some(String::from(s)));
}

#[test]
fn test_try_reshape_none_where_reordering_never_ends() {
    assert_eq!(try_reshape_arabic("مرحبا &x"), None);
    assert_eq!(try_reshape_arabic("مرحبا \\x"), None);
    assert_eq!(try_reshape_arabic("سطر\\nمرحبا &x"), None);
    assert!(try_reshape_arabic("مرحبا &quot;x&quot;").is_some());
}

#[test]
fn test_try_reshape_matches_reshape() {
    let s = "إعدادات راوي القصص";
    assert_eq!(try_reshape_arabic(s), Some(reshape_arabic(s)));
}

#[test]
fn test_reshape_literal_newline_pieces() {
    assert_eq!(reshape_arabic("ب\\nج"), "ﺏ\\nﺝ");
}

#[test]
fn test_reshape_marker_inside_ltr_run_stays() {
    // The marker is read with "Steam" as one left-to-right run, so after
    // reordering it is no longer at the end.
    assert_eq!(reshape_arabic("افتح Steam 1)"), "Steam 1) ﺢﺘﻓﺍ");
}

#[test]
fn test_reshape_keeps_escaped_newline_count() {
    let s = "أ\\nب\\n\\nج د";
    let out = reshape_arabic(s);
    assert_eq!(out.matches("\\n").count(), 3);
    assert_eq!(out.split("\\n").count(), 4);
}

#[test]
fn test_unclosed_tag_can_make_an_escape() {
    // A backslash that starts no escaped \n, at the end of an unclosed tag,
    // meets the `n` of the run read before it.
    assert_eq!(reshape_arabic("ب n{\\"), "{\\n ﺏ");
}

#[test]
fn test_reshape_ends_without_ampersand_or_backslash() {
    for s in ["مرحبا {PAWN_name}! كيف حالك؟", "أضف \"-popupwindow\" <b>x</b> [i]y[/i]", "ب\nج"] {
        assert!(try_reshape_arabic(s).is_some());
    }
}

#[test]
fn test_tag_without_spaces_kept_by_reshape() {
    let out = reshape_arabic("اضغط <b>Enter</b> الآن &amp; {KEY}");
    for tag in ["<b>", "</b>", "&amp;", "{KEY}"] {
        assert!(out.contains(tag), "{tag} missing in {out:?}");
    }
}

#[test]
fn test_spaces_inside_tag_are_collapsed() {
    assert_eq!(reshape_arabic("ب {a  b}"), "{a b} ﺏ");
}

#[test]
fn test_newline_after_space_ends_line() {
    assert_eq!(manual_rtl_for_unity("\u{FE8F} \n\u{FE95}"), " \u{FE8F}\n\u{FE95}");
    assert_eq!(manual_rtl_for_unity("ب abc\nج"), "abc ب\nج");
}

#[test]
fn test_both_line_separators_kept() {
    assert_eq!(reshape_arabic("ب\\nت\nث"), "\u{FE8F}\\n\u{FE95}\n\u{FE99}");
}

#[test]
fn test_two_arabic_lines_each_reversed() {
    assert_eq!(manual_rtl_for_unity("ابج\nدهو"), "جبا\nوهد");
}

#[test]
fn test_right_joining_letter_breaks_the_join() {
    // د joins nothing on its left, so ب after it stands alone
    assert_eq!(codepoints(&apply_arabic_shaping("دب")), vec![0xFEA9, 0xFE8F]);
    // ب joins the ب after it
    assert_eq!(codepoints(&apply_arabic_shaping("بب")), vec![0xFE91, 0xFE90]);
}

#[test]
fn test_normalize_joins_words_with_single_spaces() {
    assert_eq!(normalize_visual_rtl_output("  a \t b   c \n"), "a b c");
}

#[test]
fn test_normalize_marker_then_words() {
    assert_eq!(normalize_visual_rtl_output("a   b 3)  "), "3) a b");
    assert_eq!(normalize_visual_rtl_output("  7)"), "7)");
}

#[test]
fn test_blank_line_reshapes_to_empty_line() {
    assert_eq!(reshape_arabic("ب\n   \nت"), "\u{FE8F}\n\n\u{FE95}");
}

#[test]
fn test_reordering_only_moves_characters() {
    let text = "مرحبا 123 world: <b>x</b> !";
    let out = manual_rtl_for_unity(text);
    let count = |s: &str, c: char| s.chars().filter(|&d| d == c).count();
    for c in text.chars().chain(out.chars()) {
        if c != ' ' {
            assert_eq!(count(&out, c), count(text, c), "count of {c:?} in {out:?}");
        }
    }
    assert!(count(&out, ' ') >= count(text, ' '));
}

#[test]
fn test_curly_tag_kept_anywhere() {
    let out = reshape_arabic("مرحبا {player_1} فاز\nلقد ربحت{coins}");
    assert!(out.contains("{player_1}"), "{out:?}");
    assert!(out.contains("{coins}"), "{out:?}");
}

#[test]
fn test_try_manual_rtl_none_where_reordering_never_ends() {
    assert_eq!(try_manual_rtl_for_unity("a\n&x"), None);
    assert_eq!(try_manual_rtl_for_unity("ب \\"), None);
    assert_eq!(try_manual_rtl_for_unity("ب abc").as_deref(), Some("abc ب"));
    assert_eq!(
        try_manual_rtl_for_unity("ابج\nدهو"),
        Some(manual_rtl_for_unity("ابج\nدهو"))
    );
}

#[test]
fn test_plain_ltr_line_unchanged() {
    let line = "Press E to open: door_1 (50%) & go!";
    assert_eq!(manual_rtl_for_unity(line), line);
}

#[test]
fn test_forms_by_neighbours() {
    // ك initial, ت medial, ب medial, د final (it joins nothing on its left).
    assert_eq!(
        codepoints(&apply_arabic_shaping("كتبد")),
        vec![0xFEDB, 0xFE98, 0xFE92, 0xFEAA]
    );
}

#[test]
fn test_lines_match_whole_text() {
    let text = "ب\n \t \nتاج\n";
    let out = reshape_arabic(text);
    let ins: Vec<&str> = text.split('\n').collect();
    let outs: Vec<&str> = out.split('\n').collect();
    assert_eq!(ins.len(), outs.len());
    for (i, o) in ins.iter().zip(outs.iter()) {
        assert_eq!(o.is_empty(), i.trim().is_empty(), "{i:?} -> {o:?}");
    }
}
