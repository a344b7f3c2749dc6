use gtfs_split::progress::progress_mark;
use gtfs_split::text::{
    find_alphanumerics, join_words, nonblank_field, spell_out, transliterate_state_name,
};

fn field(text: &str) -> Option<String> {
    Some(text.to_string())
}

#[test]
fn state_names_become_folder_names() {
    assert_eq!(transliterate_state_name("Baden-Württemberg"), "baden_wuerttemberg");
    assert_eq!(transliterate_state_name("Thüringen"), "thueringen");
    assert_eq!(transliterate_state_name("Bayern"), "bayern");
    assert_eq!(transliterate_state_name("Mecklenburg-Vorpommern"), "mecklenburg_vorpommern");
    assert_eq!(transliterate_state_name("ÄÖÜ ß"), "aeoeue_ss");
}

#[test]
fn separators_collapse_and_vanish_at_the_ends() {
    assert_eq!(transliterate_state_name("  North -- Rhine  / Westphalia!"), "north_rhine_westphalia");
    assert_eq!(transliterate_state_name("__a__b__"), "a_b");
    assert_eq!(transliterate_state_name("---"), "");
    assert_eq!(transliterate_state_name(""), "");
}

#[test]
fn letters_and_digits_of_all_scripts_are_kept() {
    assert_eq!(transliterate_state_name("Ēlva ٣ 京"), "ēlva_٣_京");
}

#[test]
fn folder_names_are_settled() {
    for name in ["Baden-Württemberg", "  Groß  Umstadt ", "A.B.C", "x_1"] {
        let once = transliterate_state_name(name);
        assert_eq!(transliterate_state_name(&once), once);
        assert!(!once.starts_with('_') && !once.ends_with('_') && !once.contains("__"));
    }
}

#[test]
fn a_sharp_s_and_a_double_s_give_the_same_folder() {
    assert_eq!(transliterate_state_name("Großräschen"), "grossraeschen");
    for name in ["Großräschen", "ß", "Maß-ßtab", "Weiße Elster"] {
        let written = name.replace('ß', "ss");
        assert_eq!(transliterate_state_name(&written), transliterate_state_name(name));
    }
}

#[test]
fn upper_and_lower_case_give_the_same_folder() {
    for name in ["Baden-Württemberg", "Straßburg / GROẞRÄSCHEN", "Öde Ähren, Über 12"] {
        let folder = transliterate_state_name(name);
        assert_eq!(transliterate_state_name(&name.to_uppercase()), folder);
        assert_eq!(transliterate_state_name(&name.to_lowercase()), folder);
    }
}

#[test]
fn umlauts_are_spelled_out() {
    let text: String = spell_out("größe ä").into_iter().collect();
    assert_eq!(text, "groesse ae");
}

#[test]
fn alphanumerics_are_found() {
    let text: Vec<char> = "a1_- é".chars().collect();
    assert_eq!(find_alphanumerics(&text), vec![true, true, false, false, false, true]);
}

#[test]
fn kept_characters_are_joined() {
    let text: Vec<char> = "abc_d".chars().collect();
    assert_eq!(join_words(&text, &vec![true, false, true, true, true]), "a_c_d");
    assert_eq!(join_words(&text, &vec![false, false, false, false, false]), "");
}

#[test]
fn blank_fields_are_none() {
    assert_eq!(nonblank_field(&None), None);
    assert_eq!(nonblank_field(&field("")), None);
    assert_eq!(nonblank_field(&field(" \t\u{3000}\r\n")), None);
    assert_eq!(nonblank_field(&field(" \u{a0}de:1 2\u{2003}\n")), field("de:1 2"));
    assert_eq!(nonblank_field(&field("x")), field("x"));
    assert_eq!(nonblank_field(&field("\u{200b}")), field("\u{200b}"));
}

#[test]
fn white_space_is_that_of_unicode() {
    let listed = [
        '\u{9}', '\u{a}', '\u{b}', '\u{c}', '\u{d}', '\u{20}', '\u{85}', '\u{a0}', '\u{1680}',
        '\u{2000}', '\u{2001}', '\u{2002}', '\u{2003}', '\u{2004}', '\u{2005}', '\u{2006}',
        '\u{2007}', '\u{2008}', '\u{2009}', '\u{200a}', '\u{2028}', '\u{2029}', '\u{202f}',
        '\u{205f}', '\u{3000}',
    ];
    for code in 0..=0x10ffff_u32 {
        if let Some(c) = char::from_u32(code) {
            let blank = nonblank_field(&Some(c.to_string())).is_none();
            assert_eq!(blank, listed.contains(&c));
        }
    }
}

#[test]
fn progress_is_reported_every_ten_million_rows() {
    assert_eq!(progress_mark(10_000_000), Some(10));
    assert_eq!(progress_mark(30_000_000), Some(30));
    assert_eq!(progress_mark(10_000_001), None);
    assert_eq!(progress_mark(1), None);
}
