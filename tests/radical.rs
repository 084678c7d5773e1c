use zhongchar::radical::{counts_as_radical_form, radical_forms_of};
use zhongchar::{radical_from_csv, Radical};

fn row(forms: &str) -> radical_from_csv::Radical {
    radical_from_csv::Radical {
        number: 9,
        radical_forms: forms.to_string(),
        stroke_count: 2,
        meaning: "man".to_string(),
        colloquial_term: Some("standing person".to_string()),
        pinyin: "rén".to_string(),
        han_viet: "nhân".to_string(),
        hiragana_romaji: "ひと hito".to_string(),
        hangul_romaja: "사람인 saram in".to_string(),
        frequency: 831,
        simplified: None,
        examples: "仁他你".to_string(),
    }
}

#[test]
fn radical_forms_keep_non_ascii_letters() {
    assert_eq!(radical_forms_of("人 (亻)"), vec!['人', '亻']);
    assert_eq!(radical_forms_of("水, 氵, 氺"), vec!['水', '氵', '氺']);
}

#[test]
fn radical_forms_drop_ascii_letters_and_marks() {
    assert_eq!(radical_forms_of("abc 123 -,()"), Vec::<char>::new());
    assert_eq!(radical_forms_of(""), Vec::<char>::new());
    assert_eq!(radical_forms_of("x火y"), vec!['火']);
}

#[test]
fn radical_forms_keep_accented_letters_but_not_symbols() {
    assert_eq!(radical_forms_of("é→★"), vec!['é']);
}

#[test]
fn radical_form_decision() {
    assert!(counts_as_radical_form('人', true));
    assert!(!counts_as_radical_form('a', true));
    assert!(!counts_as_radical_form('→', false));
    assert!(!counts_as_radical_form('\u{7f}', true));
    assert!(counts_as_radical_form('\u{80}', true));
}

#[test]
fn radical_from_row_splits_forms() {
    let radical = Radical::from(row("人 亻"));
    assert_eq!(radical.radical_forms, vec!['人', '亻']);
    assert_eq!(radical.number, 9);
    assert_eq!(radical.stroke_count, 2);
    assert_eq!(radical.meaning, "man");
    assert_eq!(radical.colloquial_term, Some("standing person".to_string()));
    assert_eq!(radical.pinyin, "rén");
    assert_eq!(radical.han_viet, "nhân");
    assert_eq!(radical.hiragana_romaji, "ひと hito");
    assert_eq!(radical.hangul_romaja, "사람인 saram in");
    assert_eq!(radical.frequency, 831);
    assert_eq!(radical.simplified, None);
    assert_eq!(radical.examples, "仁他你");
}
