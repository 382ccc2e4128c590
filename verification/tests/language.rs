use hint_resolver::language::{get_names_for_language, Language};
use hint_resolver::{HintIndex, HintName, RawName};

fn fountain() -> HintName {
    HintName {
        de: "Brunnen".to_string(),
        en: "Fountain".to_string(),
        es: "Fuente".to_string(),
        fr: "Fontaine".to_string(),
        it: "Fontana".to_string(),
        pt: "Fonte".to_string(),
    }
}

fn statue() -> HintName {
    HintName {
        de: "Statue".to_string(),
        en: "Statue".to_string(),
        es: "Estatua".to_string(),
        fr: "Statue".to_string(),
        it: "Statua".to_string(),
        pt: "Estátua".to_string(),
    }
}

fn index() -> HintIndex {
    let names = [
        RawName { key: "10".to_string(), names: fountain() },
        RawName { key: "11".to_string(), names: statue() },
    ];
    HintIndex::build(&[], &names).unwrap_or_else(|error| panic!("{error:?}"))
}

#[test]
fn each_code_names_its_language() {
    assert_eq!(Language::from_code("de"), Language::De);
    assert_eq!(Language::from_code("en"), Language::En);
    assert_eq!(Language::from_code("es"), Language::Es);
    assert_eq!(Language::from_code("fr"), Language::Fr);
    assert_eq!(Language::from_code("it"), Language::It);
    assert_eq!(Language::from_code("pt"), Language::Pt);
}

#[test]
fn a_code_that_names_no_language_gives_english() {
    let codes =
        ["", "e", "eng", "EN", "En", "nl", "d", "dé", "ed", "tp", "e\u{301}", " en", "en "];
    for code in codes {
        assert_eq!(Language::from_code(code), Language::En, "on {code:?}");
    }
}

#[test]
fn a_name_record_gives_the_name_in_each_language() {
    let names = fountain();
    assert_eq!(names.in_language(Language::De), "Brunnen");
    assert_eq!(names.in_language(Language::En), "Fountain");
    assert_eq!(names.in_language(Language::Es), "Fuente");
    assert_eq!(names.in_language(Language::Fr), "Fontaine");
    assert_eq!(names.in_language(Language::It), "Fontana");
    assert_eq!(names.in_language(Language::Pt), "Fonte");
}

#[test]
fn the_names_of_hints_come_in_the_language_asked_for() {
    let index = index();
    let texts = get_names_for_language(&index, &[10, 11], "pt");
    assert_eq!(texts.len(), 2);
    assert_eq!(texts[&10], "Fonte");
    assert_eq!(texts[&11], "Estátua");
    let texts = get_names_for_language(&index, &[11], "it");
    assert_eq!(texts.len(), 1);
    assert_eq!(texts[&11], "Statua");
}

#[test]
fn an_unknown_code_gives_the_names_in_english() {
    let index = index();
    let texts = get_names_for_language(&index, &[10, 11], "xx");
    assert_eq!(texts[&10], "Fountain");
    assert_eq!(texts[&11], "Statue");
}

#[test]
fn identifiers_without_a_name_record_get_no_text() {
    let index = index();
    let texts = get_names_for_language(&index, &[9, 10, 12, 10], "fr");
    assert_eq!(texts.len(), 1);
    assert_eq!(texts[&10], "Fontaine");
    assert!(get_names_for_language(&index, &[], "fr").is_empty());
    assert!(get_names_for_language(&index, &[1, 2, 3], "fr").is_empty());
}
