use toy_shell::{get_anagrams, group_anagrams};

#[test]
fn it_works() {
    let words = [
        "ПЯТКА",
        "пятак",
        "листок",
        "Пятак",
        "столик",
        "пятка",
        "хворост",
        "тяпка",
        "слиток",
    ];

    let anagrams = get_anagrams(&words);

    assert_eq!(anagrams.len(), 2);

    assert!(anagrams
        .get("ПЯТКА")
        .is_some_and(|elmnts| *elmnts == vec!["пятак", "пятка", "тяпка"]));

    assert!(anagrams
        .get("листок")
        .is_some_and(|elmnts| *elmnts == vec!["листок", "слиток", "столик"]));
}

#[test]
fn single_form_class_is_left_out() {
    let words = ["Abc", "abc", "ABC", "xyz"];
    let anagrams = get_anagrams(&words);
    assert_eq!(anagrams.len(), 0);
    assert!(anagrams.get("Abc").is_none());
}

#[test]
fn empty_word_list() {
    let words: [&str; 0] = [];
    assert_eq!(get_anagrams(&words).len(), 0);
}

#[test]
fn uppercase_words_group_by_lowercase_letters() {
    let words = ["Listen", "SILENT", "enlist", "other"];
    let anagrams = get_anagrams(&words);
    assert_eq!(anagrams.len(), 1);
    assert!(anagrams
        .get("Listen")
        .is_some_and(|m| *m == vec!["enlist", "listen", "silent"]));
}

#[test]
fn groups_by_given_lowercase_forms() {
    let words = ["Ab", "x", "BA", "y"];
    let lowers: Vec<String> = ["ab", "x", "ba", "y"].iter().map(|s| s.to_string()).collect();
    let groups = group_anagrams(&words, &lowers);
    assert_eq!(groups.len(), 1);
    assert!(groups.get("Ab").is_some_and(|m| *m == vec!["ab", "ba"]));
}
