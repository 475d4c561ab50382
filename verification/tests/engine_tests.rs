use tidy::display_information::find_shortest_edit_distance;
use tidy::display_information::has_prefix_words;
use tidy::display_information::has_suffix_words;
use tidy::display_information::make_list_free_of_metadata;
use tidy::display_information::uniquely_decodable::is_uniquely_decodable;
use tidy::edit_distance::find_edit_distance;
use tidy::get_new_starting_point_guess;
use tidy::input_validations::validate_and_parse_ignore_options;
use tidy::input_validations::validate_dice_sides;
use tidy::input_validations::validate_list_truncation_options;
use tidy::list_manipulations::delete_after_first_char;
use tidy::list_manipulations::delete_before_first_char;
use tidy::list_manipulations::delete_integers;
use tidy::list_manipulations::delete_nonalphanumeric;
use tidy::list_manipulations::dedup_without_sorting;
use tidy::list_manipulations::enfore_minimum_edit_distance;
use tidy::list_manipulations::get_prefix;
use tidy::list_manipulations::guarantee_maximum_prefix_length;
use tidy::list_manipulations::is_latin_alphabetic;
use tidy::list_manipulations::normalize_unicode;
use tidy::list_manipulations::remove_homophones;
use tidy::list_manipulations::remove_prefix_words;
use tidy::list_manipulations::remove_suffix_words;
use tidy::list_manipulations::reverse_all_words;
use tidy::list_manipulations::schlinkert_prune;
use tidy::parse_delimiter;
use tidy::sardinas_patterson_pruning::get_sardinas_patterson_final_intersection;
use tidy::split_and_vectorize;
use tidy::try_tidy_list;
use tidy::TidyRequest;

fn words(list: &[&str]) -> Vec<String> {
    list.iter().map(|w| w.to_string()).collect()
}

#[test]
fn can_split_a_string_by_a_substring() {
    assert_eq!(split_and_vectorize("a:b:c", ":"), vec!["a", "b", "c"]);
    assert_eq!(split_and_vectorize("6**5", "**"), vec!["6", "5"]);
    assert_eq!(split_and_vectorize("no-delimiter", ","), vec!["no-delimiter"]);
    assert_eq!(split_and_vectorize(",edge,", ","), vec!["", "edge", ""]);
}

#[test]
fn can_parse_whitespace_delimiters() {
    assert_eq!(parse_delimiter('s'), Some(' '));
    assert_eq!(parse_delimiter('t'), Some('\t'));
    assert_eq!(parse_delimiter(','), Some(','));
}

#[test]
fn edit_distance_matches_known_scenario() {
    assert_eq!(find_edit_distance("Hello, world!", "Hell, world!"), 1);
}

#[test]
fn edit_distance_is_symmetric_and_zero_on_self() {
    assert_eq!(find_edit_distance("kitten", "sitting"), find_edit_distance("sitting", "kitten"));
    assert_eq!(find_edit_distance("same", "same"), 0);
    assert_eq!(find_edit_distance("abc", ""), 3);
    assert_eq!(find_edit_distance("", "abcd"), 4);
}

#[test]
fn offending_words_empty_exactly_when_decodable() {
    let bad = words(&["news", "newspaper", "paper", "elephant"]);
    let offenders = get_sardinas_patterson_final_intersection(&bad);
    assert!(!offenders.is_empty());
    assert!(!is_uniquely_decodable(&bad));

    let good = words(&["0", "10", "110", "111"]);
    let no_offenders = get_sardinas_patterson_final_intersection(&good);
    assert!(no_offenders.is_empty());
    assert!(is_uniquely_decodable(&good));
}

#[test]
fn decodability_ignores_order_and_duplicates() {
    let a = words(&["news", "newspaper", "paper", "elephant"]);
    let b = words(&["paper", "elephant", "newspaper", "news", "paper", "news"]);
    assert_eq!(is_uniquely_decodable(&a), is_uniquely_decodable(&b));

    let c = words(&["0", "10", "110", "111"]);
    let d = words(&["111", "110", "10", "0", "0"]);
    assert_eq!(is_uniquely_decodable(&c), is_uniquely_decodable(&d));
}

#[test]
fn schlinkert_prune_saves_more_words_backwards() {
    let list = words(&[
        "news",
        "paper",
        "newspaper",
        "donkey",
        "newsdonkey",
        "ghost",
        "newsghost",
        "radish",
        "newsradish",
    ]);
    let pruned = schlinkert_prune(&list);
    assert_eq!(pruned.len(), 8);
    assert!(is_uniquely_decodable(&pruned));
}

#[test]
fn can_reverse_words_by_grapheme_cluster() {
    let list = words(&["hotdog", "hamburger", "alligator"]);
    assert_eq!(reverse_all_words(&list), words(&["godtoh", "regrubmah", "rotagilla"]));
    let accented = words(&["se\u{0301}ga"]);
    assert_eq!(reverse_all_words(&accented), words(&["age\u{301}s"]));
}

#[test]
fn can_take_a_grapheme_prefix() {
    assert_eq!(get_prefix("hello world", 4), "hell");
    assert_eq!(get_prefix("s\u{e9}cr\u{e9}ter", 5), "s\u{e9}cr\u{e9}");
    assert_eq!(get_prefix("\u{1F600}\u{1F603}\u{1F604}\u{1F601}\u{1F606}", 2), "\u{1F600}\u{1F603}");
    assert_eq!(get_prefix("ab", 5), "ab");
}

#[test]
fn enforcing_maximum_shared_prefix_keeps_shortest_representative() {
    let list = words(&["zoo", "zookeeper", "station", "stationary", "app", "apple"]);
    let enforced = guarantee_maximum_prefix_length(&list, 3);
    assert!(enforced.contains(&"zoo".to_string()));
    assert!(!enforced.contains(&"zookeeper".to_string()));
    assert!(enforced.contains(&"station".to_string()));
    assert!(!enforced.contains(&"stationary".to_string()));
    assert!(enforced.contains(&"app".to_string()));
    assert!(!enforced.contains(&"apple".to_string()));
    assert_eq!(enforced.len(), 3);
}

#[test]
fn enforcing_minimum_edit_distance_drops_close_pairs() {
    let list = words(&["bat", "cat", "dog"]);
    let enforced = enfore_minimum_edit_distance(list, 2);
    assert_eq!(enforced, words(&["dog"]));

    let far = words(&["alpha", "omega"]);
    let kept = enfore_minimum_edit_distance(far, 2);
    assert_eq!(kept, words(&["alpha", "omega"]));
}

#[test]
fn can_remove_prefix_and_suffix_words_directly() {
    let list = words(&["news", "newspaper", "paper", "mouse"]);
    let no_prefix = remove_prefix_words(list.clone());
    assert!(!no_prefix.contains(&"news".to_string()));
    assert!(no_prefix.contains(&"newspaper".to_string()));
    assert!(no_prefix.contains(&"mouse".to_string()));

    let no_suffix = remove_suffix_words(list);
    assert!(!no_suffix.contains(&"paper".to_string()));
    assert!(no_suffix.contains(&"newspaper".to_string()));
    assert!(no_suffix.contains(&"news".to_string()));
}

#[test]
fn can_remove_second_member_of_homophone_pairs() {
    let list = words(&["there", "their", "hear", "wizard"]);
    let homophones = vec![
        ("there".to_string(), "their".to_string()),
        ("hear".to_string(), "here".to_string()),
    ];
    let cleaned = remove_homophones(list, homophones);
    assert!(cleaned.contains(&"there".to_string()));
    assert!(!cleaned.contains(&"their".to_string()));
    assert!(cleaned.contains(&"hear".to_string()));
    assert!(cleaned.contains(&"wizard".to_string()));
}

#[test]
fn can_dedup_while_keeping_first_occurrences() {
    let list = words(&["b", "a", "b", "c", "a"]);
    assert_eq!(dedup_without_sorting(&list), words(&["b", "a", "c"]));
}

#[test]
fn can_delete_around_first_occurrence_of_a_character() {
    assert_eq!(delete_before_first_char("11225\tword", '\t'), "word");
    assert_eq!(delete_before_first_char("plain", '\t'), "plain");
    assert_eq!(delete_after_first_char("word\tmetadata", '\t'), "word");
    assert_eq!(delete_after_first_char("plain", '\t'), "plain");
}

#[test]
fn can_delete_character_classes_from_words() {
    assert_eq!(delete_integers("world824".to_string()), "world");
    assert_eq!(delete_nonalphanumeric("Hello!".to_string()), "Hello");
    assert_eq!(delete_nonalphanumeric("world824...".to_string()), "world824");
}

#[test]
fn knows_which_code_units_are_latin_letters() {
    assert!(is_latin_alphabetic('h' as u16));
    assert!(is_latin_alphabetic('A' as u16));
    assert!(!is_latin_alphabetic('1' as u16));
    assert!(!is_latin_alphabetic(',' as u16));
    assert!(!is_latin_alphabetic('\u{e9}' as u16));
}

#[test]
fn normalize_unicode_rejects_unknown_forms() {
    assert!(normalize_unicode("word", "xyz").is_err());
    assert!(normalize_unicode("word", "NFC").is_ok());
    assert_eq!(normalize_unicode("e\u{301}", "nfc").unwrap(), "\u{e9}");
}

#[test]
fn can_find_shortest_edit_distance_in_a_list() {
    let list = words(&["bat", "cat", "horse", "zebra"]);
    assert_eq!(find_shortest_edit_distance(&list), 1);
    let list2 = words(&["aaaa", "bbbb", "aacc"]);
    assert_eq!(find_shortest_edit_distance(&list2), 2);
}

#[test]
fn detects_prefix_and_suffix_words_in_lists() {
    assert!(has_prefix_words(&words(&["news", "newspaper"])));
    assert!(!has_prefix_words(&words(&["news", "paper"])));
    assert!(has_suffix_words(&words(&["paper", "newspaper"])));
    assert!(!has_suffix_words(&words(&["news", "njet"])));
}

#[test]
fn can_strip_metadata_from_lines() {
    let list = words(&["13,word", "14,term"]);
    let bare = make_list_free_of_metadata(&list, Some(','), None);
    assert_eq!(bare, words(&["word", "term"]));
    let front = make_list_free_of_metadata(&list, None, Some(','));
    assert_eq!(front, words(&["13", "14"]));
    let untouched = make_list_free_of_metadata(&list, None, None);
    assert_eq!(untouched, list);
}

#[test]
fn validations_accept_and_refuse_as_promised() {
    assert!(validate_dice_sides(None).is_ok());
    assert!(validate_dice_sides(Some(6)).is_ok());
    assert!(validate_dice_sides(Some(1)).is_err());
    assert!(validate_dice_sides(Some(37)).is_err());

    assert!(validate_list_truncation_options(&None, Some(10), None, None).is_ok());
    assert!(validate_list_truncation_options(&Some("100".to_string()), Some(10), None, None)
        .is_err());
    assert!(validate_list_truncation_options(&Some("100".to_string()), None, Some(5), None)
        .is_err());

    let plain = TidyRequest::default();
    assert_eq!(
        validate_and_parse_ignore_options(&plain, None, false),
        Ok((None, None))
    );
    let ignoring = TidyRequest {
        ignore_after_delimiter: Some(','),
        ..Default::default()
    };
    assert_eq!(
        validate_and_parse_ignore_options(&ignoring, None, false),
        Ok((Some(','), None))
    );
    let conflicted = TidyRequest {
        ignore_after_delimiter: Some(','),
        to_lowercase: true,
        ..Default::default()
    };
    assert!(validate_and_parse_ignore_options(&conflicted, None, false).is_err());
    let both = TidyRequest {
        ignore_after_delimiter: Some(','),
        ignore_before_delimiter: Some(','),
        ..Default::default()
    };
    assert!(validate_and_parse_ignore_options(&both, None, false).is_err());
}

#[test]
fn whittle_guess_moves_toward_the_target() {
    assert_eq!(get_new_starting_point_guess(100, 120, 100), 80);
    assert_eq!(get_new_starting_point_guess(100, 90, 100), 110);
    assert_eq!(get_new_starting_point_guess(5, 6, 1000), 9);
}

#[test]
fn tidying_refuses_an_unparseable_locale() {
    let bad = TidyRequest {
        list: words(&["b", "a"]),
        sort_alphabetically: true,
        locale: "not a locale!".to_string(),
        ..Default::default()
    };
    assert!(try_tidy_list(bad).is_none());

    let good = TidyRequest {
        list: words(&["b", "a"]),
        sort_alphabetically: true,
        locale: "en-US".to_string(),
        ..Default::default()
    };
    assert_eq!(try_tidy_list(good).unwrap(), words(&["a", "b"]));
}

#[test]
fn taking_randomly_keeps_words_from_the_list() {
    let list = words(&["one", "two", "three", "four"]);
    let req = TidyRequest {
        list: list.clone(),
        take_rand: Some(2),
        ..Default::default()
    };
    let taken = tidy::tidy_list(req);
    assert_eq!(taken.len(), 2);
    for w in &taken {
        assert!(list.contains(w));
    }
}

#[test]
fn sorting_by_length_puts_shortest_first() {
    let req = TidyRequest {
        list: words(&["zebra", "ox", "gnu", "aardvark"]),
        sort_by_length: true,
        locale: "en-US".to_string(),
        ..Default::default()
    };
    let sorted = tidy::tidy_list(req);
    assert_eq!(sorted, words(&["ox", "gnu", "zebra", "aardvark"]));
}
