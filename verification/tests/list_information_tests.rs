use tidy::display_information::find_first_different_character_zero_indexed;
use tidy::display_information::find_longest_shared_prefix;
use tidy::display_information::get_shortest_word_length;

#[test]
fn can_find_first_different_character() {
    assert_eq!(
        find_first_different_character_zero_indexed("apple", "zebra"),
        0
    );
    assert_eq!(
        find_first_different_character_zero_indexed("berry", "bicker"),
        1
    );
    assert_eq!(
        find_first_different_character_zero_indexed("hello", "help"),
        3
    );
    assert_eq!(
        find_first_different_character_zero_indexed("radius", "radical"),
        4
    );
    assert_eq!(
        find_first_different_character_zero_indexed("zip", "zippy"),
        3
    );
    assert_eq!(
        find_first_different_character_zero_indexed("zippy", "zip"),
        3
    );
}

#[test]
fn can_find_longest_shared_prefix_in_a_list() {
    let list: Vec<String> = vec![
        "to",
        "canopy",
        "cold",
        "academia",
        "academic",
        "seasons",
        "fire",
        "Christmas",
    ]
    .iter()
    .map(|x| x.to_string())
    .collect();
    assert_eq!(find_longest_shared_prefix(&list), 7);
}
#[test]
fn can_get_shortest_word_length() {
    let list: Vec<String> = vec!["canopy", "to", "cold", "seasons", "fire", "Christmas"]
        .iter()
        .map(|x| x.to_string())
        .collect();
    assert_eq!(get_shortest_word_length(&list), 2);
}
