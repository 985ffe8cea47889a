use auto_correct_n_suggest::Dictionary;

#[test]
fn should_provide_full_words_if_word_based_on_prefix() {
    let mut dictionary = Dictionary::new();
    let word1 = "Dog".to_string();
    let word2 = "Dogecoin".to_string();
    dictionary.insert(word1);
    dictionary.insert(word2);
    let words_available = dictionary
        .find_words_based_on_prefix("Dog".to_string())
        .expect("Words should be present");

    assert!(words_available.contains(&"Dog".to_string()));
    assert!(words_available.contains(&"Dogecoin".to_string()))
}

#[test]
fn should_auto_correct_if_word_provided_isnt_available() {
    let mut dictionary = Dictionary::new();
    let word1 = "Dog".to_string();
    let word2 = "Dogecoin".to_string();
    dictionary.insert(word1);
    dictionary.insert(word2);
    let words_available = dictionary
        .auto_suggest_alternative_words("Dogecoins".to_string())
        .expect("Suggestions should be available");
    assert_eq!(vec!["Dogecoin".to_string()], words_available)
}

#[test]
fn should_return_none_if_word_provided_isnt_available_and_there_are_no_matching_words() {
    let mut dictionary = Dictionary::new();
    let word1 = "Dog".to_string();
    let word2 = "Dogecoin".to_string();
    dictionary.insert(word1);
    dictionary.insert(word2);
    let words_available = dictionary.auto_suggest_alternative_words("Cat".to_string());
    assert_eq!(words_available, None)
}

#[test]
fn default_dictionary_is_empty() {
    let mut dictionary = Dictionary::default();
    assert_eq!(dictionary.find_words_based_on_prefix(String::new()), None);
    dictionary.insert("Dog".to_string());
    let found = dictionary.find_words_based_on_prefix(String::new()).unwrap();
    assert_eq!(found, vec!["Dog".to_string()]);
}

#[test]
fn dictionary_lookup_of_missing_prefix_is_absent() {
    let mut dictionary = Dictionary::new();
    dictionary.insert("Dog".to_string());
    dictionary.insert("Dogecoin".to_string());
    assert_eq!(
        dictionary.find_words_based_on_prefix("Dogecoins".to_string()),
        None
    );
}
