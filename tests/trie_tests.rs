use auto_correct_n_suggest::Trie;

fn sorted(mut v: Vec<String>) -> Vec<String> {
    v.sort();
    v
}

fn dog_trie() -> Trie {
    let mut trie = Trie::new();
    trie.insert("Dog".to_string());
    trie.insert("Dogecoin".to_string());
    trie
}

#[test]
fn should_be_able_to_return_full_word_based_on_prefix() {
    let mut trie = Trie::new();
    trie.insert("Dog".to_string());
    trie.insert("Dogecoin".to_string());
    let full_words_available = trie
        .find_words_based_on_prefix("Dog".to_string())
        .expect("should return a list from the trie");

    assert!(full_words_available.contains(&"Dog".to_string()));
    assert!(full_words_available.contains(&"Dogecoin".to_string()));
}

#[test]
fn should_return_none_if_prefix_provided_isnt_available() {
    let mut trie = Trie::new();
    trie.insert("Dog".to_string());
    trie.insert("Dogecoin".to_string());
    let full_words_available = trie.find_words_based_on_prefix("Dogecoins".to_string());
    assert_eq!(full_words_available, None)
}

#[test]
fn should_auto_suggest_if_word_provided_isnt_available() {
    let mut trie = Trie::new();
    trie.insert("Dog".to_string());
    trie.insert("Dogecoin".to_string());
    let full_words_available = trie
        .auto_suggest("Dogecoins".to_string())
        .expect("Suggestions to be made available");
    assert_eq!(vec!["Dogecoin".to_string()], full_words_available)
}

#[test]
fn should_not_bring_suggestions_if_similar_word_doesnt_exist_in_dictionary() {
    let mut trie = Trie::new();
    trie.insert("Dog".to_string());
    trie.insert("Dogecoin".to_string());
    let full_words_available = trie.auto_suggest("Cat".to_string());
    assert_eq!(full_words_available, None)
}

#[test]
fn should_return_suggestions_if_similar_words_exist_in_dictionary_if_word_isnt_complete() {
    let mut trie = Trie::new();
    trie.insert("Dog".to_string());
    trie.insert("Dogecoin".to_string());
    let full_words_available = trie
        .auto_suggest("Do".to_string())
        .expect("Dog & Dogecoin to be returned");
    assert!(full_words_available.contains(&"Dog".to_string()));
    assert!(full_words_available.contains(&"Dogecoin".to_string()))
}

#[test]
fn lookup_of_dog_is_exactly_both_words() {
    let trie = dog_trie();
    let found = trie.find_words_based_on_prefix("Dog".to_string()).unwrap();
    assert_eq!(sorted(found), vec!["Dog".to_string(), "Dogecoin".to_string()]);
}

#[test]
fn suggestion_for_do_is_exactly_both_words() {
    let trie = dog_trie();
    let found = trie.auto_suggest("Do".to_string()).unwrap();
    assert_eq!(sorted(found), vec!["Dog".to_string(), "Dogecoin".to_string()]);
}

#[test]
fn every_inserted_word_is_found_by_its_own_lookup() {
    let words = ["a", "ab", "abc", "b", "zebra", "zeal", "Dog", "Dogecoin"];
    let mut trie = Trie::new();
    for w in words.iter() {
        trie.insert(w.to_string());
    }
    for w in words.iter() {
        let found = trie.find_words_based_on_prefix(w.to_string()).unwrap();
        assert!(found.contains(&w.to_string()));
    }
}

#[test]
fn lookup_is_absent_exactly_for_unknown_prefixes() {
    let trie = dog_trie();
    assert!(trie.find_words_based_on_prefix("D".to_string()).is_some());
    assert!(trie.find_words_based_on_prefix("Doge".to_string()).is_some());
    assert!(trie.find_words_based_on_prefix("Dogecoin".to_string()).is_some());
    assert!(trie.find_words_based_on_prefix("d".to_string()).is_none());
    assert!(trie.find_words_based_on_prefix("Dogs".to_string()).is_none());
    assert!(trie.find_words_based_on_prefix("Cat".to_string()).is_none());
}

#[test]
fn lookup_with_empty_prefix_lists_every_word() {
    let trie = dog_trie();
    let found = trie.find_words_based_on_prefix(String::new()).unwrap();
    assert_eq!(sorted(found), vec!["Dog".to_string(), "Dogecoin".to_string()]);
}

#[test]
fn empty_trie_answers_nothing() {
    let trie = Trie::new();
    assert_eq!(trie.find_words_based_on_prefix(String::new()), None);
    assert_eq!(trie.find_words_based_on_prefix("a".to_string()), None);
    assert_eq!(trie.auto_suggest("a".to_string()), None);
}

#[test]
fn reinserting_a_word_changes_no_answer() {
    let once = dog_trie();
    let mut many = dog_trie();
    for _ in 0..5 {
        many.insert("Dog".to_string());
        many.insert("Dogecoin".to_string());
    }
    for q in ["", "D", "Dog", "Doge", "Dogecoins", "Cat", "Dx"].iter() {
        let a = once.find_words_based_on_prefix(q.to_string()).map(sorted);
        let b = many.find_words_based_on_prefix(q.to_string()).map(sorted);
        assert_eq!(a, b);
        let a = once.auto_suggest(q.to_string()).map(sorted);
        let b = many.auto_suggest(q.to_string()).map(sorted);
        assert_eq!(a, b);
    }
    let found = many.find_words_based_on_prefix("Dog".to_string()).unwrap();
    assert_eq!(found.len(), 2);
}

#[test]
fn suggestion_is_absent_for_empty_query() {
    let trie = dog_trie();
    assert_eq!(trie.auto_suggest(String::new()), None);
}

#[test]
fn suggestion_is_absent_only_without_a_shared_first_character() {
    let trie = dog_trie();
    assert_eq!(trie.auto_suggest("dog".to_string()), None);
    assert_eq!(trie.auto_suggest("X".to_string()), None);
    let found = trie.auto_suggest("Dx".to_string()).unwrap();
    assert_eq!(sorted(found), vec!["Dog".to_string(), "Dogecoin".to_string()]);
}

#[test]
fn stored_word_is_suggested_for_itself() {
    let trie = dog_trie();
    let found = trie.auto_suggest("Dog".to_string()).unwrap();
    assert!(found.contains(&"Dog".to_string()));
    assert_eq!(sorted(found), vec!["Dog".to_string(), "Dogecoin".to_string()]);
    let found = trie.auto_suggest("Dogecoin".to_string()).unwrap();
    assert_eq!(found, vec!["Dogecoin".to_string()]);
}

#[test]
fn suggestion_uses_longest_known_prefix() {
    let mut trie = Trie::new();
    trie.insert("car".to_string());
    trie.insert("cart".to_string());
    trie.insert("cat".to_string());
    let found = trie.auto_suggest("carx".to_string()).unwrap();
    assert_eq!(sorted(found), vec!["car".to_string(), "cart".to_string()]);
    let found = trie.auto_suggest("cb".to_string()).unwrap();
    assert_eq!(
        sorted(found),
        vec!["car".to_string(), "cart".to_string(), "cat".to_string()]
    );
}

#[test]
fn empty_word_can_be_stored() {
    let mut trie = Trie::new();
    trie.insert(String::new());
    let found = trie.find_words_based_on_prefix(String::new()).unwrap();
    assert_eq!(found, vec![String::new()]);
    assert_eq!(trie.auto_suggest(String::new()), None);
}

#[test]
fn no_character_is_reserved() {
    let mut trie = Trie::new();
    trie.insert("a*".to_string());
    trie.insert("*".to_string());
    let found = trie.find_words_based_on_prefix("a".to_string()).unwrap();
    assert_eq!(found, vec!["a*".to_string()]);
    let found = trie.find_words_based_on_prefix(String::new()).unwrap();
    assert_eq!(sorted(found), vec!["*".to_string(), "a*".to_string()]);
}

#[test]
fn words_with_wide_characters_are_kept_whole() {
    let mut trie = Trie::new();
    trie.insert("héllo".to_string());
    trie.insert("hé".to_string());
    let found = trie.find_words_based_on_prefix("hé".to_string()).unwrap();
    assert_eq!(sorted(found), vec!["hé".to_string(), "héllo".to_string()]);
    let found = trie.auto_suggest("héllø".to_string()).unwrap();
    assert_eq!(found, vec!["héllo".to_string()]);
}

#[test]
fn answers_list_no_word_twice() {
    let mut trie = Trie::new();
    for w in ["ab", "abc", "abd", "ab", "a"].iter() {
        trie.insert(w.to_string());
    }
    let found = trie.find_words_based_on_prefix("a".to_string()).unwrap();
    assert_eq!(
        sorted(found),
        vec![
            "a".to_string(),
            "ab".to_string(),
            "abc".to_string(),
            "abd".to_string()
        ]
    );
}
