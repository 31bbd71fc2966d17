use lifetimes::{count_shared_letters, find_difference, UniqueWords};

#[test]
fn main() {
    let first_sentence = String::from("I hate the surf and the sand.");
    let second_sentence = String::from("I love the surf and the sand.");

    let first_only = {
        let third_sentence = String::from("I love the snow and the sand.");
        let diff = find_difference(&first_sentence, &third_sentence);
        diff.first_only
    };

    assert_eq!(first_only, vec!["hate", "surf"]);

    let second_only = {
        let third_sentence = String::from("I love the snow and the sand.");
        let diff = find_difference(&third_sentence, &second_sentence);
        diff.second_only
    };

    assert_eq!(second_only, vec!["surf"]);
}

#[test]
fn difference_is_sorted_and_distinct() {
    let diff = find_difference("b a b c zz", "c");
    assert_eq!(diff.first_only, vec!["a", "b", "zz"]);
    assert!(diff.second_only.is_empty());
    let diff = find_difference("", "x  y");
    assert!(diff.first_only.is_empty());
    assert_eq!(diff.second_only, vec!["x", "y"]);
    let diff = find_difference("ab a é Z", "ab");
    assert_eq!(diff.first_only, vec!["Z", "a", "é"]);
}

#[test]
fn shared_letters_counted_once() {
    assert_eq!(count_shared_letters("Two roads diverged in a yellow wood.", "A sky full of stars."), 8);
    assert_eq!(count_shared_letters("aaa", "a"), 1);
    assert_eq!(count_shared_letters("", "abc"), 0);
    assert_eq!(count_shared_letters("ab", "cd"), 0);
}

#[test]
fn unique_words_sorted() {
    let words = UniqueWords::new("the hound and the fox liked the son of the fox");
    assert_eq!(words.sentence(), "the hound and the fox liked the son of the fox");
    assert_eq!(
        words.get_sorted_words(),
        vec!["and", "fox", "hound", "liked", "of", "son", "the"]
    );
}
