use scrabble_solver::dictionnary::{Dictionnary, Node};
use scrabble_solver::error::Error;

fn hand() -> Vec<char> {
    vec![
        'A', 'S', 'U', 'T', 'R', 'E', 'D', 'I', 'M', 'N', 'T', 'I', 'R', 'E',
    ]
}

#[test]
fn small_context_test() {
    let mut dict = Dictionnary::new();
    dict.add_word("RUST");
    dict.add_word("ALLIGATOR");
    dict.add_word("RUDIMENTAIRE");
    dict.add_word("RUSE");

    let letters_in_players_hand = vec![
        'A', 'S', 'U', 'T', 'R', 'E', 'D', 'I', 'M', 'N', 'T', 'I', 'R', 'E',
    ];

    let words = dict.get_words(letters_in_players_hand);

    assert!(words.contains(&String::from("RUST")));
    assert!(words.contains(&String::from("RUDIMENTAIRE")));
    assert!(words.contains(&String::from("RUSE")));
}

#[test]
fn save_and_load_bin_file_test() {
    let mut dict1 = Dictionnary::new();
    dict1.add_word("RUST");
    dict1.add_word("ALLIGATOR");
    dict1.add_word("RUDIMENTAIRE");
    dict1.add_word("RUSE");
    let mut file: Vec<u8> = Vec::new();
    dict1.save_to_bin_file(&mut file);

    let mut dict2 = Dictionnary::new();
    assert_eq!(dict2.load_bin_file(&file), Ok(()));

    let words = dict2.get_words(hand());
    assert!(words.contains(&String::from("RUST")));
    assert!(words.contains(&String::from("RUDIMENTAIRE")));
    assert!(words.contains(&String::from("RUSE")));
    assert!(!words.contains(&String::from("ALLIGATOR")));
    assert_eq!(words, dict1.get_words(hand()));

    let mut again: Vec<u8> = Vec::new();
    dict2.save_to_bin_file(&mut again);
    assert_eq!(again, file);
}

#[test]
fn new_dictionary_contains_nothing() {
    let dict = Dictionnary::new();
    assert!(!dict.contains(""));
    assert!(!dict.contains("A"));
    assert!(!dict.contains("RUST"));
    assert!(dict.get_words(hand()).is_empty());
}

#[test]
fn every_inserted_word_is_contained() {
    let list = ["RUST", "RUSE", "RUDIMENTAIRE", "ALLIGATOR", "A", "ZZZ"];
    let mut dict = Dictionnary::new();
    for word in list {
        dict.add_word(word);
    }
    for word in list {
        assert!(dict.contains(word));
    }
}

#[test]
fn only_inserted_words_are_contained() {
    let mut dict = Dictionnary::new();
    dict.add_word("RUST");
    dict.add_word("CARS");
    assert!(dict.contains("RUST"));
    assert!(dict.contains("CARS"));
    for other in ["", "R", "RU", "RUS", "RUSTS", "CAR", "CAT", "UST", "rust", "RÜST"] {
        assert!(!dict.contains(other));
    }
}

#[test]
fn inserting_a_prefix_keeps_the_longer_word() {
    let mut dict = Dictionnary::new();
    dict.add_word("CARS");
    assert!(!dict.contains("CAR"));
    dict.add_word("CAR");
    assert!(dict.contains("CAR"));
    assert!(dict.contains("CARS"));
    assert!(!dict.contains("CA"));
}

#[test]
fn inserting_a_longer_word_keeps_the_prefix() {
    let mut dict = Dictionnary::new();
    dict.add_word("CAR");
    dict.add_word("CARS");
    assert!(dict.contains("CAR"));
    assert!(dict.contains("CARS"));
}

#[test]
fn inserting_twice_changes_nothing() {
    let mut once = Dictionnary::new();
    once.add_word("RUST");
    once.add_word("RUSE");
    let mut twice = Dictionnary::new();
    twice.add_word("RUST");
    twice.add_word("RUSE");
    twice.add_word("RUST");
    twice.add_word("RUSE");

    let mut bytes_once: Vec<u8> = Vec::new();
    once.save_to_bin_file(&mut bytes_once);
    let mut bytes_twice: Vec<u8> = Vec::new();
    twice.save_to_bin_file(&mut bytes_twice);
    assert_eq!(bytes_once, bytes_twice);
}

#[test]
fn words_with_the_first_and_the_last_letter() {
    let mut dict = Dictionnary::new();
    dict.add_word("AZ");
    dict.add_word("ZA");
    assert!(dict.contains("AZ"));
    assert!(dict.contains("ZA"));
    assert!(!dict.contains("AA"));
    assert!(!dict.contains("ZZ"));
    assert_eq!(
        dict.get_words(vec!['Z', 'A']),
        vec![String::from("AZ"), String::from("ZA")]
    );
}

#[test]
fn node_insert_and_contains() {
    let mut node = Node::new();
    assert!(!node.is_end_of_word());
    assert!(node.child('C').is_none());
    node.insert("CAT");
    assert!(node.contains("CAT"));
    assert!(!node.contains("CA"));
    assert!(!node.is_end_of_word());
    let c = node.child('C').unwrap();
    assert!(c.contains("AT"));
    assert!(!c.is_end_of_word());
    let t = c.child('A').unwrap().child('T').unwrap();
    assert!(t.is_end_of_word());
    assert!(t.contains(""));
    assert!(node.child('D').is_none());
    assert!(node.child('c').is_none());
    assert!(node.child('é').is_none());
}

#[test]
fn node_set_child_and_set_end_of_word() {
    let mut leaf = Node::new();
    leaf.set_end_of_word(true);
    assert!(leaf.is_end_of_word());
    assert!(leaf.contains(""));

    let mut root = Node::new();
    root.set_child('Q', leaf);
    assert!(root.contains("Q"));
    assert!(!root.contains(""));
    assert!(root.child('Q').unwrap().is_end_of_word());
    assert!(root.child('P').is_none());
    assert!(root.child('R').is_none());

    let mut other = Node::new();
    other.insert("A");
    root.set_child('Q', other);
    assert!(!root.contains("Q"));
    assert!(root.contains("QA"));

    root.set_end_of_word(true);
    assert!(root.contains(""));
    root.set_end_of_word(false);
    assert!(!root.contains(""));
    assert!(root.contains("QA"));
}

#[test]
fn dictionary_from_root_and_root() {
    let mut root = Node::new();
    root.insert("CAR");
    let dict = Dictionnary::from_root(root);
    assert!(dict.contains("CAR"));
    assert!(dict.root().contains("CAR"));
    assert!(dict.root().child('C').is_some());
}

#[test]
fn add_line_takes_a_word_in_any_case() {
    let mut dict = Dictionnary::new();
    assert_eq!(dict.add_line("rust"), Ok(()));
    assert_eq!(dict.add_line("Ruse"), Ok(()));
    assert_eq!(dict.add_line("ALLIGATOR"), Ok(()));
    assert!(dict.contains("RUST"));
    assert!(dict.contains("RUSE"));
    assert!(dict.contains("ALLIGATOR"));
    assert!(!dict.contains("rust"));
}

#[test]
fn add_line_turns_down_what_is_no_word() {
    let mut dict = Dictionnary::new();
    dict.add_word("CAR");
    let mut before: Vec<u8> = Vec::new();
    dict.save_to_bin_file(&mut before);
    for line in ["", " ", "car pool", "car's", "c4r", "déjà", "car\r"] {
        assert_eq!(dict.add_line(line), Err(Error::InvalidInput));
    }
    let mut after: Vec<u8> = Vec::new();
    dict.save_to_bin_file(&mut after);
    assert_eq!(after, before);
}
