use scrabble_solver::error::Error;
use scrabble_solver::dictionnary::{Dictionnary, Node};

fn dictionary(words: &[&str]) -> Dictionnary {
    let mut dict = Dictionnary::new();
    for word in words {
        dict.add_word(word);
    }
    dict
}

fn bytes_of(dict: &Dictionnary) -> Vec<u8> {
    let mut bytes: Vec<u8> = Vec::new();
    dict.save_to_bin_file(&mut bytes);
    bytes
}

fn load(bytes: &[u8]) -> Result<Dictionnary, Error> {
    let mut dict = Dictionnary::new();
    dict.load_bin_file(bytes)?;
    Ok(dict)
}

#[test]
fn the_empty_dictionary_is_two_zero_bytes() {
    assert_eq!(bytes_of(&Dictionnary::new()), vec![0u8, 0]);
}

#[test]
fn one_word_byte_by_byte() {
    assert_eq!(
        bytes_of(&dictionary(&["AB"])),
        vec![0u8, 1, b'A', 0, 1, b'B', 1, 0]
    );
}

#[test]
fn children_are_written_in_alphabet_order() {
    let expected = vec![
        0u8, 2, //
        b'A', 1, 1, //
        b'B', 1, 0, //
        b'Z', 1, 0,
    ];
    assert_eq!(bytes_of(&dictionary(&["Z", "AB", "A"])), expected);
    assert_eq!(bytes_of(&dictionary(&["A", "AB", "Z"])), expected);
    assert_eq!(bytes_of(&dictionary(&["AB", "Z", "A", "Z"])), expected);
}

#[test]
fn save_appends_to_the_sink() {
    let mut sink = vec![7u8, 8, 9];
    dictionary(&["A"]).save_to_bin_file(&mut sink);
    assert_eq!(sink, vec![7u8, 8, 9, 0, 1, b'A', 1, 0]);
}

#[test]
fn load_gives_back_what_was_saved() {
    let list = ["RUST", "RUSE", "RUDIMENTAIRE", "ALLIGATOR", "A", "ZZZ"];
    let dict = dictionary(&list);
    let bytes = bytes_of(&dict);
    let loaded = load(&bytes).unwrap();
    for word in list {
        assert!(loaded.contains(word));
    }
    for other in ["", "R", "RUS", "ZZ", "ALLIGATORS"] {
        assert!(!loaded.contains(other));
    }
    assert_eq!(bytes_of(&loaded), bytes);
}

#[test]
fn load_takes_children_in_any_order() {
    let bytes = vec![
        0u8, 2, //
        b'Z', 1, 0, //
        b'A', 1, 1, //
        b'B', 1, 0,
    ];
    let dict = load(&bytes).unwrap();
    assert!(dict.contains("Z"));
    assert!(dict.contains("A"));
    assert!(dict.contains("AB"));
    assert!(!dict.contains("B"));
    assert_eq!(bytes_of(&dict), bytes_of(&dictionary(&["A", "AB", "Z"])));
}

#[test]
fn a_later_child_replaces_an_earlier_one_under_the_same_letter() {
    let bytes = vec![
        0u8, 2, //
        b'A', 1, 0, //
        b'A', 0, 1, //
        b'B', 1, 0,
    ];
    let dict = load(&bytes).unwrap();
    assert!(!dict.contains("A"));
    assert!(dict.contains("AB"));
}

#[test]
fn load_ignores_what_follows_the_tree() {
    let dict = load(&[0u8, 1, b'A', 1, 0, 0xff, 0xff]).unwrap();
    assert!(dict.contains("A"));
    assert_eq!(bytes_of(&dict), vec![0u8, 1, b'A', 1, 0]);
}

#[test]
fn load_keeps_a_terminal_root() {
    let dict = load(&[1u8, 0]).unwrap();
    assert!(dict.contains(""));
    assert!(dict.get_words(vec!['A']).is_empty());
}

#[test]
fn load_fails_on_truncated_input() {
    assert_eq!(load(&[]).err(), Some(Error::MalformedInput));
    assert_eq!(load(&[0]).err(), Some(Error::MalformedInput));
    assert_eq!(load(&[0, 1]).err(), Some(Error::MalformedInput));
    assert_eq!(load(&[0, 1, b'A']).err(), Some(Error::MalformedInput));
    assert_eq!(load(&[0, 1, b'A', 1]).err(), Some(Error::MalformedInput));
    assert_eq!(
        load(&[0, 2, b'A', 1, 0]).err(),
        Some(Error::MalformedInput)
    );
    let full = bytes_of(&dictionary(&["RUST", "RUSE"]));
    for cut in 0..full.len() {
        assert_eq!(load(&full[..cut]).err(), Some(Error::MalformedInput));
    }
    assert!(load(&full).is_ok());
}

#[test]
fn load_fails_on_reserved_header_bits() {
    assert_eq!(load(&[2, 0]).err(), Some(Error::MalformedInput));
    assert_eq!(load(&[3, 0]).err(), Some(Error::MalformedInput));
    assert_eq!(load(&[0x80, 0]).err(), Some(Error::MalformedInput));
    assert_eq!(
        load(&[0, 1, b'A', 0x11, 0]).err(),
        Some(Error::MalformedInput)
    );
}

#[test]
fn load_fails_on_too_many_children() {
    assert_eq!(load(&[0, 27]).err(), Some(Error::MalformedInput));
    assert_eq!(load(&[0, 255]).err(), Some(Error::MalformedInput));
    let mut bytes = vec![0u8, 27];
    for _ in 0..27 {
        bytes.extend_from_slice(&[b'A', 1, 0]);
    }
    assert_eq!(load(&bytes).err(), Some(Error::MalformedInput));
}

#[test]
fn load_takes_twenty_six_children() {
    let mut bytes = vec![0u8, 26];
    for letter in b'A'..=b'Z' {
        bytes.extend_from_slice(&[letter, 1, 0]);
    }
    let dict = load(&bytes).unwrap();
    assert!(dict.contains("A"));
    assert!(dict.contains("M"));
    assert!(dict.contains("Z"));
    assert_eq!(bytes_of(&dict), bytes);
}

#[test]
fn load_fails_on_a_child_under_a_byte_that_is_no_letter() {
    for letter in [0u8, b'@', b'[', b'a', b'z', b'1', 0xc9, 0xff] {
        assert_eq!(
            load(&[0, 1, letter, 1, 0]).err(),
            Some(Error::MalformedInput)
        );
    }
    assert!(load(&[0, 1, b'A', 1, 0]).is_ok());
    assert!(load(&[0, 1, b'Z', 1, 0]).is_ok());
}

#[test]
fn a_failed_load_leaves_the_dictionary_as_it_was() {
    let mut dict = dictionary(&["CAR", "CAT"]);
    let before = bytes_of(&dict);
    assert_eq!(dict.load_bin_file(&[0, 3, b'A']), Err(Error::MalformedInput));
    assert_eq!(bytes_of(&dict), before);
    assert!(dict.contains("CAR"));
}

#[test]
fn a_load_replaces_the_dictionary() {
    let mut dict = dictionary(&["CAR", "CAT"]);
    assert_eq!(dict.load_bin_file(&[0, 1, b'A', 1, 0]), Ok(()));
    assert!(dict.contains("A"));
    assert!(!dict.contains("CAR"));
}

#[test]
fn node_encode_and_decode() {
    let mut node = Node::new();
    node.insert("AB");
    let mut bytes = vec![9u8];
    node.encode_into(&mut bytes);
    assert_eq!(bytes, vec![9u8, 0, 1, b'A', 0, 1, b'B', 1, 0]);
    bytes.push(5);

    let (read, end) = Node::decode_from(&bytes, 1).unwrap();
    assert_eq!(end, 9);
    assert!(read.contains("AB"));
    assert!(!read.contains("A"));

    let (inner, end) = Node::decode_from(&bytes, 4).unwrap();
    assert_eq!(end, 9);
    assert!(inner.contains("B"));

    assert_eq!(
        Node::decode_from(&bytes, 8).err(),
        Some(Error::MalformedInput)
    );
    assert_eq!(
        Node::decode_from(&bytes, 10).err(),
        Some(Error::MalformedInput)
    );
}

#[test]
fn many_dictionaries_come_back_as_they_were() {
    let mut state: u64 = 7;
    for round in 0..30 {
        let mut list: Vec<String> = Vec::new();
        for _ in 0..(round * 3) {
            state = state
                .wrapping_mul(6364136223846793005)
                .wrapping_add(1442695040888963407);
            let mut bits = state >> 20;
            let len = 1 + bits % 6;
            bits /= 6;
            let mut word = String::new();
            for _ in 0..len {
                word.push((b'A' + (bits % 26) as u8) as char);
                bits /= 26;
            }
            list.push(word);
        }
        let mut forward = Dictionnary::new();
        for word in &list {
            forward.add_word(word);
        }
        let mut backward = Dictionnary::new();
        for word in list.iter().rev() {
            backward.add_word(word);
        }
        let bytes = bytes_of(&forward);
        assert_eq!(bytes_of(&backward), bytes);

        let loaded = load(&bytes).unwrap();
        assert_eq!(bytes_of(&loaded), bytes);
        for word in &list {
            assert!(loaded.contains(word));
        }
        let rack: Vec<char> = ('A'..='Z').collect();
        assert_eq!(loaded.get_words(rack.clone()), forward.get_words(rack));
    }
}
