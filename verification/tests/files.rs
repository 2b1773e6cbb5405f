use scrabble_solver::files::{ends_with, input_kind, output_kind, FileKind};

#[test]
fn ends_with_a_suffix() {
    assert!(ends_with("dict.json", ".json"));
    assert!(ends_with("dict.json", "json"));
    assert!(ends_with("dict.json", ""));
    assert!(ends_with("", ""));
    assert!(ends_with(".json", ".json"));
    assert!(ends_with("dictionnaire.été", "été"));
}

#[test]
fn does_not_end_with_it() {
    assert!(!ends_with("dict.json", ".bin"));
    assert!(!ends_with("json", ".json"));
    assert!(!ends_with("", "x"));
    assert!(!ends_with("dict.jsonl", ".json"));
    assert!(!ends_with("dict.json.bak", ".json"));
    assert!(!ends_with("dict.JSON", ".json"));
    assert!(!ends_with("dict.xson", ".json"));
}

#[test]
fn kind_of_the_file_to_read() {
    assert_eq!(input_kind("dict.json"), FileKind::Json);
    assert_eq!(input_kind("saves/dict.bin"), FileKind::Bin);
    assert_eq!(input_kind("wordlists/words_alpha.txt"), FileKind::WordList);
    assert_eq!(input_kind("words"), FileKind::WordList);
    assert_eq!(input_kind(""), FileKind::WordList);
    assert_eq!(input_kind("dict.bin.json"), FileKind::Json);
    assert_eq!(input_kind("dict.json.bin"), FileKind::Bin);
    assert_eq!(input_kind("dict.json.txt"), FileKind::WordList);
    assert_eq!(input_kind("bin"), FileKind::WordList);
}

#[test]
fn kind_of_the_file_to_write() {
    assert_eq!(output_kind("dict.bin", false), FileKind::Bin);
    assert_eq!(output_kind("dict.json", false), FileKind::Json);
    assert_eq!(output_kind("dict.bin", true), FileKind::Json);
    assert_eq!(output_kind("dict.json", true), FileKind::Json);
    assert_eq!(output_kind("dict", false), FileKind::Bin);
    assert_eq!(output_kind("dict.txt", false), FileKind::Bin);
    assert_eq!(output_kind("", true), FileKind::Json);
}
