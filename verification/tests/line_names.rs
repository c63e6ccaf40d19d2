use tree_craft::line::{extract_name, is_directory, name_of_chars, stored_len, strip_glyphs};
use tree_craft::line::{is_directory_chars, CONNECTOR, CORNER, PIPE, TEE};

fn chars(text: &str) -> Vec<char> {
    text.chars().collect()
}

#[test]
fn the_glyphs_are_the_box_drawing_characters() {
    assert_eq!(PIPE, '\u{2502}');
    assert_eq!(TEE, '\u{251C}');
    assert_eq!(CORNER, '\u{2514}');
    assert_eq!(CONNECTOR, '\u{2500}');
}

#[test]
fn a_name_loses_its_drawing_characters() {
    assert_eq!(extract_name("├── src/"), "src/");
    assert_eq!(extract_name("│   └── main.txt"), "main.txt");
    assert_eq!(extract_name("└── README.md"), "README.md");
    assert_eq!(extract_name("project/"), "project/");
}

#[test]
fn drawing_characters_are_taken_out_wherever_they_stand() {
    assert_eq!(extract_name("├── my─file.txt"), "myfile.txt");
    assert_eq!(extract_name("├── a│b├c└d─e"), "abcde");
    assert_eq!(extract_name("name ──"), "name");
    let stripped: String = strip_glyphs(&chars("│ ├─└ x ─")).into_iter().collect();
    assert_eq!(stripped, "  x ");
}

#[test]
fn a_name_is_trimmed() {
    assert_eq!(extract_name("   project/   "), "project/");
    assert_eq!(extract_name("├──\tname\t"), "name");
    assert_eq!(extract_name("├── \u{00A0}name\u{3000}"), "name");
    assert_eq!(extract_name("├── two words.txt  "), "two words.txt");
}

#[test]
fn a_comment_is_cut_off() {
    assert_eq!(extract_name("│   └── main.txt  # entry point"), "main.txt");
    assert_eq!(extract_name("├── a#b"), "a");
    assert_eq!(extract_name("├── a # b # c"), "a");
    assert_eq!(extract_name("project/ # the root"), "project/");
}

#[test]
fn a_line_that_names_nothing_has_an_empty_name() {
    assert_eq!(extract_name(""), "");
    assert_eq!(extract_name("    "), "");
    assert_eq!(extract_name("# only a comment"), "");
    assert_eq!(extract_name("│"), "");
    assert_eq!(extract_name("│   ├── # nothing here"), "");
    assert_eq!(extract_name("├──"), "");
}

#[test]
fn a_glyph_before_the_comment_mark_does_not_hide_it() {
    assert_eq!(extract_name("├── name ─# rest"), "name");
    assert_eq!(extract_name("├── na#me ── x"), "na");
}

#[test]
fn names_on_characters_agree_with_names_on_strings() {
    for line in ["├── src/", "  x # y", "", "│   └── a.b  ", "#"] {
        let name: String = name_of_chars(&chars(line)).into_iter().collect();
        assert_eq!(name, extract_name(line));
    }
}

#[test]
fn a_name_ending_in_a_separator_is_a_directory() {
    assert!(is_directory("src/"));
    assert!(is_directory("archive.tar/"));
    assert!(is_directory("a/b.d/"));
    assert!(is_directory("/"));
    assert!(is_directory("name//"));
}

#[test]
fn a_name_without_a_dot_in_its_last_segment_is_a_directory() {
    assert!(is_directory("src"));
    assert!(is_directory("Makefile"));
    assert!(is_directory("a.b/c"));
    assert!(is_directory("v1.2/bin"));
    assert!(is_directory(""));
    assert!(is_directory("two words"));
}

#[test]
fn a_name_with_a_dot_in_its_last_segment_is_a_file() {
    assert!(!is_directory("main.txt"));
    assert!(!is_directory("README.md"));
    assert!(!is_directory(".gitignore"));
    assert!(!is_directory("a/b.txt"));
    assert!(!is_directory("dir/sub/x.y.z"));
    assert!(!is_directory("."));
    assert!(!is_directory("trailing."));
    assert!(!is_directory("a/."));
}

#[test]
fn classification_on_characters_agrees_with_classification_on_strings() {
    for name in ["src/", "src", "a.b", "a.b/c", "a/b.c", "", "/", ".", "x/"] {
        assert_eq!(is_directory_chars(&chars(name)), is_directory(name));
    }
}

#[test]
fn the_stored_name_has_no_separator_at_its_end() {
    assert_eq!(stored_len(&chars("src/")), 3);
    assert_eq!(stored_len(&chars("src")), 3);
    assert_eq!(stored_len(&chars("src///")), 3);
    assert_eq!(stored_len(&chars("a/b/")), 3);
    assert_eq!(stored_len(&chars("/")), 0);
    assert_eq!(stored_len(&chars("//")), 0);
    assert_eq!(stored_len(&chars("")), 0);
    assert_eq!(stored_len(&chars("/a")), 2);
}
