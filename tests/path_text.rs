use node_modules_cleaner::path_text::{
    contains_multiple_node_modules, count_occurrences_exec, display_name_of, file_name_of,
    parent_name_of, relative_path_of,
};

#[test]
fn single_occurrence_is_not_multiple() {
    assert!(!contains_multiple_node_modules("/r/a/node_modules"));
    assert!(!contains_multiple_node_modules("/r/a/b"));
}

#[test]
fn nested_target_is_multiple() {
    assert!(contains_multiple_node_modules("/r/node_modules/dep/node_modules"));
}

#[test]
fn occurrence_count_is_literal_text() {
    // A segment that merely holds the name as text counts too.
    assert!(contains_multiple_node_modules("/r/my_node_modules_backup/node_modules"));
    assert_eq!(count_occurrences_exec("aaaa", "aa"), 2);
    assert_eq!(count_occurrences_exec("abcabc", "bc"), 2);
    assert_eq!(count_occurrences_exec("abc", ""), 0);
    assert_eq!(count_occurrences_exec("ab", "abc"), 0);
}

#[test]
fn final_segment() {
    assert_eq!(file_name_of("/r/a/node_modules"), "node_modules");
    assert_eq!(file_name_of("node_modules"), "node_modules");
    assert_eq!(file_name_of("/r/a/"), "");
}

#[test]
fn parent_names() {
    assert_eq!(parent_name_of("/r/a/node_modules"), "a");
    assert_eq!(parent_name_of("/node_modules"), "");
    assert_eq!(parent_name_of("node_modules"), "");
    assert_eq!(parent_name_of("./node_modules"), "");
    assert_eq!(parent_name_of("../node_modules"), "");
    assert_eq!(parent_name_of("x/.a/node_modules"), ".a");
}

#[test]
fn parent_names_follow_path_components() {
    assert_eq!(parent_name_of("x/./node_modules"), "x");
    assert_eq!(parent_name_of("x//node_modules"), "x");
    assert_eq!(parent_name_of("/r/a/././node_modules"), "a");
    assert_eq!(parent_name_of("x/../node_modules"), "");
    assert_eq!(parent_name_of("/./node_modules"), "");
    assert_eq!(parent_name_of("x/a./node_modules"), "a.");
    assert_eq!(parent_name_of("x/..a/node_modules"), "..a");
}

#[test]
fn display_names_under_unnormalised_roots() {
    assert_eq!(display_name_of("x/./node_modules", "x/."), Some(".../x".to_string()));
    assert_eq!(display_name_of("x//node_modules", "x/"), Some(".../x".to_string()));
    assert_eq!(display_name_of("x/../node_modules", "x/.."), Some("node_modules".to_string()));
}

#[test]
fn relative_paths() {
    assert_eq!(relative_path_of("/r/a/node_modules", "/r"), Some("a/node_modules".to_string()));
    assert_eq!(relative_path_of("/r/a/node_modules", "/r/"), Some("a/node_modules".to_string()));
    assert_eq!(relative_path_of("/r", "/r"), Some(String::new()));
    assert_eq!(relative_path_of("/ra/node_modules", "/r"), None);
    assert_eq!(relative_path_of("/x/node_modules", "/r"), None);
    assert_eq!(relative_path_of("/x/node_modules", ""), Some("/x/node_modules".to_string()));
}

#[test]
fn display_names() {
    assert_eq!(display_name_of("/r/a/node_modules", "/r"), Some(".../a".to_string()));
    assert_eq!(display_name_of("/node_modules", "/"), Some("node_modules".to_string()));
    assert_eq!(display_name_of("./node_modules", "."), Some("node_modules".to_string()));
    assert_eq!(display_name_of("/x/node_modules", "/r"), None);
}
