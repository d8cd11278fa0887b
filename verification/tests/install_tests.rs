use mdbook_obgraph::install::add_preprocessor_entry;

#[test]
fn entry_added_to_empty_config() {
    assert_eq!(
        add_preprocessor_entry(""),
        Some("\n[preprocessor.obgraph]\n".to_string())
    );
}

#[test]
fn entry_added_after_missing_newline() {
    assert_eq!(
        add_preprocessor_entry("[book]\ntitle = \"x\""),
        Some("[book]\ntitle = \"x\"\n\n[preprocessor.obgraph]\n".to_string())
    );
}

#[test]
fn entry_added_after_final_newline() {
    assert_eq!(
        add_preprocessor_entry("[book]\n"),
        Some("[book]\n\n[preprocessor.obgraph]\n".to_string())
    );
}

#[test]
fn entry_already_present_is_not_added() {
    assert_eq!(
        add_preprocessor_entry("[book]\n\n[preprocessor.obgraph]\ncommand = \"x\"\n"),
        None
    );
}

#[test]
fn adding_twice_changes_nothing_the_second_time() {
    let once = add_preprocessor_entry("[book]\ntitle = \"é\"").unwrap();
    assert_eq!(add_preprocessor_entry(&once), None);
}
