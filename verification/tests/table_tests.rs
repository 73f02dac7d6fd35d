use engine::table::Table;

#[test]
fn table_keeps_one_entry_per_key() {
    let mut t: Table<String> = Table::new();
    t.insert("a".to_string(), "1".to_string());
    t.insert("b".to_string(), "2".to_string());
    t.insert("a".to_string(), "3".to_string());
    assert_eq!(t.keys(), vec!["a", "b"]);
    assert_eq!(t.get("a"), Some(&"3".to_string()));
    assert!(t.contains("b"));
    t.remove("a");
    assert!(!t.contains("a"));
    assert_eq!(t.get("a"), None);
    assert_eq!(t.keys(), vec!["b"]);
}

#[test]
fn environment_of_a_new_file_system() {
    let vfs = engine::vfs::Vfs::new();
    assert_eq!(vfs.env_var("HOME"), Some("/".to_string()));
    assert_eq!(vfs.env_var("PATH"), Some("/bin".to_string()));
}
