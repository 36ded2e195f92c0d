use inih::IniReader;

#[test]
fn reader_test_sections_and_keys() {
    let data = r#"
[section1]
key1=value1
key2=value2

[section2]
key3=value3
"#;

    let reader = IniReader::from_string(data).unwrap();

    let sections = reader.sections();
    assert_eq!(sections.len(), 2);
    assert!(sections.contains(&"section1".to_string()));
    assert!(sections.contains(&"section2".to_string()));

    let keys1 = reader.keys("section1");
    assert_eq!(keys1.len(), 2);
    assert!(keys1.contains(&"key1".to_string()));
    assert!(keys1.contains(&"key2".to_string()));

    assert!(reader.has_section("section1"));
    assert!(reader.has_value("section1", "key1"));
    assert!(!reader.has_value("section1", "key3"));
}

#[test]
fn reader_test_basic_parsing() {
    let data = r#"
[protocol]
version=6

[user]
name = Bob Smith
email = bob@smith.com
active = true
pi = 3.14159
"#;
    
    let reader = IniReader::from_string(data).unwrap();
    
    assert_eq!(reader.get_integer("protocol", "version", -1), 6);
    assert_eq!(reader.get_string("user", "name", "UNKNOWN"), "Bob Smith");
    assert_eq!(reader.get_string("user", "email", "UNKNOWN"), "bob@smith.com");
    assert_eq!(reader.get_boolean("user", "active", false), true);
}
