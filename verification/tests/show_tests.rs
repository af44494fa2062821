use iox_core::show::{show_field_keys, ShowError};

fn render(input: &str) -> String {
    let (stmt, _) = show_field_keys(input.as_bytes()).unwrap();
    String::from_utf8(stmt.to_text()).unwrap()
}

#[test]
fn test_show_field_keys() {
    // No optional clauses.
    assert_eq!(render("FIELD KEYS"), "SHOW FIELD KEYS");

    assert_eq!(render("FIELD KEYS ON db"), "SHOW FIELD KEYS ON db");

    // Measurement selection using name.
    assert_eq!(render("FIELD KEYS FROM db..foo"), "SHOW FIELD KEYS FROM db..foo");

    // Measurement selection using regex.
    assert_eq!(render("FIELD KEYS FROM /foo/"), "SHOW FIELD KEYS FROM /foo/");

    // Measurement selection using a list.
    assert_eq!(
        render("FIELD KEYS FROM /foo/ , bar, \"foo bar\""),
        "SHOW FIELD KEYS FROM /foo/, bar, \"foo bar\""
    );

    assert_eq!(render("FIELD KEYS LIMIT 1"), "SHOW FIELD KEYS LIMIT 1");

    assert_eq!(render("FIELD KEYS OFFSET 2"), "SHOW FIELD KEYS OFFSET 2");

    // All optional clauses.
    assert_eq!(
        render("FIELD KEYS ON db FROM /foo/ LIMIT 1 OFFSET 2"),
        "SHOW FIELD KEYS ON db FROM /foo/ LIMIT 1 OFFSET 2"
    );

    // Fallible cases.
    assert_eq!(show_field_keys(b"FIELD ON db").err().unwrap(), ShowError::ExpectedKeys);
}

#[test]
fn test_show_field_keys_values() {
    // The parsed clauses carry the given values.
    let (stmt, rest) = show_field_keys(b"field keys on mydb limit 3 offset 9").unwrap();
    assert_eq!(stmt.database, Some(b"mydb".to_vec()));
    assert!(stmt.from.is_none());
    assert_eq!(stmt.limit, Some(3));
    assert_eq!(stmt.offset, Some(9));
    assert_eq!(rest, b"field keys on mydb limit 3 offset 9".len());
}
