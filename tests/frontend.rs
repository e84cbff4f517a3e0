use ascii_art::listing::parse_input_line;
use ascii_art::service::{field_name_from_content_disposition, status_message};

#[test]
fn status_messages() {
    assert_eq!(status_message(200), "OK");
    assert_eq!(status_message(204), "No Data");
    assert_eq!(status_message(400), "Bad Request");
    assert_eq!(status_message(500), "Internal Server Error");
    assert_eq!(status_message(404), "Unknown Status Type");
}

#[test]
fn field_names() {
    assert_eq!(field_name_from_content_disposition("form-data; name=\"font\""), Some("font"));
    assert_eq!(
        field_name_from_content_disposition("form-data; name=\"file\"; filename=\"a.png\""),
        Some("file")
    );
    assert_eq!(field_name_from_content_disposition("form-data; filename=\"a.png\""), Some("a.png"));
    assert_eq!(field_name_from_content_disposition("form-data; name=\"\""), Some(""));
    assert_eq!(field_name_from_content_disposition("form-data; name=\"é\""), Some("é"));
    assert_eq!(field_name_from_content_disposition("form-data; name=\"open"), None);
    assert_eq!(field_name_from_content_disposition("form-data"), None);
    assert_eq!(field_name_from_content_disposition(""), None);
}

#[test]
fn input_lines() {
    assert_eq!(
        parse_input_line("Inconsolata, 8 9 10 12 16 18 24"),
        Ok(("Inconsolata".to_string(), vec![8, 9, 10, 12, 16, 18, 24]))
    );
    assert_eq!(
        parse_input_line("  Liberation Mono ,\t8  +9 70000 x 12"),
        Ok(("Liberation Mono".to_string(), vec![8, 9, 12]))
    );
    assert_eq!(parse_input_line("Terminus 8 9"), Err("improper input format".to_string()));
    assert_eq!(parse_input_line("a, 8, 9"), Err("improper input format".to_string()));
    assert_eq!(parse_input_line("   , 8 9"), Err("no valid font name".to_string()));
    assert_eq!(parse_input_line("Mono, x -3 +"), Err("no valid font sizes".to_string()));
    assert_eq!(parse_input_line("Mono,"), Err("no valid font sizes".to_string()));
    assert_eq!(parse_input_line("Ünï, 65535"), Ok(("Ünï".to_string(), vec![65535])));
    assert_eq!(parse_input_line("F, 8\u{A0}9"), Ok(("F".to_string(), vec![8, 9])));
    assert_eq!(
        parse_input_line("\u{3000}Deja Vu\u{2003}, 10\u{2028}12"),
        Ok(("Deja Vu".to_string(), vec![10, 12]))
    );
    assert_eq!(parse_input_line("\u{85}\u{1680}, 8"), Err("no valid font name".to_string()));
}
