use i18n_hunt::settings::{parse_settings, SettingsError};

fn strings(items: &[&str]) -> Vec<String> {
    items.iter().map(|s| s.to_string()).collect()
}

#[test]
fn readme_settings_file_is_read() {
    let text = "locales = \"./public/locales/en-US\"\nsrc = \"./src\"\n\n# Optional\nsrc_exclude = [\"**/*.test.ts\", \"legacy/**\"]\nlocales_exclude = [\"Legacy/**\"]\n";
    let settings = parse_settings(text).unwrap();
    assert_eq!(settings.locales, Some("./public/locales/en-US".to_string()));
    assert_eq!(settings.src, Some("./src".to_string()));
    assert_eq!(settings.src_exclude, Some(strings(&["**/*.test.ts", "legacy/**"])));
    assert_eq!(settings.locales_exclude, Some(strings(&["Legacy/**"])));
}

#[test]
fn empty_file_sets_nothing() {
    let settings = parse_settings("").unwrap();
    assert_eq!(settings.locales, None);
    assert_eq!(settings.src, None);
    assert_eq!(settings.src_exclude, None);
    assert_eq!(settings.locales_exclude, None);
}

#[test]
fn blank_lines_comments_and_crlf_are_accepted() {
    let text = "  # heading\r\n\r\n  locales   =   \"l\"   # trailing comment\r\nsrc=\"s\"\r\n";
    let settings = parse_settings(text).unwrap();
    assert_eq!(settings.locales, Some("l".to_string()));
    assert_eq!(settings.src, Some("s".to_string()));
}

#[test]
fn arrays_may_be_empty_or_end_with_a_comma() {
    let settings = parse_settings("src_exclude = []\nlocales_exclude = [ \"a\" , \"b\", ]").unwrap();
    assert_eq!(settings.src_exclude, Some(Vec::new()));
    assert_eq!(settings.locales_exclude, Some(strings(&["a", "b"])));
}

#[test]
fn unknown_keys_are_ignored() {
    let settings = parse_settings("output = \"json\"\nsrc = \"s\"").unwrap();
    assert_eq!(settings.src, Some("s".to_string()));
    assert_eq!(settings.locales, None);
}

#[test]
fn invalid_line_is_reported_with_its_number() {
    assert_eq!(parse_settings("src = \"s\"\nthis is not a setting\n").err(), Some(SettingsError::InvalidLine(2)));
    assert_eq!(parse_settings("src = \"unterminated").err(), Some(SettingsError::InvalidLine(1)));
    assert_eq!(parse_settings("src = \"s\" extra").err(), Some(SettingsError::InvalidLine(1)));
    assert_eq!(parse_settings("= \"s\"").err(), Some(SettingsError::InvalidLine(1)));
    assert_eq!(parse_settings("src = \"a\\qb\"").err(), Some(SettingsError::InvalidLine(1)));
    assert_eq!(parse_settings("src = 'no end").err(), Some(SettingsError::InvalidLine(1)));
    assert_eq!(parse_settings("src_exclude = [\"a\" \"b\"]").err(), Some(SettingsError::InvalidLine(1)));
}

#[test]
fn wrong_type_is_reported() {
    assert_eq!(parse_settings("\n\nsrc = [\"s\"]").err(), Some(SettingsError::WrongType(3)));
    assert_eq!(parse_settings("src_exclude = \"a/**\"").err(), Some(SettingsError::WrongType(1)));
}

#[test]
fn duplicate_key_is_reported() {
    assert_eq!(
        parse_settings("locales = \"a\"\nlocales = \"b\"").err(),
        Some(SettingsError::DuplicateKey(2))
    );
}

#[test]
fn first_fault_wins() {
    assert_eq!(parse_settings("bad line\nsrc = [\"s\"]").err(), Some(SettingsError::InvalidLine(1)));
}

#[test]
fn arrays_may_span_lines_with_comments() {
    let text = "src_exclude = [\n  \"a/**\",  # first\n  # a comment line\n  'b/**',\n]\nsrc = \"s\"\nlocales = [\n";
    assert_eq!(parse_settings(text).err(), Some(SettingsError::InvalidLine(7)));
    let text = "src_exclude = [\n  \"a/**\",  # first\n  # a comment line\n  'b/**',\n]\nsrc = \"s\"\n";
    let settings = parse_settings(text).unwrap();
    assert_eq!(settings.src_exclude, Some(strings(&["a/**", "b/**"])));
    assert_eq!(settings.src, Some("s".to_string()));
    assert_eq!(parse_settings("\nlocales_exclude = [\n\"a\"\n").err(), Some(SettingsError::InvalidLine(2)));
    assert_eq!(parse_settings("src = \"a\" src_exclude = []").err(), Some(SettingsError::InvalidLine(1)));
    assert_eq!(parse_settings("src =\n\"a\"").err(), Some(SettingsError::InvalidLine(1)));
}

#[test]
fn escapes_and_literal_strings_are_read() {
    let settings = parse_settings("src = \"a\\\\b\\t\\\"q\\\"\"\nlocales = 'C:\\x\\y'\nsrc_exclude = ['*.js', \"*.ts\"]").unwrap();
    assert_eq!(settings.src, Some("a\\b\t\"q\"".to_string()));
    assert_eq!(settings.locales, Some("C:\\x\\y".to_string()));
    assert_eq!(settings.src_exclude, Some(strings(&["*.js", "*.ts"])));
}
