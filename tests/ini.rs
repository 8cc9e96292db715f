use pepper_core::command::TextRange;
use pepper_core::ini::{Ini, IniErrorKind};

fn slice(text: &str, range: TextRange) -> &str {
    &text[range.start..range.end]
}

fn get_sections(parser: &mut Ini, ini: &str) -> Vec<(String, Vec<(String, String)>)> {
    parser.clear();
    if let Err(error) = parser.parse(ini) {
        panic!("{} at {:?}", error.kind.message(), error.position);
    }
    parser
        .sections()
        .iter()
        .map(|s| {
            let properties = s
                .properties
                .iter()
                .map(|p| (slice(ini, p.key).to_string(), slice(ini, p.value).to_string()))
                .collect();
            (slice(ini, s.name).to_string(), properties)
        })
        .collect()
}

fn pair(k: &str, v: &str) -> (String, String) {
    (k.to_string(), v.to_string())
}

#[test]
fn valid() {
    let mut parser = Ini::new();

    let sections = get_sections(&mut parser, "");
    assert!(sections.is_empty());

    let sections = get_sections(
        &mut parser,
        "\n; comment\n[sec0]\nkey0=value0\n;key1=commented\nkey2=\n\n;[sec1]\n[ sec2 ]\nkey3=;value3\n[sec3]\n\n",
    );

    let mut sections = sections.into_iter();
    let (name, properties) = sections.next().unwrap();
    assert_eq!("sec0", name);
    let mut properties = properties.into_iter();
    assert_eq!(Some(pair("key0", "value0")), properties.next());
    assert_eq!(Some(pair("key2", "")), properties.next());
    assert_eq!(None, properties.next());

    let (name, properties) = sections.next().unwrap();
    assert_eq!(" sec2 ", name);
    let mut properties = properties.into_iter();
    assert_eq!(Some(pair("key3", ";value3")), properties.next());
    assert_eq!(None, properties.next());

    let (name, properties) = sections.next().unwrap();
    assert_eq!("sec3", name);
    assert!(properties.is_empty());

    assert!(sections.next().is_none());
}

fn get_error(ini: &str) -> IniErrorKind {
    let mut parser = Ini::new();
    match parser.parse(ini) {
        Ok(()) => panic!("ini parsed successfully"),
        Err(error) => error.kind,
    }
}

#[test]
fn invalid() {
    assert!(matches!(get_error("a=b"), IniErrorKind::ExpectedSection));
    assert!(matches!(get_error("[section]\na"), IniErrorKind::ExpectedEquals));
    assert!(matches!(get_error("[section"), IniErrorKind::ExpectedCloseSquareBrackets));
    assert!(matches!(get_error("[section] "), IniErrorKind::SectionNotEndedWithCloseSquareBrackets));
    assert!(matches!(get_error("[]"), IniErrorKind::EmptySectionName));
    assert!(matches!(get_error("[section]\n=b"), IniErrorKind::EmptyPropertyName));
}

#[test]
fn error_positions() {
    let mut parser = Ini::new();
    let error = parser.parse("[a]\nk=v\n;c\n=b").unwrap_err();
    assert_eq!(IniErrorKind::EmptyPropertyName, error.kind);
    assert_eq!(3, error.position.line_index);
    assert_eq!(0, error.position.column_byte_index);

    let error = parser.parse("[a]\nkey").unwrap_err();
    assert_eq!(IniErrorKind::ExpectedEquals, error.kind);
    assert_eq!((1, 3), (error.position.line_index, error.position.column_byte_index));

    let error = parser.parse("[abc").unwrap_err();
    assert_eq!((0, 4), (error.position.line_index, error.position.column_byte_index));

    let error = parser.parse("[ab] x").unwrap_err();
    assert_eq!((0, 3), (error.position.line_index, error.position.column_byte_index));
}

#[test]
fn error_position_moves_with_lines_above() {
    let mut parser = Ini::new();
    let base = parser.parse("[a]\n=b").unwrap_err();
    let shifted = parser.parse("[a]\n\n; note\nk=v\n=b").unwrap_err();
    assert_eq!(base.kind, shifted.kind);
    assert_eq!(base.position.line_index + 3, shifted.position.line_index);
    assert_eq!(base.position.column_byte_index, shifted.position.column_byte_index);
    let appended = parser.parse("[a]\n=b\nmore=1").unwrap_err();
    assert_eq!(base, appended);
}

#[test]
fn carriage_returns_are_dropped_from_line_ends() {
    let text = "[s]\r\nk=v\r\n";
    let mut parser = Ini::new();
    assert!(parser.parse(text).is_ok());
    let sections = parser.sections();
    assert_eq!("s", slice(text, sections[0].name));
    assert_eq!("v", slice(text, sections[0].properties[0].value));
}
