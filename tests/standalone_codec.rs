use asc100::standalone::{ASC100Error, ASCExtension, ASC100};

#[test]
fn test_basic_encoding() {
    let codec = ASC100::new();
    let input = "Hello, World!";
    let encoded = codec.encode(input).unwrap();
    let decoded = codec.decode(&encoded).unwrap();
    assert_eq!(input, decoded);
}

#[test]
fn test_javascript_code() {
    let codec = ASC100::new();
    let input = r#"console.log("Hello, World!");#EOF#"#;
    let encoded = codec.encode(input).unwrap();
    let decoded = codec.decode(&encoded).unwrap();
    assert_eq!(input, decoded);
}

#[test]
fn test_extension_markers() {
    let mut extension = ASCExtension::new();
    extension.add_marker("CUSTOM", 106).unwrap();

    let codec = ASC100::with_extension(extension);
    let input = "Start#CUSTOM#End#EOF#";
    let encoded = codec.encode(input).unwrap();
    let decoded = codec.decode(&encoded).unwrap();
    assert_eq!(input, decoded);
}

#[test]
fn test_round_trip() {
    let codec = ASC100::new();
    let input = "function test() { return 42; }#EOL#console.log('done');";
    assert!(codec.test_round_trip(input).unwrap());
}

#[test]
fn test_empty_input() {
    let codec = ASC100::new();
    assert_eq!(codec.encode("").unwrap(), "");
    assert_eq!(codec.decode("").unwrap(), "");
}

#[test]
fn test_unsupported_character() {
    let codec = ASC100::new();
    let input = "Hello 🌍"; // Contains emoji
    assert!(matches!(codec.encode(input), Err(ASC100Error::UnsupportedCharacter { .. })));
}

#[test]
fn standalone_codec_reports_positions() {
    let codec = ASC100::new();
    assert_eq!(
        codec.encode("#EOF#ab\u{e9}"),
        Err(ASC100Error::UnsupportedCharacter { char: '\u{e9}', position: 3 })
    );
    assert_eq!(
        codec.decode("AB=C"),
        Err(ASC100Error::InvalidEncodedCharacter { char: '=', position: 2 })
    );
}

#[test]
fn standalone_codec_packs_markers_as_codes() {
    let codec = ASC100::new();
    assert_eq!(codec.encode("Hello").unwrap(), "URZkye");
    // EOF is code 100 in the default extension: 1100100 padded to 110010 000000.
    assert_eq!(codec.encode("#EOF#").unwrap(), "yA");
    assert_eq!(codec.decode("yA").unwrap(), "#EOF#");
}

#[test]
fn extension_table_operations() {
    let mut ext = ASCExtension::new();
    assert_eq!(ext.get_marker_index("EOF"), Some(100));
    assert_eq!(ext.get_marker_index("DEDENT"), Some(105));
    assert_eq!(ext.get_marker_name(101).map(|s| s.as_str()), Some("EOL"));
    assert_eq!(ext.add_marker("BAD", 99), Err(ASC100Error::ExtensionOverflow));
    assert_eq!(ext.add_marker("BAD", 128), Err(ASC100Error::ExtensionOverflow));
    assert_eq!(ext.list_markers().len(), 6);

    ext.add_marker("CUSTOM", 120).unwrap();
    assert_eq!(ext.get_marker_index("CUSTOM"), Some(120));
    assert_eq!(ext.get_marker_name(120).map(|s| s.as_str()), Some("CUSTOM"));

    // Re-using a code replaces the marker that held it.
    ext.add_marker("OTHER", 120).unwrap();
    assert_eq!(ext.get_marker_index("CUSTOM"), None);
    assert_eq!(ext.get_marker_name(120).map(|s| s.as_str()), Some("OTHER"));

    // Re-using a name moves it to the new code.
    ext.add_marker("EOF", 121).unwrap();
    assert_eq!(ext.get_marker_index("EOF"), Some(121));
    assert_eq!(ext.get_marker_name(100), None);

    ext.remove_marker("EOF");
    assert_eq!(ext.get_marker_index("EOF"), None);
    ext.remove_marker("NOT_THERE");
    let listed = ext.list_markers();
    assert_eq!(listed.len(), 6);
    assert_eq!(listed[0], ("EOL".to_string(), 101));
    assert_eq!(listed[5], ("OTHER".to_string(), 120));
}

#[test]
fn standalone_codec_renders_unnamed_codes_as_raw_characters() {
    let mut ext = ASCExtension::new();
    ext.remove_marker("EOF");
    let codec = ASC100::with_extension(ext);
    assert_eq!(codec.decode("yA").unwrap(), "d");
}

#[test]
fn standalone_codec_extension_can_be_swapped() {
    let mut codec = ASC100::default();
    assert_eq!(codec.extension().get_marker_index("TAB"), Some(103));
    let mut ext = ASCExtension::default();
    ext.add_marker("X", 127).unwrap();
    codec.set_extension(ext);
    assert_eq!(codec.extension().get_marker_index("X"), Some(127));
    assert!(codec.test_round_trip("a#X#b#TAB#").unwrap());
    assert!(!codec.test_round_trip("").is_err());
}

#[test]
fn standalone_error_messages() {
    assert_eq!(
        ASC100Error::UnsupportedCharacter { char: '\u{1F30D}', position: 6 }.message(),
        "Unsupported character '\u{1F30D}' (U+1F30D) at position 6"
    );
    assert_eq!(
        ASC100Error::UnsupportedCharacter { char: '\u{e9}', position: 0 }.message(),
        "Unsupported character '\u{e9}' (U+00E9) at position 0"
    );
    assert_eq!(
        ASC100Error::InvalidEncodedCharacter { char: '=', position: 12 }.message(),
        "Invalid encoded character '=' at position 12"
    );
    assert_eq!(ASC100Error::InvalidBinaryData.message(), "Invalid binary data format");
    assert_eq!(ASC100Error::EmptyInput.message(), "Input cannot be empty");
    assert_eq!(ASC100Error::ExtensionOverflow.message(), "Too many extension characters (max 28 allowed)");
}
