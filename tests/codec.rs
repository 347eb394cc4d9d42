use loadorder::codec::{
    plugin_line_mapper, read_plugin_names, read_utf8_plugin_names, split_lines, strict_encode,
};
use loadorder::identity::{has_plugin_extension, plugin_names_match, trim_dot_ghost};
use loadorder::{Error, GameId};

#[test]
fn split_lines_handles_crlf_and_a_missing_final_newline() {
    let lines = split_lines(b"a\r\nb\n\nc\r");
    assert_eq!(vec![b"a".to_vec(), b"b".to_vec(), b"".to_vec(), b"c\r".to_vec()], lines);
    assert!(split_lines(b"").is_empty());
}

#[test]
fn windows_1252_names_are_decoded() {
    let bytes = vec![b'B', b'l', 0xE0, 0xF1, b'k', b'.', b'e', b's', b'p', b'\n', b'#', b'x', b'\n'];
    assert_eq!(vec!["Blàñk.esp"], read_plugin_names(Some(&bytes)).unwrap());
    assert!(read_plugin_names(None).unwrap().is_empty());
}

#[test]
fn utf8_reading_rejects_invalid_utf8() {
    let bytes = vec![b'B', b'l', 0xE0, 0xF1, b'k', b'\n'];
    assert!(matches!(read_utf8_plugin_names(Some(&bytes)), Err(Error::NotUtf8(_))));
    let bytes = "Blàñk.esp\n".as_bytes().to_vec();
    assert_eq!(vec!["Blàñk.esp"], read_utf8_plugin_names(Some(&bytes)).unwrap());
}

#[test]
fn strict_encode_maps_to_windows_1252() {
    assert_eq!(vec![b'B', b'l', 0xE0, 0xF1, b'k'], strict_encode("Blàñk").unwrap());
    match strict_encode("Bl\u{0227}nk.esm") {
        Err(Error::EncodeError(s)) => assert_eq!("unrepresentable character", s),
        other => panic!("Expected encode error, got {:?}", other),
    }
    assert!(matches!(strict_encode("a\0b"), Err(Error::EncodeError(_))));
}

#[test]
fn plugin_line_mapper_skips_empty_and_comment_lines() {
    assert_eq!(None, plugin_line_mapper(""));
    assert_eq!(None, plugin_line_mapper("#Blank.esp"));
    assert_eq!(Some("Blank.esp".to_string()), plugin_line_mapper("Blank.esp"));
}

#[test]
fn ghost_suffix_and_extensions() {
    assert_eq!("Blank.esm", trim_dot_ghost("Blank.esm.GHOST"));
    assert_eq!("Blank.esm", trim_dot_ghost("Blank.esm"));
    assert_eq!("ghost", trim_dot_ghost("ghost"));
    assert!(has_plugin_extension("Blank.ESP.ghost", GameId::Oblivion));
    assert!(has_plugin_extension("Blank.esm", GameId::Oblivion));
    assert!(!has_plugin_extension("Blank.esl", GameId::Oblivion));
    assert!(has_plugin_extension("Blank.esl", GameId::Fallout4));
    assert!(!has_plugin_extension("Blank.txt", GameId::Fallout4));
    assert!(plugin_names_match("BLÀÑK.esp", "blàñk.ESP.ghost"));
    assert!(!plugin_names_match("Blank.esp", "Blank.esm"));
}
