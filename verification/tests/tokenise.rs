use irctokens::tokenise::Error;
use irctokens::Line;

fn tag_value(tags: &[(String, Option<String>)], key: &str) -> Option<Option<String>> {
    tags.iter().find(|p| p.0 == key).map(|p| p.1.clone())
}

#[test]
fn tokenise_basic() {
    let line =
        Line::tokenise(b"@tag1=tag1value;tag2=;tag3 :source COMMAND arg1 arg2 :arg3 with space")
            .unwrap();

    assert_eq!(line.source, Some(b"source".to_vec()));
    assert_eq!(&line.command, "COMMAND");

    assert_eq!(line.arguments.len(), 3);
    assert_eq!(line.arguments[0], b"arg1");
    assert_eq!(line.arguments[1], b"arg2");
    assert_eq!(line.arguments[2], b"arg3 with space");

    let tags = line.tags.unwrap();
    assert_eq!(tags.len(), 3);
    assert_eq!(
        tag_value(&tags, "tag1"),
        Some(Some("tag1value".to_string()))
    );
    assert_eq!(tag_value(&tags, "tag2"), Some(None));
    assert_eq!(tag_value(&tags, "tag3"), Some(None));
}

#[test]
fn complex_tags() {
    let line = Line::tokenise(b"@tag1=a\\:a COMMAND").unwrap();

    let tags = line.tags.unwrap();
    assert_eq!(tag_value(&tags, "tag1"), Some(Some("a;a".to_string())));
}

#[test]
fn command_only_minimal_line() {
    let line = Line::tokenise(b"PING").unwrap();
    assert_eq!(&line.command, "PING");
    assert_eq!(line.tags, None);
    assert_eq!(line.source, None);
    assert_eq!(line.arguments.len(), 0);
    assert_eq!(line.format(), b"PING");
}

#[test]
fn valueless_and_empty_valued_tags() {
    let line = Line::tokenise(b"@a;b= :s C").unwrap();
    let tags = line.tags.unwrap();
    assert_eq!(tag_value(&tags, "a"), Some(None));
    assert_eq!(tag_value(&tags, "b"), Some(None));
}

#[test]
fn missing_command() {
    assert!(matches!(
        Line::tokenise(b"@tag=1 :source"),
        Err(Error::MissingCommand)
    ));
}

#[test]
fn empty_input_missing_command() {
    assert!(matches!(Line::tokenise(b""), Err(Error::MissingCommand)));
}

#[test]
fn canonical_example() {
    let line =
        Line::tokenise(b"@tag1=tag1value;tag2=;tag3 :source COMMAND arg1 arg2 :arg3 with space")
            .unwrap();
    assert_eq!(line.source, Some(b"source".to_vec()));
    assert_eq!(&line.command, "COMMAND");
    assert_eq!(
        line.arguments,
        vec![b"arg1".to_vec(), b"arg2".to_vec(), b"arg3 with space".to_vec()]
    );
    let tags = line.tags.as_ref().unwrap();
    assert_eq!(tags.len(), 3);
    assert_eq!(tag_value(tags, "tag1"), Some(Some("tag1value".to_string())));
    assert_eq!(tag_value(tags, "tag2"), Some(None));
    assert_eq!(tag_value(tags, "tag3"), Some(None));

    let rebuilt = Line {
        tags: Some(vec![
            ("tag1".to_string(), Some("tag1value".to_string())),
            ("tag2".to_string(), None),
            ("tag3".to_string(), None),
        ]),
        source: Some(b"source".to_vec()),
        command: "COMMAND".to_string(),
        arguments: vec![
            b"arg1".to_vec(),
            b"arg2".to_vec(),
            b"arg3 with space".to_vec(),
        ],
    };
    assert_eq!(
        rebuilt.format(),
        b"@tag1=tag1value;tag2;tag3 :source COMMAND arg1 arg2 :arg3 with space"
    );
}

#[test]
fn trailing_argument_keeps_spaces() {
    let line = Line::tokenise(b"CMD one : two  three ").unwrap();
    assert_eq!(line.arguments.len(), 2);
    assert_eq!(line.arguments[0], b"one");
    assert_eq!(line.arguments[1], b" two  three ");
}

#[test]
fn empty_trailing_argument() {
    let line = Line::tokenise(b"CMD :").unwrap();
    assert_eq!(line.arguments.len(), 1);
    assert_eq!(line.arguments[0], b"");
}

#[test]
fn empty_tag_list_is_present() {
    let line = Line::tokenise(b"@ CMD").unwrap();
    assert_eq!(line.tags, Some(Vec::new()));
}

#[test]
fn duplicate_tag_keys_last_wins() {
    let line = Line::tokenise(b"@a=1;a=2 CMD").unwrap();
    let tags = line.tags.unwrap();
    assert_eq!(tags.len(), 1);
    assert_eq!(tag_value(&tags, "a"), Some(Some("2".to_string())));
}

#[test]
fn tags_are_sorted_by_key() {
    let line = Line::tokenise(b"@c=3;a=1;b=2 CMD").unwrap();
    let tags = line.tags.unwrap();
    let keys: Vec<&str> = tags.iter().map(|p| p.0.as_str()).collect();
    assert_eq!(keys, vec!["a", "b", "c"]);
}

#[test]
fn tag_key_decode_error() {
    assert!(matches!(
        Line::tokenise(b"@\xff=1 C"),
        Err(Error::TagKeyDecode)
    ));
}

#[test]
fn tag_value_decode_error() {
    assert!(matches!(
        Line::tokenise(b"@k=\xff C"),
        Err(Error::TagValueDecode)
    ));
}

#[test]
fn command_decode_error() {
    assert!(matches!(Line::tokenise(b"\xff"), Err(Error::CommandDecode)));
}

#[test]
fn unicode_text_decodes() {
    let line = Line::tokenise(b"@k=caf\xc3\xa9 PRIVMSG\xc3\xa9").unwrap();
    assert_eq!(&line.command, "PRIVMSG\u{e9}");
    let tags = line.tags.unwrap();
    assert_eq!(tag_value(&tags, "k"), Some(Some("caf\u{e9}".to_string())));
}

#[test]
fn escape_unescape_round_trip() {
    let value = "a;b c\\d\re\nf;; \\\\";
    let line = Line {
        tags: Some(vec![("k".to_string(), Some(value.to_string()))]),
        source: None,
        command: "C".to_string(),
        arguments: Vec::new(),
    };
    let reparsed = Line::tokenise(&line.format()).unwrap();
    let tags = reparsed.tags.unwrap();
    assert_eq!(tag_value(&tags, "k"), Some(Some(value.to_string())));
}

#[test]
fn full_round_trip() {
    let line = Line {
        tags: Some(vec![
            ("a".to_string(), Some("x y".to_string())),
            ("b".to_string(), None),
        ]),
        source: Some(b"nick!user@host".to_vec()),
        command: "PRIVMSG".to_string(),
        arguments: vec![b"#chat".to_vec(), b"hello there!".to_vec()],
    };
    let reparsed = Line::tokenise(&line.format()).unwrap();
    assert_eq!(reparsed.tags, line.tags);
    assert_eq!(reparsed.source, line.source);
    assert_eq!(reparsed.command, line.command);
    assert_eq!(reparsed.arguments, line.arguments);
}
