use irctokens::Line;

#[test]
fn format_basic() {
    let line = Line {
        tags: Some(vec![
            ("tag1".to_string(), Some("tag1value".to_string())),
            ("tag2".to_string(), None),
            ("tag3".to_string(), Some("a;a".to_string())),
        ]),
        source: Some(b"source".to_vec()),
        command: "COMMAND".to_string(),
        arguments: vec![
            b"arg1".to_vec(),
            b"arg2".to_vec(),
            b"arg3 with space".to_vec(),
        ],
    }
    .format();

    assert_eq!(
        line,
        b"@tag1=tag1value;tag2;tag3=a\\:a :source COMMAND arg1 arg2 :arg3 with space"
    );
}

#[test]
fn write_to_matches_format() {
    let line = Line {
        tags: None,
        source: Some(b"irc.example.com".to_vec()),
        command: "001".to_string(),
        arguments: vec![b"nick".to_vec(), b"Welcome to the network".to_vec()],
    };
    let mut sink: Vec<u8> = Vec::new();
    line.write_to(&mut sink).unwrap();
    assert_eq!(sink, line.format());
    assert_eq!(sink, b":irc.example.com 001 nick :Welcome to the network");
}

#[test]
fn format_command_only() {
    let line = Line {
        tags: None,
        source: None,
        command: "PING".to_string(),
        arguments: Vec::new(),
    };
    assert_eq!(line.format(), b"PING");
}

#[test]
fn format_escapes_all_special_characters() {
    let line = Line {
        tags: Some(vec![("k".to_string(), Some("a;b c\\d\re\nf".to_string()))]),
        source: None,
        command: "C".to_string(),
        arguments: Vec::new(),
    };
    assert_eq!(line.format(), b"@k=a\\:b\\sc\\\\d\\re\\nf C");
}

#[test]
fn format_empty_tag_map() {
    let line = Line {
        tags: Some(Vec::new()),
        source: None,
        command: "CMD".to_string(),
        arguments: Vec::new(),
    };
    assert_eq!(line.format(), b"@ CMD");
}

#[test]
fn format_unicode_command_and_value() {
    let line = Line {
        tags: Some(vec![("k".to_string(), Some("caf\u{e9}".to_string()))]),
        source: None,
        command: "PRIVMSG\u{e9}".to_string(),
        arguments: Vec::new(),
    };
    assert_eq!(line.format(), b"@k=caf\xc3\xa9 PRIVMSG\xc3\xa9");
}

#[test]
fn format_sorts_parsed_tags() {
    let line = Line::tokenise(b"@b;a CMD").unwrap();
    assert_eq!(line.format(), b"@a;b CMD");
}
