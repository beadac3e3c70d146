use kvs_broadcast::lcb::config::{Config, ConfigLcb, ProgramArgs};
use kvs_broadcast::lcb::config_error::ConfigError;
use kvs_broadcast::lcb::hosts::{read_host, read_hosts, Node, Nodes};
use kvs_broadcast::lcb::text::{parse_number, split_lines, split_words, IntErrorKind};

fn args(words: &[&str]) -> Vec<String> {
    words.iter().map(|w| w.to_string()).collect()
}

#[test]
fn numbers() {
    assert_eq!(parse_number(b"0"), Ok(0));
    assert_eq!(parse_number(b"007"), Ok(7));
    assert_eq!(parse_number(b"+12"), Ok(12));
    assert_eq!(parse_number(b"4294967295"), Ok(u32::MAX));
    assert_eq!(parse_number(b"4294967296"), Err(IntErrorKind::PosOverflow));
    assert_eq!(parse_number(b"99999999999x"), Err(IntErrorKind::PosOverflow));
    assert_eq!(parse_number(b""), Err(IntErrorKind::Empty));
    assert_eq!(parse_number(b"+"), Err(IntErrorKind::InvalidDigit));
    assert_eq!(parse_number(b"-"), Err(IntErrorKind::InvalidDigit));
    assert_eq!(parse_number(b"-3"), Err(IntErrorKind::InvalidDigit));
    assert_eq!(parse_number(b"1 2"), Err(IntErrorKind::InvalidDigit));
    assert_eq!(parse_number(b"12a"), Err(IntErrorKind::InvalidDigit));
}

#[test]
fn numbers_agree_with_the_standard_library() {
    for word in ["0", "1", "+5", "42", "4294967295", "4294967296", "", "+", "-", "-1", "1x", "x1", "00", "++1"] {
        let ours = parse_number(word.as_bytes()).ok();
        let theirs = word.parse::<u32>().ok();
        assert_eq!(ours, theirs, "{:?}", word);
    }
}

#[test]
fn lines_and_words() {
    assert_eq!(split_lines(b"a\nb\r\n\nc"), vec![b"a".to_vec(), b"b".to_vec(), b"".to_vec(), b"c".to_vec()]);
    assert_eq!(split_lines(b"a\n"), vec![b"a".to_vec()]);
    assert_eq!(split_lines(b""), Vec::<Vec<u8>>::new());
    assert_eq!(split_lines(b"a\r"), vec![b"a\r".to_vec()]);
    assert_eq!(split_words(b"  1\t22  x "), vec![b"1".to_vec(), b"22".to_vec(), b"x".to_vec()]);
    assert_eq!(split_words(b"   "), Vec::<Vec<u8>>::new());
}

#[test]
fn link_settings() {
    let c = Config::read(b"10 2\nignored").unwrap();
    assert_eq!((c.messages_count, c.receiver_id), (10, 2));
    assert!(matches!(Config::read(b""), Err(ConfigError::EmptyFile)));
    assert!(matches!(Config::read(b"\n10 2"), Err(ConfigError::NoMessageCount)));
    assert!(matches!(Config::read(b"10"), Err(ConfigError::NoReceiverID)));
    assert!(matches!(Config::read(b"x 2"), Err(ConfigError::ParseInt(IntErrorKind::InvalidDigit))));
    assert!(matches!(Config::read(b"1 99999999999"), Err(ConfigError::ParseInt(IntErrorKind::PosOverflow))));
}

#[test]
fn causal_settings_number_processes_from_one() {
    let c = ConfigLcb::read(b"5\n\n1\n1 2\n").unwrap();
    assert_eq!(c.messages_count, 5);
    assert_eq!(c.causality_map.len(), 3);
    assert_eq!(c.causality_map[&1], Vec::<u32>::new());
    assert_eq!(c.causality_map[&2], vec![1]);
    assert_eq!(c.causality_map[&3], vec![1, 2]);
    assert_eq!(c.inverted_causality_map.len(), 2);
    assert_eq!(c.inverted_causality_map[&1], vec![2, 3]);
    assert_eq!(c.inverted_causality_map[&2], vec![3]);
}

#[test]
fn causal_settings_errors() {
    assert!(matches!(ConfigLcb::read(b""), Err(ConfigError::NoMessageCount)));
    assert!(matches!(ConfigLcb::read(b"5 \n1"), Err(ConfigError::ParseInt(IntErrorKind::InvalidDigit))));
    assert!(matches!(ConfigLcb::read(b"\n1"), Err(ConfigError::ParseInt(IntErrorKind::Empty))));
    assert!(matches!(ConfigLcb::read(b"5\n1 x\n"), Err(ConfigError::ParseInt(IntErrorKind::InvalidDigit))));
    let only_count = ConfigLcb::read(b"5").unwrap();
    assert!(only_count.causality_map.is_empty());
    assert!(only_count.inverted_causality_map.is_empty());
}

#[test]
fn command_line() {
    let parsed = ProgramArgs::parse(&args(&[
        "lcb", "--id", "3", "--hosts", "h.txt", "--output", "o.txt", "--config", "c.txt",
    ]))
    .unwrap();
    assert_eq!(parsed.id, 3);
    assert_eq!(parsed.hosts, "h.txt");
    assert_eq!(parsed.output, "o.txt");
    assert_eq!(parsed.config, "c.txt");

    let reordered = ProgramArgs::parse(&args(&[
        "lcb", "--config", "c", "--id", "1", "--id", "2", "--output", "o",
    ]))
    .unwrap();
    assert_eq!(reordered.id, 2);
    assert_eq!(reordered.hosts, "");
    assert_eq!(reordered.config, "c");
}

#[test]
fn command_line_errors() {
    assert!(matches!(ProgramArgs::parse(&args(&["lcb", "--id", "3"])), Err(ConfigError::WrongArgsNumber)));
    assert!(matches!(
        ProgramArgs::parse(&args(&["lcb", "--id", "x", "--hosts", "h", "--output", "o", "--config", "c"])),
        Err(ConfigError::ParseInt(IntErrorKind::InvalidDigit))
    ));
}

#[test]
fn hosts_file() {
    let nodes = read_hosts(b"1 localhost 11001\n2 10.0.0.2 11002\n1 127.0.0.1 12001\n").unwrap();
    assert_eq!(nodes.len(), 2);
    let first = nodes.get(1).unwrap();
    assert_eq!((first.id, first.ip.as_str(), first.port), (1, "127.0.0.1", 12001));
    assert_eq!(nodes.at(1).ip, "10.0.0.2");
    assert!(nodes.get(3).is_none());
}

#[test]
fn hosts_file_errors() {
    assert!(matches!(read_hosts(b"1 localhost\n"), Err(ConfigError::InvalidHostsFile)));
    assert!(matches!(read_hosts(b"1 a 2\n\n"), Err(ConfigError::InvalidHostsFile)));
    assert!(matches!(read_hosts(b"x localhost 1\n"), Err(ConfigError::ParseInt(IntErrorKind::InvalidDigit))));
    assert!(matches!(read_hosts(b"1 localhost p\n"), Err(ConfigError::ParseInt(IntErrorKind::InvalidDigit))));
    assert!(matches!(read_host(b"1 \xff\xfe 3"), Err(ConfigError::InvalidHostsFile)));
    assert!(matches!(read_host(b"1 caf\xc3\xa9 3"), Ok(Node { id: 1, port: 3, .. })));
    assert_eq!(read_host(b"1 caf\xc3\xa9 3").unwrap().ip, "café");
}

#[test]
fn the_node_of_the_command_line() {
    let mut nodes = Nodes::new();
    nodes.insert(Node { id: 2, ip: "b".to_string(), port: 2 });
    let mut parsed = ProgramArgs::parse(&args(&[
        "lcb", "--id", "2", "--hosts", "h", "--output", "o", "--config", "c",
    ]))
    .unwrap();
    assert_eq!(parsed.get_current_node(&nodes).unwrap().ip, "b");
    parsed.id = 5;
    assert!(matches!(parsed.get_current_node(&nodes), Err(ConfigError::UndefinedNodeID(5))));
}

#[test]
fn config_error_texts() {
    assert_eq!(ConfigError::EmptyFile.message(), "Config file is empty");
    assert_eq!(ConfigError::NoMessageCount.message(), "No message count in config file");
    assert_eq!(ConfigError::NoReceiverID.message(), "No receiver ID in config file");
    assert_eq!(ConfigError::WrongArgsNumber.message(), "Wrong number of arguments");
    assert_eq!(ConfigError::UndefinedNodeID(4021).message(), "Undefined node ID: 4021");
    assert_eq!(ConfigError::InvalidHostsFile.message(), "Invalid hosts file");
    assert_eq!(ConfigError::Io("gone".to_string()).message(), "gone");
    for (kind, word) in [(IntErrorKind::Empty, ""), (IntErrorKind::InvalidDigit, "x"), (IntErrorKind::PosOverflow, "99999999999")] {
        let theirs = word.parse::<u32>().unwrap_err().to_string();
        assert_eq!(ConfigError::ParseInt(kind).message(), theirs);
        assert_eq!(ConfigError::from(kind).message(), theirs);
    }
}

#[test]
fn words_part_where_the_standard_library_parts_them() {
    for code in 0..=0x3100u32 {
        let c = match char::from_u32(code) {
            Some(c) => c,
            None => continue,
        };
        let line = format!("ab{}cd {}\u{e9}", c, c);
        let ours: Vec<Vec<u8>> = split_words(line.as_bytes());
        let theirs: Vec<Vec<u8>> = line.split_whitespace().map(|w| w.as_bytes().to_vec()).collect();
        assert_eq!(ours, theirs, "U+{:04X}", code);
    }
    let mixed = "\u{2003}1\u{a0}\u{3000}22\u{85}x\u{2028}";
    assert_eq!(split_words(mixed.as_bytes()), vec![b"1".to_vec(), b"22".to_vec(), b"x".to_vec()]);
}

#[test]
fn a_line_that_is_no_text_is_an_io_error() {
    let text = "stream did not contain valid UTF-8";
    assert!(matches!(Config::read(b"\xff 2\n"), Err(ConfigError::Io(m)) if m == text));
    let later_line = Config::read(b"3 1\n\xff").unwrap();
    assert_eq!((later_line.messages_count, later_line.receiver_id), (3, 1));
    assert!(matches!(ConfigLcb::read(b"\xc3\n1"), Err(ConfigError::Io(m)) if m == text));
    assert!(matches!(ConfigLcb::read(b"5\n1\n\xff\n"), Err(ConfigError::Io(m)) if m == text));
    assert!(matches!(
        ConfigLcb::read(b"5\nx\n\xff\n"),
        Err(ConfigError::ParseInt(IntErrorKind::InvalidDigit))
    ));
    assert!(matches!(read_hosts(b"1 a 2\n2 \xff 3\n"), Err(ConfigError::Io(m)) if m == text));
    assert!(matches!(read_hosts(b"1 a\n\xff\n"), Err(ConfigError::InvalidHostsFile)));
    assert_eq!(ConfigError::bad_text().message(), text);
}

#[test]
fn files_may_use_any_white_space() {
    let c = Config::read("10\u{a0}2".as_bytes()).unwrap();
    assert_eq!((c.messages_count, c.receiver_id), (10, 2));
    let nodes = read_hosts("1\u{2003}caf\u{e9}\u{3000}11001\n".as_bytes()).unwrap();
    assert_eq!(nodes.get(1).unwrap().ip, "caf\u{e9}");
    let lcb = ConfigLcb::read("2\n1\u{2009}2\n".as_bytes()).unwrap();
    assert_eq!(lcb.causality_map[&1], vec![1, 2]);
}
