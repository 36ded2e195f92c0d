use inih::parser::first_error;
use inih::{ini_parse_string, ini_parse_string_with_options, IniHandler, IniParseError, IniReader, ParseOptions};

struct Recorder {
    events: Vec<(String, String, String)>,
    reject_name: Option<String>,
}

impl IniHandler for Recorder {
    fn handle(&mut self, section: &str, name: &str, value: &str) -> Result<(), String> {
        self.events.push((section.to_string(), name.to_string(), value.to_string()));
        match &self.reject_name {
            Some(n) if n == name => Err(format!("rejected {}", name)),
            _ => Ok(()),
        }
    }
}

fn recorder(reject: Option<&str>) -> Recorder {
    Recorder { events: Vec::new(), reject_name: reject.map(|s| s.to_string()) }
}

#[test]
fn case_insensitive_lookup_all_casings() {
    let reader = IniReader::from_string("[SeCtIoN]\nKeY=v\n").unwrap();
    assert_eq!(reader.get_string("Section", "Key", "d"), "v");
    assert_eq!(reader.get_string("section", "key", "d"), "v");
    assert_eq!(reader.get_string("SECTION", "KEY", "d"), "v");
    assert!(reader.has_section("SECTION"));
    assert_eq!(reader.sections(), vec!["section".to_string()]);
    assert_eq!(reader.keys("SECTION"), vec!["key".to_string()]);
}

#[test]
fn duplicate_keys_concatenate() {
    let reader = IniReader::from_string("[s]\na=1\na=2\n").unwrap();
    assert_eq!(reader.get_string("s", "a", ""), "1\n2");
    assert_eq!(reader.keys("s"), vec!["a".to_string()]);
}

#[test]
fn continuation_line_appends() {
    let mut options = ParseOptions::default();
    options.allow_multiline = true;
    let reader = IniReader::from_string_with_options("[s]\nk=line1\n    line2\n", &options).unwrap();
    assert_eq!(reader.get_string("s", "k", ""), "line1\n    line2");
}

#[test]
fn continuation_keeps_raw_line_without_inline_comments() {
    let mut options = ParseOptions::default();
    options.allow_multiline = true;
    options.allow_inline_comments = false;
    let reader = IniReader::from_string_with_options("[s]\nk=a\n  b ; c  \n", &options).unwrap();
    assert_eq!(reader.get_string("s", "k", ""), "a\n  b ; c  ");
}

#[test]
fn continuation_strips_inline_comment() {
    let mut options = ParseOptions::default();
    options.allow_multiline = true;
    let reader = IniReader::from_string_with_options("[s]\nk=a\n  b ; c\n", &options).unwrap();
    assert_eq!(reader.get_string("s", "k", ""), "a\n  b");
}

#[test]
fn inline_comment_needs_whitespace() {
    let reader = IniReader::from_string("[c]\ntest;3 = 345 ; c\n").unwrap();
    assert_eq!(reader.get_string("c", "test;3", ""), "345");
    assert_eq!(reader.keys("c"), vec!["test;3".to_string()]);
}

#[test]
fn hex_is_read_before_decimal() {
    let reader = IniReader::from_string("[n]\nh=0x1A\nu=0X1a\nd=26\nbad=0xZZ\nneg=-12\nplus=+7\n").unwrap();
    assert_eq!(reader.get_integer("n", "h", 0), 26);
    assert_eq!(reader.get_integer("n", "u", 0), 26);
    assert_eq!(reader.get_integer("n", "d", 0), 26);
    assert_eq!(reader.get_integer("n", "bad", -5), -5);
    assert_eq!(reader.get_integer("n", "neg", 0), -12);
    assert_eq!(reader.get_integer64("n", "plus", 0), 7);
    assert_eq!(reader.get_integer("n", "missing", 99), 99);
}

#[test]
fn integer_limits() {
    let reader = IniReader::from_string(
        "[n]\nmax=9223372036854775807\nmin=-9223372036854775808\nover=9223372036854775808\n",
    )
    .unwrap();
    assert_eq!(reader.get_integer("n", "max", 0), i64::MAX);
    assert_eq!(reader.get_integer("n", "min", 0), i64::MIN);
    assert_eq!(reader.get_integer("n", "over", 3), 3);
}

#[test]
fn unsigned_values() {
    let reader = IniReader::from_string(
        "[n]\na=42\nb=-1\nc=18446744073709551615\nd=18446744073709551616\ne=+5\nf=\n",
    )
    .unwrap();
    assert_eq!(reader.get_unsigned("n", "a", 0), 42);
    assert_eq!(reader.get_unsigned("n", "b", 9), 9);
    assert_eq!(reader.get_unsigned64("n", "c", 0), u64::MAX);
    assert_eq!(reader.get_unsigned("n", "d", 1), 1);
    assert_eq!(reader.get_unsigned("n", "e", 0), 5);
    assert_eq!(reader.get_unsigned("n", "f", 8), 8);
}

#[test]
fn boolean_words() {
    let data = "[b]\nt1=true\nt2=YES\nt3=On\nt4=1\nf1=FALSE\nf2=no\nf3=oFF\nf4=0\nx=maybe\n";
    let reader = IniReader::from_string(data).unwrap();
    for k in ["t1", "t2", "t3", "t4"] {
        assert!(reader.get_boolean("b", k, false));
    }
    for k in ["f1", "f2", "f3", "f4"] {
        assert!(!reader.get_boolean("b", k, true));
    }
    assert!(reader.get_boolean("b", "x", true));
    assert!(!reader.get_boolean("b", "x", false));
    assert!(reader.get_boolean("b", "missing", true));
}

#[test]
fn unterminated_section_reports_its_line() {
    match IniReader::from_string("[a]\nk=v\n\n[abc\n") {
        Err(IniParseError::ParseError { line, message }) => {
            assert_eq!(line, 4);
            assert_eq!(message, "Missing ']' in section header");
        }
        _ => panic!("expected a parse error"),
    }
}

#[test]
fn empty_section_name_is_rejected() {
    match IniReader::from_string("[]\n") {
        Err(IniParseError::ParseError { line, .. }) => assert_eq!(line, 1),
        _ => panic!("expected a parse error"),
    }
}

#[test]
fn section_name_keeps_inner_spaces() {
    let reader = IniReader::from_string("[ a b ]\nk=v\n").unwrap();
    assert_eq!(reader.get_string(" a b ", "k", ""), "v");
    assert_eq!(reader.get_string("a b", "k", "none"), "none");
    assert_eq!(reader.sections(), vec![" a b ".to_string()]);
}

#[test]
fn line_too_long_is_a_fault() {
    let mut options = ParseOptions::default();
    options.max_line = 5;
    match IniReader::from_string_with_options("[s]\nkey=value\n", &options) {
        Err(IniParseError::ParseError { line, message }) => {
            assert_eq!(line, 2);
            assert_eq!(message, "Line too long");
        }
        _ => panic!("expected a parse error"),
    }
}

#[test]
fn line_length_counts_bytes() {
    let mut options = ParseOptions::default();
    options.max_line = 4;
    assert!(IniReader::from_string_with_options("k=éé\n", &options).is_err());
    assert!(IniReader::from_string_with_options("k=ab\n", &options).is_ok());
}

#[test]
fn invalid_line_only_fails_when_strict() {
    let reader = IniReader::from_string("[s]\njunk\nk=v\n").unwrap();
    assert_eq!(reader.get("s", "k", ""), "v");
    let mut options = ParseOptions::default();
    options.stop_on_first_error = true;
    match IniReader::from_string_with_options("[s]\njunk\nk=v\n", &options) {
        Err(IniParseError::ParseError { line, message }) => {
            assert_eq!(line, 2);
            assert_eq!(message, "Invalid line format");
        }
        _ => panic!("expected a parse error"),
    }
}

#[test]
fn key_without_value_when_allowed() {
    let mut options = ParseOptions::default();
    options.allow_no_value = true;
    let reader = IniReader::from_string_with_options("[s]\nflag ; note\n", &options).unwrap();
    assert!(reader.has_value("s", "flag"));
    assert_eq!(reader.get("s", "flag", "d"), "");
    assert_eq!(reader.get_string("s", "flag", "d"), "d");
}

#[test]
fn comment_before_separator_hides_it() {
    let mut options = ParseOptions::default();
    options.allow_no_value = true;
    let reader = IniReader::from_string_with_options("[s]\nkey ;x=y\n", &options).unwrap();
    assert!(reader.has_value("s", "key"));
    assert!(!reader.has_value("s", "key ;x"));
}

#[test]
fn crlf_line_endings() {
    let reader = IniReader::from_string("[s]\r\na=1\r\nb=2").unwrap();
    assert_eq!(reader.get("s", "a", ""), "1");
    assert_eq!(reader.get("s", "b", ""), "2");
}

#[test]
fn bom_only_skipped_when_allowed() {
    let mut options = ParseOptions::default();
    options.allow_bom = false;
    let reader = IniReader::from_string_with_options("\u{FEFF}k=v\n", &options).unwrap();
    assert!(!reader.has_value("", "k"));
    let reader = IniReader::from_string("\u{FEFF}k=v\n").unwrap();
    assert!(reader.has_value("", "k"));
}

#[test]
fn sorted_sections_and_keys() {
    let reader = IniReader::from_string("[b]\nz=1\nA=2\n[a]\n[B]\nm=3\n").unwrap();
    assert_eq!(reader.sections(), vec!["a".to_string(), "b".to_string()]);
    assert_eq!(reader.keys("b"), vec!["a".to_string(), "m".to_string(), "z".to_string()]);
    assert!(reader.keys("c").is_empty());
    assert!(reader.parse_error().is_none());
}

#[test]
fn events_delivered_in_order() {
    let mut h = recorder(None);
    ini_parse_string("[s]\na = 1\nb: 2\n", &mut h).unwrap();
    assert_eq!(
        h.events,
        vec![
            ("s".to_string(), String::new(), String::new()),
            ("s".to_string(), "a".to_string(), "1".to_string()),
            ("s".to_string(), "b".to_string(), "2".to_string()),
        ]
    );
}

#[test]
fn handler_rejection_stops_when_strict() {
    let mut options = ParseOptions::default();
    options.stop_on_first_error = true;
    let mut h = recorder(Some("a"));
    let r = ini_parse_string_with_options("[s]\na=1\nb=2\n", &mut h, &options);
    assert_eq!(r, Err(IniParseError::HandlerError("rejected a".to_string())));
    assert_eq!(h.events.len(), 2);
}

#[test]
fn earliest_error_wins_when_lenient() {
    let mut h = recorder(Some("b"));
    let r = ini_parse_string("[s]\n[x\nb=2\nc=3\n", &mut h);
    match r {
        Err(IniParseError::ParseError { line, .. }) => assert_eq!(line, 2),
        other => panic!("unexpected {:?}", other),
    }
    assert_eq!(h.events.len(), 3);
    let mut h = recorder(Some("b"));
    let r = ini_parse_string("[s]\nb=2\n[x\nc=3\n", &mut h);
    assert_eq!(r, Err(IniParseError::HandlerError("rejected b".to_string())));
    assert_eq!(h.events.len(), 3);
}

#[test]
fn same_input_same_reader() {
    let data = "[a]\nx=1\n[b]\ny=2\nx=3\n";
    let r1 = IniReader::from_string(data).unwrap();
    let r2 = IniReader::from_string(data).unwrap();
    assert_eq!(r1.sections(), r2.sections());
    for s in r1.sections() {
        assert_eq!(r1.keys(&s), r2.keys(&s));
        for k in r1.keys(&s) {
            assert_eq!(r1.get(&s, &k, "?"), r2.get(&s, &k, "?"));
        }
    }
}

#[test]
fn default_options_values() {
    let o = ParseOptions::default();
    assert!(!o.allow_multiline);
    assert!(o.allow_bom);
    assert!(o.allow_inline_comments);
    assert_eq!(o.inline_comment_prefixes, ";");
    assert_eq!(o.start_comment_prefixes, ";#");
    assert!(!o.stop_on_first_error);
    assert!(!o.allow_no_value);
    assert_eq!(o.max_line, 200);
}

#[test]
fn errors_read_as_sentences() {
    let e = IniParseError::ParseError { line: 120, message: "Line too long".to_string() };
    assert_eq!(e.describe(), "Parse error on line 120: Line too long");
    let e = IniParseError::ParseError { line: 7, message: "x".to_string() };
    assert_eq!(e.describe(), "Parse error on line 7: x");
    assert_eq!(IniParseError::FileOpen("a.ini".to_string()).describe(), "Unable to open file: a.ini");
    assert_eq!(IniParseError::MemoryError.describe(), "Memory allocation error");
    assert_eq!(IniParseError::HandlerError("no".to_string()).describe(), "Handler error: no");
}

#[test]
fn reader_from_lines() {
    let lines = vec!["[S]".to_string(), "k = v ; c".to_string(), "[x".to_string()];
    match IniReader::from_lines_with_options(&lines, &ParseOptions::default()) {
        Err(IniParseError::ParseError { line, .. }) => assert_eq!(line, 3),
        _ => panic!("expected a parse error"),
    }
    let reader = IniReader::from_lines_with_options(&lines[..2].to_vec(), &ParseOptions::default()).unwrap();
    assert_eq!(reader.get("s", "K", ""), "v");
}

#[test]
fn lines_parsed_with_handler() {
    let lines = vec!["a=1".to_string(), "[t]".to_string(), "b=2".to_string()];
    let mut h = recorder(None);
    inih::parser::ini_parse_lines_with_options(&lines, &mut h, &ParseOptions::default()).unwrap();
    assert_eq!(h.events.len(), 3);
    assert_eq!(h.events[0], (String::new(), "a".to_string(), "1".to_string()));
    assert_eq!(h.events[2], ("t".to_string(), "b".to_string(), "2".to_string()));
}

#[test]
fn first_error_picks_the_earlier() {
    let fault = || Some(IniParseError::ParseError { line: 4, message: "m".to_string() });
    assert_eq!(first_error(None, None), Ok(()));
    assert_eq!(first_error(None, Some((2, "r".to_string()))), Err(IniParseError::HandlerError("r".to_string())));
    assert_eq!(first_error(fault(), None), Err(fault().unwrap()));
    assert_eq!(first_error(fault(), Some((3, "r".to_string()))), Err(IniParseError::HandlerError("r".to_string())));
    assert_eq!(first_error(fault(), Some((5, "r".to_string()))), Err(fault().unwrap()));
}

#[test]
fn reader_handles_events_directly() {
    let mut reader = IniReader::from_string("").unwrap();
    assert_eq!(reader.handle("Sec", "", ""), Ok(()));
    assert_eq!(reader.handle("Sec", "K", "a"), Ok(()));
    assert_eq!(reader.handle("sec", "k", "b"), Ok(()));
    assert!(reader.has_section("sec"));
    assert_eq!(reader.get("SEC", "K", ""), "a\nb");
}

#[test]
fn driver_results_for_plain_texts() {
    let mut h = recorder(None);
    assert_eq!(ini_parse_string("", &mut h), Ok(()));
    assert_eq!(ini_parse_string("; only a comment\n\n", &mut h), Ok(()));
    assert!(h.events.is_empty());
    assert_eq!(ini_parse_string("test;3 = 345 ; c", &mut h), Ok(()));
    assert_eq!(h.events, vec![(String::new(), "test;3".to_string(), "345".to_string())]);
    let mut h = recorder(None);
    match ini_parse_string("[abc", &mut h) {
        Err(IniParseError::ParseError { line, .. }) => assert_eq!(line, 1),
        other => panic!("unexpected {:?}", other),
    }
    assert!(h.events.is_empty());
}

#[test]
fn lenient_mode_delivers_lines_after_a_fault() {
    let mut options = ParseOptions::default();
    options.max_line = 8;
    let mut h = recorder(None);
    let r = ini_parse_string_with_options("a=1\nlong=123456\nb=2\n", &mut h, &options);
    match r {
        Err(IniParseError::ParseError { line, message }) => {
            assert_eq!(line, 2);
            assert_eq!(message, "Line too long");
        }
        other => panic!("unexpected {:?}", other),
    }
    assert_eq!(h.events.len(), 2);
    options.stop_on_first_error = true;
    let mut h = recorder(None);
    assert!(ini_parse_string_with_options("a=1\nlong=123456\nb=2\n", &mut h, &options).is_err());
    assert_eq!(h.events.len(), 1);
}
