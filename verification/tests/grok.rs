use tremor_runtime::logstash::GrokPattern;
use tremor_runtime::value::Value;

#[test]
fn no_match() {
    let codec = GrokPattern::new("{}".to_string()).expect("bad pattern");
    let decoded = codec.matches(b"cookie monster".to_vec());
    match decoded {
        Err(x) => assert_eq!("No match for log text: cookie monster", x),
        Ok(_) => panic!("Expected no match"),
    }
}

#[test]
fn decode_simple_ok() {
    let codec = GrokPattern::new("%{USERNAME:username}".to_string()).expect("bad pattern");
    let decoded = codec.matches(b"foobar".to_vec()).expect("a match");
    let expected = Value::Record(vec![(
        b"username".to_vec(),
        Value::Text(b"foobar".to_vec()),
    )]);
    assert!(decoded.deep_eq(&expected));
}

#[test]
fn decode_no_alias_does_not_map() {
    let codec = GrokPattern::new("%{USERNAME}".to_string()).expect("bad pattern");
    let decoded = codec.matches(b"foobar".to_vec()).expect("a match");
    let expected = Value::Record(Vec::new());
    assert!(decoded.deep_eq(&expected));
}

#[test]
fn bad_pattern_error_names_the_definition() {
    let r = GrokPattern::new("%{DOES_NOT_EXIST_ANYWHERE:x}".to_string());
    match r {
        Err(m) => assert_eq!(
            m,
            "Failed to compile logstash grok pattern `%{DOES_NOT_EXIST_ANYWHERE:x}`"
        ),
        Ok(_) => panic!("Expected a compile failure"),
    }
}

use tremor_runtime::logstash::compile_patterns;

#[test]
fn patterns_file_lines_register_aliases() {
    let lines = vec![
        "".to_string(),
        "# a comment".to_string(),
        "MYWORD foobar".to_string(),
    ];
    let codec = compile_patterns(&lines, "%{MYWORD:w}".to_string()).expect("patterns compile");
    let decoded = codec.matches(b"foobar".to_vec()).expect("a match");
    let expected = Value::Record(vec![(b"w".to_vec(), Value::Text(b"foobar".to_vec()))]);
    assert!(decoded.deep_eq(&expected));
}

#[test]
fn unparsable_patterns_file_is_rejected() {
    let lines = vec!["nonsense".to_string()];
    match compile_patterns(&lines, "%{USERNAME:u}".to_string()) {
        Err(m) => assert_eq!(m, "Bad patterns file"),
        Ok(_) => panic!("Expected a bad patterns file"),
    }
}
