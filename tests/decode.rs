use json_decode::value::{ParseError, Value, JSON};

fn parse(text: &str) -> Result<JSON, ParseError> {
    JSON::parse(String::from(text))
}

fn number_of(v: &Value) -> f64 {
    match v {
        Value::Number { value } => value.parse::<f64>().unwrap(),
        other => panic!("not a number: {:?}", other),
    }
}

#[test]
fn whitespace_does_not_change_the_mapping() {
    for text in ["{\"a\": 1}", "{ \"a\" : 1 }", "{\n\"a\":\n1\n}"] {
        let j = parse(text).unwrap();
        assert_eq!(j.len(), 1);
        match j.get("a").unwrap() {
            Value::Number { value } => assert_eq!(value, "1"),
            other => panic!("unexpected {:?}", other),
        }
    }
}

#[test]
fn nested_arrays_and_objects() {
    let j = parse("{\"a\": [1, [2, 3], {\"b\": 4}]}").unwrap();
    let items = match j.get("a").unwrap() {
        Value::Array { value } => value,
        other => panic!("unexpected {:?}", other),
    };
    assert_eq!(items.len(), 3);
    assert_eq!(number_of(&items[0]), 1.0);
    match &items[1] {
        Value::Array { value } => {
            assert_eq!(value.len(), 2);
            assert_eq!(number_of(&value[0]), 2.0);
            assert_eq!(number_of(&value[1]), 3.0);
        },
        other => panic!("unexpected {:?}", other),
    }
    match &items[2] {
        Value::Object { value } => {
            assert_eq!(value.len(), 1);
            assert_eq!(number_of(value.get("b").unwrap()), 4.0);
        },
        other => panic!("unexpected {:?}", other),
    }
}

#[test]
fn duplicate_keys_keep_the_last_value() {
    let j = parse("{\"a\": 1, \"a\": 2}").unwrap();
    assert_eq!(j.len(), 1);
    assert_eq!(number_of(j.get("a").unwrap()), 2.0);
}

#[test]
fn comma_inside_a_string_splits_the_entry() {
    assert_eq!(parse("{\"a\": \"x,y\"}").unwrap_err(), ParseError::MalformedDelimiters);
}

#[test]
fn string_without_comma_is_kept_verbatim() {
    let j = parse("{\"a\": \" x:y \\n \"}").unwrap();
    match j.get("a").unwrap() {
        Value::String { value } => assert_eq!(value, " x:y \\n "),
        other => panic!("unexpected {:?}", other),
    }
}

#[test]
fn empty_input_fails() {
    assert_eq!(parse("").unwrap_err(), ParseError::EmptyInput);
    assert_eq!(parse(" \n\t").unwrap_err(), ParseError::EmptyInput);
}

#[test]
fn missing_value_fails() {
    assert_eq!(parse("{\"a\": }").unwrap_err(), ParseError::InvalidLiteral);
}

#[test]
fn missing_colon_fails() {
    assert_eq!(parse("{\"a\" 1}").unwrap_err(), ParseError::MissingSeparator);
}

#[test]
fn unterminated_object_fails() {
    assert_eq!(parse("{\"a\": 1").unwrap_err(), ParseError::MalformedDelimiters);
    assert_eq!(parse("[1]").unwrap_err(), ParseError::MalformedDelimiters);
    assert_eq!(parse("{").unwrap_err(), ParseError::MalformedDelimiters);
}

#[test]
fn unquoted_key_fails() {
    assert_eq!(parse("{a: 1}").unwrap_err(), ParseError::InvalidLiteral);
}

#[test]
fn bad_numeral_fails() {
    assert_eq!(parse("{\"a\": 1.2.3}").unwrap_err(), ParseError::InvalidNumber);
    assert_eq!(parse("{\"a\": abc}").unwrap_err(), ParseError::InvalidNumber);
}

#[test]
fn first_error_in_order_wins() {
    assert_eq!(parse("{\"a\" 1, \"b\": x}").unwrap_err(), ParseError::MissingSeparator);
    assert_eq!(parse("{\"a\": x, \"b\" 1}").unwrap_err(), ParseError::InvalidNumber);
}

#[test]
fn literals_decode_exactly() {
    let j = parse("{\"n\": null, \"t\": true, \"f\": false, \"l\": [null, true, false]}").unwrap();
    assert!(matches!(j.get("n").unwrap(), Value::Null));
    assert!(matches!(j.get("t").unwrap(), Value::Boolean { value: true }));
    assert!(matches!(j.get("f").unwrap(), Value::Boolean { value: false }));
    match j.get("l").unwrap() {
        Value::Array { value } => {
            assert_eq!(value.len(), 3);
            assert!(matches!(value[0], Value::Null));
            assert!(matches!(value[1], Value::Boolean { value: true }));
            assert!(matches!(value[2], Value::Boolean { value: false }));
        },
        other => panic!("unexpected {:?}", other),
    }
}

#[test]
fn literals_are_case_sensitive() {
    assert_eq!(parse("{\"a\": True}").unwrap_err(), ParseError::InvalidNumber);
    assert_eq!(parse("{\"a\": NULL}").unwrap_err(), ParseError::InvalidNumber);
    assert!(JSON::parse_value(String::from("False")).is_err());
}

#[test]
fn empty_containers() {
    let j = parse("{}").unwrap();
    assert_eq!(j.len(), 0);
    let j = parse("{\"a\": [], \"c\": {}}").unwrap();
    assert_eq!(j.len(), 2);
    assert!(matches!(j.get("a").unwrap(), Value::Array { value } if value.is_empty()));
    assert!(matches!(j.get("c").unwrap(), Value::Object { value } if value.len() == 0));
    assert!(j.get("d").is_none());
}

#[test]
fn blank_containers_fail() {
    assert_eq!(parse("{ }").unwrap_err(), ParseError::MissingSeparator);
    assert_eq!(parse("{\"a\": [ ]}").unwrap_err(), ParseError::InvalidLiteral);
    assert_eq!(JSON::parse_value(String::from("[ ]")).unwrap_err(), ParseError::InvalidLiteral);
}

#[test]
fn empty_array_element_fails() {
    assert_eq!(
        JSON::parse_value(String::from("[1,,2]")).unwrap_err(),
        ParseError::InvalidLiteral
    );
}

#[test]
fn trailing_comma_in_array_is_dropped() {
    match JSON::parse_value(String::from("[1,]")).unwrap() {
        Value::Array { value } => assert_eq!(value.len(), 1),
        other => panic!("unexpected {:?}", other),
    }
}

#[test]
fn nested_object_with_two_entries_is_split() {
    assert_eq!(
        parse("{\"a\": {\"b\": 1, \"c\": 2}}").unwrap_err(),
        ParseError::MalformedDelimiters
    );
}

#[test]
fn numerals() {
    for (text, expected) in [("-0.123", -0.123), ("123", 123.0), ("1e3", 1000.0), ("+.5", 0.5), ("2.", 2.0), ("1E-2", 0.01)] {
        match JSON::parse_value(String::from(text)).unwrap() {
            Value::Number { value } => {
                assert_eq!(value, text);
                assert_eq!(value.parse::<f64>().unwrap(), expected);
            },
            other => panic!("unexpected {:?}", other),
        }
    }
    for text in ["inf", "-Infinity", "NaN"] {
        match JSON::parse_value(String::from(text)).unwrap() {
            Value::Number { value } => assert!(value.parse::<f64>().is_ok()),
            other => panic!("unexpected {:?}", other),
        }
    }
    for text in [".", "1e", "e5", "-", "1e+", "infinit", "0x10", "1_0"] {
        assert_eq!(JSON::parse_value(String::from(text)).unwrap_err(), ParseError::InvalidNumber, "{}", text);
        assert!(text.parse::<f64>().is_err());
    }
}

#[test]
fn string_values() {
    match JSON::parse_value(String::from("  \"hello world\" ")).unwrap() {
        Value::String { value } => assert_eq!(value, "hello world"),
        other => panic!("unexpected {:?}", other),
    }
    assert_eq!(
        JSON::parse_value(String::from("\"open")).unwrap_err(),
        ParseError::MalformedDelimiters
    );
    assert_eq!(JSON::parse_value(String::from("\"")).unwrap_err(), ParseError::MalformedDelimiters);
    assert_eq!(JSON::parse_value(String::from("[1")).unwrap_err(), ParseError::MalformedDelimiters);
    assert_eq!(JSON::parse_value(String::from("   ")).unwrap_err(), ParseError::InvalidLiteral);
}

#[test]
fn entries_and_keys() {
    let (k, v) = JSON::parse_entry(String::from(" \"a:b\" : [1, 2]")).unwrap();
    assert_eq!(k, "a:b");
    assert!(matches!(v, Value::Array { value } if value.len() == 2));
    assert_eq!(JSON::parse_entry(String::from("\"a\" 1")).unwrap_err(), ParseError::MissingSeparator);
    assert_eq!(JSON::parse_key(String::from("  \"key\" ")).unwrap(), "key");
    assert_eq!(JSON::parse_key(String::from("key")).unwrap_err(), ParseError::InvalidLiteral);
}

#[test]
fn sample_document() {
    let j = parse("{\"key\": \"value\",\n \"key1\": 123,\n \"key2\": {\n\"key3\": [1,2,3]}}").unwrap();
    assert_eq!(j.len(), 3);
    assert!(matches!(j.get("key").unwrap(), Value::String { value } if value == "value"));
    assert_eq!(number_of(j.get("key1").unwrap()), 123.0);
    match j.get("key2").unwrap() {
        Value::Object { value } => match value.get("key3").unwrap() {
            Value::Array { value } => assert_eq!(value.len(), 3),
            other => panic!("unexpected {:?}", other),
        },
        other => panic!("unexpected {:?}", other),
    }
}

#[test]
fn non_ascii_text() {
    let j = parse("\u{a0}{\"é\": \"ü ß\"}").unwrap();
    assert!(matches!(j.get("é").unwrap(), Value::String { value } if value == "ü ß"));
}

#[test]
fn text_after_the_closing_brace_fails() {
    assert_eq!(parse("{\"a\": 1} ").unwrap_err(), ParseError::MalformedDelimiters);
    assert_eq!(parse("{\"a\": 1}\u{3000}").unwrap_err(), ParseError::MalformedDelimiters);
}

#[test]
fn encoded_tree_decodes_back() {
    let text = "{\"s\":\"hello world\",\"n\":-1.5e3,\"b\":true,\"z\":null,\"a\":[1,[2,\"x y\"],{\"k\":[]}],\"o\":{\"p\":false}}";
    let j = parse(text).unwrap();
    assert_eq!(j.len(), 6);
    assert!(matches!(j.get("s").unwrap(), Value::String { value } if value == "hello world"));
    assert_eq!(number_of(j.get("n").unwrap()), -1500.0);
    assert!(matches!(j.get("b").unwrap(), Value::Boolean { value: true }));
    assert!(matches!(j.get("z").unwrap(), Value::Null));
    match j.get("a").unwrap() {
        Value::Array { value } => {
            assert_eq!(value.len(), 3);
            assert_eq!(number_of(&value[0]), 1.0);
            match &value[1] {
                Value::Array { value } => {
                    assert_eq!(value.len(), 2);
                    assert_eq!(number_of(&value[0]), 2.0);
                    assert!(matches!(&value[1], Value::String { value } if value == "x y"));
                },
                other => panic!("unexpected {:?}", other),
            }
            match &value[2] {
                Value::Object { value } => {
                    assert_eq!(value.len(), 1);
                    assert!(matches!(value.get("k").unwrap(), Value::Array { value } if value.is_empty()));
                },
                other => panic!("unexpected {:?}", other),
            }
        },
        other => panic!("unexpected {:?}", other),
    }
    match j.get("o").unwrap() {
        Value::Object { value } => {
            assert_eq!(value.len(), 1);
            assert!(matches!(value.get("p").unwrap(), Value::Boolean { value: false }));
        },
        other => panic!("unexpected {:?}", other),
    }
}

#[test]
fn string_and_number_decoders() {
    match JSON::parse_string(&String::from("\"a b\"")).unwrap() {
        Value::String { value } => assert_eq!(value, "a b"),
        other => panic!("unexpected {:?}", other),
    }
    assert_eq!(JSON::parse_string(&String::from("\"ab")).unwrap_err(), ParseError::MalformedDelimiters);
    assert_eq!(JSON::parse_string(&String::from("ab\"")).unwrap_err(), ParseError::MalformedDelimiters);
    match JSON::parse_number(&String::from("-12.5e-1")).unwrap() {
        Value::Number { value } => assert_eq!(value.parse::<f64>().unwrap(), -1.25),
        other => panic!("unexpected {:?}", other),
    }
    assert_eq!(JSON::parse_number(&String::from(" 1")).unwrap_err(), ParseError::InvalidNumber);
    assert_eq!(JSON::parse_number(&String::from("")).unwrap_err(), ParseError::InvalidNumber);
}

#[test]
fn encoded_tree_with_spaces_after_separators_decodes_back() {
    let j = parse("{\"a\":\n\t[1, [2,  \"x y\"], {\"k\": null}], \"b\": false}").unwrap();
    assert_eq!(j.len(), 2);
    match j.get("a").unwrap() {
        Value::Array { value } => {
            assert_eq!(value.len(), 3);
            assert_eq!(number_of(&value[0]), 1.0);
            assert!(matches!(&value[1], Value::Array { value } if value.len() == 2));
            assert!(matches!(&value[2], Value::Object { value } if matches!(value.get("k"), Some(Value::Null))));
        },
        other => panic!("unexpected {:?}", other),
    }
    assert!(matches!(j.get("b").unwrap(), Value::Boolean { value: false }));
}
