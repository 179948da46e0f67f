use json::{Error, Json, JsonConfig, Object};

fn object(entries: Vec<(&str, Json)>) -> Json {
    let mut o = Object::new();
    for (key, value) in entries {
        o.insert(key.to_string(), value);
    }
    Json::from(o)
}

fn array(items: Vec<Json>) -> Json {
    Json::from(items)
}

fn float(x: f64) -> Json {
    Json::Number(format!("{x}"))
}

fn as_float(json: &Json) -> f64 {
    json.expect_number().parse().unwrap()
}

fn recovering() -> JsonConfig {
    JsonConfig {
        recover_from_errors: true,
        ..Default::default()
    }
}

fn failure(text: &str, conf: JsonConfig) -> Error {
    match Json::deserialize_with_config(text, conf) {
        Ok(_) => panic!("expected an error"),
        Err(e) => e,
    }
}

fn shown(text: &str) -> String {
    failure(text, JsonConfig::default()).to_string()
}

#[test]
fn simple() {
    assert!(matches!(Json::deserialize("true"), Ok(Json::True)));
    assert!(matches!(Json::deserialize("false"), Ok(Json::False)));
    assert!(matches!(Json::deserialize("null"), Ok(Json::Null)));
    let string = "\"string\"".to_owned();
    match Json::deserialize(&string) {
        Ok(Json::String(s)) => assert_eq!(s, "string"),
        _ => panic!(),
    }
}

#[test]
fn nested() {
    let j = Json::deserialize(
        r#"{
        "array" : [1,2,3, {
            "nested_1" : 1
        }]
    }"#,
    )
    .unwrap();

    let expected = object(vec![(
        "array",
        array(vec![
            Json::from(1),
            Json::from(2),
            Json::from(3),
            object(vec![("nested_1", Json::from(1))]),
        ]),
    )]);

    assert_eq!(expected, j);
}

#[test]
fn maximun_depth() {
    let mut s = "[12]".to_string();
    const DEPTH: u32 = 500;
    let conf = JsonConfig {
        max_depth: DEPTH,
        ..Default::default()
    };

    for _ in 0..DEPTH - 1 {
        s = format!("[{s}]");
    }

    assert!(Json::deserialize_with_config(&s, conf).is_ok());

    s = format!("[{s}]");

    let j = Json::deserialize_with_config(&s, conf);
    match j {
        Ok(_) => panic!("Expected error"),
        Err(err) => assert_eq!(err.get_message(), "Max depth reached"),
    }
}

#[test]
fn index_obj() {
    let mut json = object(vec![
        ("a", Json::from(1)),
        ("b", Json::from(2)),
        ("c", Json::from(3)),
        ("d", Json::from(4)),
        ("e", Json::from(5)),
    ]);

    assert_eq!(as_float(&json["a"]), 1.0);
    assert_eq!(as_float(&json["b"]), 2.0);
    assert_eq!(as_float(&json["c"]), 3.0);
    assert_eq!(as_float(&json["d"]), 4.0);
    assert_eq!(as_float(&json["e"]), 5.0);

    for e in ["a", "b", "c", "d", "e"] {
        let sum = as_float(&json[e]) + f64::from(1);
        *json.get_mut(e).unwrap() = float(sum);
    }

    assert_eq!(as_float(&json["a"]), 2.0);
    assert_eq!(as_float(&json["b"]), 3.0);
    assert_eq!(as_float(&json["c"]), 4.0);
    assert_eq!(as_float(&json["d"]), 5.0);
    assert_eq!(as_float(&json["e"]), 6.0);
}

#[test]
fn index_arr() {
    let mut json = array(vec![
        Json::from(0),
        Json::from(1),
        Json::from(2),
        Json::from(3),
        Json::from(4),
        Json::from(5),
    ]);

    for i in 0..6 {
        assert_eq!(as_float(&json[i]), i as f64);
        let product = as_float(&json[i]) * f64::from(2);
        *json.nth_mut(i).unwrap() = float(product);
        assert_eq!(as_float(&json[i]), (i * 2) as f64);
    }
}

#[test]
fn macro_test() {
    fn foo() -> u16 {
        12
    }

    let a = 1.0;
    let json = object(vec![
        ("a + 2", float(a + 2.0)),
        ("foo()", Json::from(foo())),
        ("nest", array(vec![Json::from((1 + 1) * 0), Json::from(2)])),
    ]);

    let obj = json.expect_object();
    assert_eq!(as_float(obj.get("a + 2").unwrap()), a + 2.0);
    assert_eq!(as_float(obj.get("foo()").unwrap()), foo() as f64);

    let nest = obj.get("nest").unwrap();
    assert_eq!(as_float(&nest[0]), 0.0);
    assert_eq!(as_float(&nest[1]), 2.0);
}

#[test]
fn literals_read_back() {
    assert_eq!(Json::deserialize("true").unwrap(), Json::True);
    assert_eq!(Json::deserialize("false").unwrap(), Json::False);
    assert_eq!(Json::deserialize("null").unwrap(), Json::Null);
    assert_eq!(
        Json::deserialize("\"string\"").unwrap(),
        Json::String("string".to_string())
    );
    assert_ne!(Json::True, Json::False);
    assert_ne!(Json::True, Json::Null);
    assert_ne!(Json::False, Json::Null);
}

#[test]
fn end_to_end() {
    let j = Json::deserialize(r#"{"array":[1,2,"3",null],"true":true,"nested":{"inner":[]}}"#)
        .unwrap();
    assert_eq!(
        j.get("array"),
        Some(&array(vec![
            Json::from(1),
            Json::from(2),
            Json::from("3"),
            Json::Null
        ]))
    );
    assert_eq!(j.get("true"), Some(&Json::True));
    assert_eq!(
        j.get("nested"),
        Some(&object(vec![("inner", array(vec![]))]))
    );
    assert_eq!(j.get("nested").unwrap().get("inner"), Some(&array(vec![])));
    assert_eq!(j.expect_object().len(), 3);
    assert_eq!(j.get("missing"), None);
}

#[test]
fn trailing_comma_on_list() {
    let e = failure("[1,2,]", JsonConfig::default());
    assert_eq!(e.get_message(), "Trailing comma on list");
    assert_eq!(e.to_string(), "[0:4]: Trailing comma on list");
    let j = Json::deserialize_with_config("[1,2,]", recovering()).unwrap();
    assert_eq!(j, array(vec![Json::from(1), Json::from(2)]));
}

#[test]
fn trailing_comma_in_object() {
    let e = failure(r#"{"a":1,}"#, JsonConfig::default());
    assert_eq!(e.get_message(), "Trailing comma in object");
    assert_eq!(e.to_string(), "[0:6]: Trailing comma in object");
    let j = Json::deserialize_with_config(r#"{"a":1,}"#, recovering()).unwrap();
    assert_eq!(j, object(vec![("a", Json::from(1))]));
}

#[test]
fn recovery_passes_over_trailing_commas_only() {
    assert_eq!(
        failure("[1,,2]", recovering()).to_string(),
        "[0:2]: Unknown token"
    );
    assert_eq!(
        Json::deserialize_with_config(r#"{"a":1,,}"#, recovering()).unwrap(),
        object(vec![("a", Json::from(1))])
    );
    assert_eq!(
        failure(r#"{"a":1, 5}"#, recovering()).to_string(),
        "[0:6]: Expected comma after element"
    );
    assert_eq!(
        failure(r#"{"a":1,"#, recovering()).to_string(),
        "[0:6]: Unclosed '{'"
    );
    assert_eq!(
        failure("[,]", recovering()).to_string(),
        "[0:0]: Unknown token"
    );
    assert_eq!(
        failure("{,}", recovering()).to_string(),
        "[0:0]: Expected STRING"
    );
}

#[test]
fn comments_are_gated() {
    let conf = JsonConfig {
        allow_comments: true,
        ..Default::default()
    };
    let j = Json::deserialize_with_config("12 // trailing comment", conf).unwrap();
    assert_eq!(j, Json::from(12));
    let e = failure("12 // trailing comment", JsonConfig::default());
    assert_eq!(e.get_message(), "[0:3] Comments are not supported");
    assert_eq!(e.to_string(), "[0:3] Comments are not supported");
    assert_eq!(e.file_pos().is_none(), true);
    let j = Json::deserialize_with_config("[1, /* two */ 2] // end", conf).unwrap();
    assert_eq!(j, array(vec![Json::from(1), Json::from(2)]));
}

#[test]
fn unknown_keyword_stops_the_reading() {
    let e = failure("keywrd", JsonConfig::default());
    assert_eq!(e.get_message(), "Unknown keyword 'keywrd'");
    assert_eq!(e.to_string(), "Unknown keyword 'keywrd'");
    let e = failure("[1, 2, nil]", recovering());
    assert_eq!(e.get_message(), "Unknown keyword 'nil'");
}

#[test]
fn lexer_failure_comes_before_parser_failure() {
    assert_eq!(shown("[1 2 $"), "[0:5] Unexpected character '$'");
    assert_eq!(shown("] \"abc"), "[0:2] Unterminated string");
}

#[test]
fn parser_failures() {
    assert_eq!(shown("[1 2]"), "[0:1]: Expected comma after element");
    assert_eq!(shown("[1"), "[0:1]: Unclosed '['");
    assert_eq!(shown("["), "[0:0]: Unclosed '['");
    assert_eq!(shown("[[1]"), "[0:3]: Unclosed '['");
    assert_eq!(shown("[,]"), "[0:0]: Unknown token");
    assert_eq!(shown("[-1]"), "[0:0]: Unknown token");
    assert_eq!(shown("[1,:]"), "[0:2]: Unknown token");
    assert_eq!(shown(r#"{"a" 1}"#), "[0:1]: Expected ':'");
    assert_eq!(shown(r#"{"a""#), "[0:1]: Expected ':'");
    assert_eq!(shown("{1:2}"), "[0:0]: Expected STRING");
    assert_eq!(shown("{"), "[0:0]: Unclosed '{'");
    assert_eq!(shown(r#"{"a":1"#), "[0:5]: Unclosed '{'");
    assert_eq!(shown(r#"{"a":}"#), "[0:4]: Unknown token");
    assert_eq!(shown(r#"{"a":1 "b":2}"#), "[0:5]: Expected comma after element");
    assert_eq!(shown(r#"{"a":1,2}"#), "[0:6]: Trailing comma in object");
}

#[test]
fn failure_before_any_token_has_no_position() {
    for text in ["", "   ", "]", "}", ",", ":", "-1", "+", "."] {
        let e = failure(text, JsonConfig::default());
        assert_eq!(e.get_message(), "Unknown token");
        assert!(e.file_pos().is_none());
        assert_eq!(e.to_string(), "Unknown token");
    }
}

#[test]
fn list_that_ends_behind_a_comma() {
    let e = failure("[1,", JsonConfig::default());
    assert_eq!(e.get_message(), "Unclosed '['");
    assert_eq!(e.to_string(), "[0:2]: Unclosed '['");
    let e = failure("[1,", recovering());
    assert_eq!(e.to_string(), "[0:2]: Unclosed '['");
    assert_eq!(shown("[[1,2],"), "[0:6]: Unclosed '['");
}

#[test]
fn failure_position_counts_lines() {
    let e = failure("[\n1,\n]", JsonConfig::default());
    assert_eq!(e.get_message(), "Trailing comma on list");
    let p = e.file_pos().unwrap();
    assert_eq!((p.start_line, p.start_col, p.end_line, p.end_col), (1, 2, 1, 3));
    assert_eq!(e.to_string(), "[1:2]: Trailing comma on list");
    assert_eq!(shown("{\n  \"a\": 1\n  \"b\": 2\n}"), "[1:8]: Expected comma after element");
    assert_eq!(shown("[\n\"two\nlines\" 1]"), "[1:1]: Expected comma after element");
    let e = failure("[\n\"two\nlines\" 1]", JsonConfig::default());
    let p = e.file_pos().unwrap();
    assert_eq!((p.start_line, p.start_col, p.end_line, p.end_col), (1, 1, 2, 7));
}

#[test]
fn tokens_behind_the_value_are_not_read() {
    assert_eq!(Json::deserialize("1 2").unwrap(), Json::from(1));
    assert_eq!(Json::deserialize("true]").unwrap(), Json::True);
    assert_eq!(Json::deserialize("[] [").unwrap(), array(vec![]));
    assert_eq!(Json::deserialize("{} ,").unwrap(), object(vec![]));
}

#[test]
fn depth_bound_is_exact() {
    for n in 1u32..6 {
        let mut text = "12".to_string();
        let mut value = Json::from(12);
        for _ in 0..n {
            text = format!("[{text}]");
            value = array(vec![value]);
        }
        let allow = |max_depth: u32| JsonConfig {
            max_depth,
            ..Default::default()
        };
        assert_eq!(
            failure(&text, allow(n - 1)).get_message(),
            "Max depth reached"
        );
        assert_eq!(Json::deserialize_with_config(&text, allow(n)).unwrap(), value);
        assert_eq!(Json::deserialize_with_config(&text, allow(n + 1)).unwrap(), value);
        assert_eq!(Json::deserialize(&text).unwrap(), value);
    }
}

#[test]
fn depth_counts_what_stands_around_a_value() {
    let allow = |max_depth: u32| JsonConfig {
        max_depth,
        ..Default::default()
    };
    assert_eq!(Json::deserialize_with_config("12", allow(0)).unwrap(), Json::from(12));
    assert_eq!(Json::deserialize_with_config("[]", allow(0)).unwrap(), array(vec![]));
    assert_eq!(Json::deserialize_with_config("{}", allow(0)).unwrap(), object(vec![]));
    assert_eq!(failure("[", allow(0)).to_string(), "[0:0]: Unclosed '['");
    assert_eq!(failure("[1]", allow(0)).to_string(), "[0:0]: Max depth reached");
    assert_eq!(failure("[[]]", allow(0)).to_string(), "[0:0]: Max depth reached");
    assert_eq!(failure(r#"{"a":1}"#, allow(0)).to_string(), "[0:4]: Max depth reached");
    assert_eq!(failure("{1}", allow(0)).to_string(), "[0:0]: Expected STRING");
    assert!(Json::deserialize_with_config("[[]]", allow(1)).is_ok());
    assert!(Json::deserialize_with_config(r#"{"a":[],"b":{}}"#, allow(1)).is_ok());
    assert_eq!(failure("[[[]]]", allow(1)).to_string(), "[0:1]: Max depth reached");
    assert_eq!(
        failure(r#"{"a":[],"b":{}}"#, allow(0)).to_string(),
        "[0:4]: Max depth reached"
    );
    assert_eq!(
        failure(r#"{"a":1,"b":{"c":2}}"#, allow(1)).to_string(),
        "[0:15]: Max depth reached"
    );
    assert_eq!(
        failure("[[1],[[2]]]", allow(2)).to_string(),
        "[0:6]: Max depth reached"
    );
    assert!(Json::deserialize_with_config("[[1],[2],[3]]", allow(2)).is_ok());
    assert_eq!(
        failure("[[1],[2],[3]]", allow(1)).to_string(),
        "[0:1]: Max depth reached"
    );
}

#[test]
fn later_value_of_a_key_wins() {
    let j = Json::deserialize(r#"{"a":1,"b":2,"a":3}"#).unwrap();
    assert_eq!(j.expect_object().len(), 2);
    assert_eq!(j["a"], Json::from(3));
    assert_eq!(j["b"], Json::from(2));
    assert_eq!(j.to_string(), r#"{"a":3,"b":2}"#);
}

#[test]
fn escaped_quotes_read_back() {
    for content in [r#"a\"b"#, r#"\\"#, r#"a\\\"b\\"#, r#"\n"#] {
        let value = Json::from(content);
        let text = value.to_string();
        assert_eq!(Json::deserialize(&text).unwrap(), value);
        let keyed = object(vec![(content, Json::Null)]);
        assert_eq!(Json::deserialize(&keyed.to_string()).unwrap(), keyed);
    }
}

#[test]
fn strings_are_kept_as_written() {
    let j = Json::deserialize(r#""a\nb\"c\\""#).unwrap();
    assert_eq!(j.expect_string(), r#"a\nb\"c\\"#);
    let j = Json::deserialize(r#""a\nb\"c\\ ""#).unwrap();
    assert_eq!(j.expect_string(), r#"a\nb\"c\\ "#);
    assert_eq!(j.to_string(), r#""a\nb\"c\\ ""#);
    let j = Json::deserialize(r#"{"k\"":"é€"}"#).unwrap();
    assert_eq!(j.get(r#"k\""#), Some(&Json::from("é€")));
    assert_eq!(Json::deserialize(r#""""#).unwrap(), Json::from(""));
}

#[test]
fn numbers_are_kept_as_written() {
    assert_eq!(Json::deserialize("12").unwrap().expect_number(), "12");
    assert_eq!(Json::deserialize("12.50").unwrap().expect_number(), "12.50");
    assert_eq!(Json::deserialize("007").unwrap().to_string(), "007");
    assert_eq!(as_float(&Json::deserialize("12.50").unwrap()), 12.5);
    assert_eq!(as_float(&Json::deserialize("0.1").unwrap()), 0.1);
}

#[test]
fn number_that_is_no_decimal_literal_is_refused() {
    let e = failure("٣", JsonConfig::default());
    assert_eq!(e.get_message(), "invalid float literal");
    assert_eq!(e.to_string(), "[0:0]: invalid float literal");
    assert_eq!(shown("[1, 2٣]"), "[0:4]: invalid float literal");
    assert_eq!(shown("1.٣"), "[0:0]: invalid float literal");
    assert!("٣".parse::<f64>().is_err());
}

#[test]
fn text_is_compact() {
    let text = " { \"a\" : [ 1 , 2.5 , \"x y\" , null , true , false ] , \"b\" : { } , \"c\" : [ ] } ";
    let j = Json::deserialize(text).unwrap();
    assert_eq!(
        j.to_string(),
        r#"{"a":[1,2.5,"x y",null,true,false],"b":{},"c":[]}"#
    );
    let mut out = String::from("json: ");
    j.serialize(&mut out);
    assert_eq!(out, r#"json: {"a":[1,2.5,"x y",null,true,false],"b":{},"c":[]}"#);
}

#[test]
fn text_of_each_kind() {
    assert_eq!(Json::True.to_string(), "true");
    assert_eq!(Json::False.to_string(), "false");
    assert_eq!(Json::Null.to_string(), "null");
    assert_eq!(Json::from("a b").to_string(), "\"a b\"");
    assert_eq!(Json::from(-7).to_string(), "-7");
    assert_eq!(array(vec![]).to_string(), "[]");
    assert_eq!(array(vec![Json::Null]).to_string(), "[null]");
    assert_eq!(array(vec![Json::Null, Json::True]).to_string(), "[null,true]");
    assert_eq!(object(vec![]).to_string(), "{}");
    assert_eq!(object(vec![("k", Json::Null)]).to_string(), r#"{"k":null}"#);
    assert_eq!(
        object(vec![("k", Json::Null), ("l", array(vec![Json::from(1)]))]).to_string(),
        r#"{"k":null,"l":[1]}"#
    );
}

#[test]
fn written_text_reads_back() {
    let values = vec![
        Json::True,
        Json::False,
        Json::Null,
        Json::from("plain text, with [brackets] and {braces}: / * //"),
        Json::from(""),
        Json::from(12),
        Json::Number("0.5".to_string()),
        array(vec![]),
        object(vec![]),
        array(vec![Json::True, Json::from("a"), array(vec![Json::Null]), object(vec![])]),
        object(vec![
            ("b", Json::from(1)),
            ("a", array(vec![Json::from(2), object(vec![("x", Json::False)])])),
            ("", Json::Null),
        ]),
    ];
    let comments = JsonConfig {
        allow_comments: true,
        recover_from_errors: true,
        max_depth: 3,
    };
    for value in values {
        let text = value.to_string();
        let again = Json::deserialize(&text).unwrap();
        assert_eq!(again, value);
        assert_eq!(again.to_string(), text);
        let again = Json::deserialize_with_config(&text, comments).unwrap();
        assert_eq!(again, value);
        assert_eq!(again.to_string(), text);
    }
}

#[test]
fn written_text_of_a_quote_does_not_read_back() {
    let value = Json::from("a\"b");
    assert_eq!(value.to_string(), "\"a\"b\"");
    assert_eq!(
        failure(&value.to_string(), JsonConfig::default()).get_message(),
        "Unknown keyword 'b'"
    );
    let value = Json::from(-1);
    assert_eq!(
        failure(&value.to_string(), JsonConfig::default()).get_message(),
        "Unknown token"
    );
    let value = Json::from("\" \"");
    assert_eq!(value.to_string(), "\"\" \"\"");
    assert_eq!(Json::deserialize(&value.to_string()).unwrap(), Json::from(""));
}

#[test]
fn objects_are_the_same_in_any_order() {
    let one = object(vec![("a", Json::from(1)), ("b", Json::from(2))]);
    let other = object(vec![("b", Json::from(2)), ("a", Json::from(1))]);
    assert_eq!(one, other);
    assert_eq!(other, one);
    assert!(one.same_as(&other));
    assert!(other.same_as(&one));
    assert_ne!(one.to_string(), other.to_string());
    assert_ne!(one, object(vec![("a", Json::from(1))]));
    assert_ne!(one, object(vec![("a", Json::from(1)), ("b", Json::from(3))]));
    assert_ne!(one, object(vec![("a", Json::from(1)), ("c", Json::from(2))]));
    assert_ne!(one, array(vec![Json::from(1), Json::from(2)]));
}

#[test]
fn arrays_are_the_same_in_the_same_order() {
    let one = array(vec![Json::from(1), Json::from(2)]);
    assert_eq!(one, array(vec![Json::from(1), Json::from(2)]));
    assert_ne!(one, array(vec![Json::from(2), Json::from(1)]));
    assert_ne!(one, array(vec![Json::from(1)]));
    assert_ne!(Json::from("1"), Json::from(1));
    assert_ne!(Json::from("a"), Json::from("b"));
    assert_eq!(Json::from("a"), Json::from("a".to_string()));
}

#[test]
fn values_from_plain_data() {
    assert_eq!(Json::from(true), Json::True);
    assert_eq!(Json::from(false), Json::False);
    assert_eq!(Json::from(0u8).expect_number(), "0");
    assert_eq!(Json::from(255u8).expect_number(), "255");
    assert_eq!(Json::from(65535u16).expect_number(), "65535");
    assert_eq!(Json::from(-32768i16).expect_number(), "-32768");
    assert_eq!(Json::from(i32::MIN).expect_number(), "-2147483648");
    assert_eq!(Json::from(i32::MAX).expect_number(), "2147483647");
    assert_eq!(Json::from(1090).expect_number(), "1090");
    assert_eq!(Json::from("s").expect_string(), "s");
    assert_eq!(Json::from("s".to_string()).expect_string(), "s");
    assert_eq!(Json::from(vec![Json::Null]).expect_array().len(), 1);
    assert_eq!(Json::from(Object::new()).expect_object().len(), 0);
}

#[test]
fn looking_into_values() {
    let j = Json::deserialize(r#"{"s":"x","n":1.5,"t":true,"f":false,"z":null,"a":[1,2],"o":{}}"#)
        .unwrap();
    assert_eq!(j["s"].string(), Some("x"));
    assert_eq!(j["s"].number(), None);
    assert_eq!(j["n"].number(), Some("1.5"));
    assert_eq!(j["n"].string(), None);
    assert_eq!(j["t"].boolean(), Some(true));
    assert_eq!(j["f"].boolean(), Some(false));
    assert_eq!(j["z"].boolean(), None);
    assert!(j["t"].expect_boolean());
    assert!(!j["f"].expect_boolean());
    assert!(j["z"].is_null());
    assert!(!j["t"].is_null());
    assert_eq!(j["a"].array().map(|a| a.len()), Some(2));
    assert_eq!(j["a"].expect_array()[1], Json::from(2));
    assert!(j["a"].object().is_none());
    assert!(j["o"].object().unwrap().is_empty());
    assert!(j["o"].array().is_none());
    assert_eq!(j["a"].nth(0), Some(&Json::from(1)));
    assert_eq!(j["a"].nth(2), None);
    assert_eq!(j["o"].nth(0), None);
    assert_eq!(j["a"].get("a"), None);
    assert_eq!(j["a"][0], Json::from(1));
    assert_eq!(j.get("s"), Some(&Json::from("x")));
    assert_eq!(j.get("S"), None);
    let o = j.expect_object();
    assert_eq!(o.len(), 7);
    assert_eq!(o.key_at(1), "n");
    assert_eq!(o.value_at(1), &Json::Number("1.5".to_string()));
    assert_eq!(o.position("z"), 4);
    assert_eq!(o.position("none"), 7);
}

#[test]
fn changing_values_in_place() {
    let mut j = Json::deserialize(r#"{"s":"x","n":1,"a":[1,2],"o":{"k":null}}"#).unwrap();
    j.get_mut("s").unwrap().expect_string_mut().push('y');
    *j.get_mut("n").unwrap().number_mut().unwrap() = "2".to_string();
    *j.get_mut("n").unwrap().expect_number_mut() += "5";
    j.get_mut("a").unwrap().expect_array_mut().push(Json::True);
    *j.get_mut("a").unwrap().nth_mut(0).unwrap() = Json::Null;
    j.get_mut("a").unwrap().array_mut().unwrap().remove(1);
    j.get_mut("o").unwrap().expect_object_mut().insert("k".to_string(), Json::from(1));
    j.get_mut("o").unwrap().object_mut().unwrap().insert("l".to_string(), Json::from(2));
    *j.get_mut("o").unwrap().get_mut("l").unwrap() = Json::from(3);
    j.get_mut("s").unwrap().string_mut().unwrap().push('z');
    assert!(j.get_mut("none").is_none());
    assert!(j.nth_mut(0).is_none());
    assert!(j.string_mut().is_none());
    assert!(j.number_mut().is_none());
    assert!(j.array_mut().is_none());
    assert!(j.get_mut("s").unwrap().object_mut().is_none());
    assert_eq!(
        j.to_string(),
        r#"{"s":"xyz","n":25,"a":[null,true],"o":{"k":1,"l":3}}"#
    );
}

#[test]
fn object_keeps_each_key_once() {
    let mut o = Object::new();
    assert!(o.is_empty());
    o.insert("a".to_string(), Json::from(1));
    o.insert("b".to_string(), Json::from(2));
    o.insert("a".to_string(), Json::from(3));
    assert_eq!(o.len(), 2);
    assert_eq!(o.get("a"), Some(&Json::from(3)));
    assert_eq!(o.get("b"), Some(&Json::from(2)));
    assert_eq!(o.get("c"), None);
    assert_eq!(o.key_at(0), "a");
    assert_eq!(o.key_at(1), "b");
    assert!(!o.is_empty());
}

#[test]
fn errors_from_plain_text() {
    let mut e = Error::new("message".to_string());
    assert_eq!(e.get_message(), "message");
    assert!(e.file_pos().is_none());
    assert_eq!(e.to_string(), "message");
    let p = json::lexer::span::Span { offset: 2, len: 1 }.file_position("a\nb");
    e.set_file_pos(p);
    assert_eq!(e.get_message(), "message");
    assert_eq!(e.to_string(), "[1:1]: message");
    assert_eq!(Error::from("text").get_message(), "text");
    assert_eq!(Error::from("text".to_string()).to_string(), "text");
}

#[test]
fn default_configuration_is_strict() {
    let conf = JsonConfig::default();
    assert_eq!(conf.max_depth, u32::MAX);
    assert!(!conf.recover_from_errors);
    assert!(!conf.allow_comments);
}
