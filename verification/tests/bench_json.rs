use shinri::bench::json::{escape, parse_object, JsonVal};

#[test]
fn escape_round_trips_control_and_unicode() {
    let s = "a\"b\\c\nd\te\u{1F600}\u{1}";
    let e = escape(s);
    assert_eq!(e, "\"a\\\"b\\\\c\\nd\\te\u{1F600}\\u0001\"");
    let obj = parse_object(&format!("{{\"k\":{e}}}")).unwrap();
    assert_eq!(obj[0].0, "k");
    assert!(matches!(&obj[0].1, JsonVal::Str(v) if v == s));
}

#[test]
fn parse_flat_object_with_all_value_kinds() {
    let obj = parse_object(
        r#"{"s":"x","n":-42,"b":true,"z":null,"a":["sat","unsat"],"o":{"z3":"sat","cvc5":null}}"#,
    )
    .unwrap();
    assert_eq!(obj.len(), 6);
    assert!(matches!(&obj[1].1, JsonVal::Num(-42)));
    assert!(matches!(&obj[2].1, JsonVal::Bool(true)));
    assert!(matches!(&obj[3].1, JsonVal::Null));
    assert!(matches!(&obj[4].1, JsonVal::Arr(a) if a.len() == 2));
    assert!(matches!(&obj[5].1, JsonVal::Obj(o) if o.len() == 2));
}

#[test]
fn parse_rejects_garbage() {
    assert!(parse_object("{\"k\":}").is_none());
    assert!(parse_object("not json").is_none());
    assert!(parse_object("{\"k\":\"unterminated}").is_none());
}

#[test]
fn escape_writes_every_control_character_as_a_unicode_escape() {
    assert_eq!(escape("\u{0}\u{1f}\r"), "\"\\u0000\\u001f\\r\"");
    assert_eq!(escape(""), "\"\"");
    assert_eq!(escape("é|x"), "\"é|x\"");
}

#[test]
fn unicode_escapes_and_surrogate_pairs_decode() {
    let obj = parse_object(r#"{"a":"\u00e9\ud83d\ude00\/","b":"\u+041"}"#).unwrap();
    assert!(matches!(&obj[0].1, JsonVal::Str(v) if v == "é\u{1F600}/"));
    // `u32::from_str_radix` takes a leading `+`.
    assert!(matches!(&obj[1].1, JsonVal::Str(v) if v == "A"));
    assert!(parse_object(r#"{"a":"\udc00"}"#).is_none());
    assert!(parse_object(r#"{"a":"\ud83d"}"#).is_none());
    assert!(parse_object(r#"{"a":"\q"}"#).is_none());
}

#[test]
fn numbers_are_integers_that_fit_an_i64() {
    let obj = parse_object(r#"{"a":-9223372036854775808,"b":9223372036854775807,"c":007}"#).unwrap();
    assert!(matches!(&obj[0].1, JsonVal::Num(i64::MIN)));
    assert!(matches!(&obj[1].1, JsonVal::Num(i64::MAX)));
    assert!(matches!(&obj[2].1, JsonVal::Num(7)));
    assert!(parse_object(r#"{"a":9223372036854775808}"#).is_none());
    assert!(parse_object(r#"{"a":1.5}"#).is_none());
    assert!(parse_object(r#"{"a":-}"#).is_none());
}

#[test]
fn only_white_space_may_surround_the_object() {
    assert!(parse_object(" \t{\"a\":[ 1 , [] , {} ]}\r\n").is_some());
    assert!(parse_object("{} x").is_none());
    assert!(parse_object("[1]").is_none());
    assert!(parse_object("").is_none());
    assert_eq!(parse_object("{}").unwrap().len(), 0);
    assert!(parse_object("{\"a\":1,}").is_none());
    assert!(parse_object("{\"a\":tru}").is_none());
}

#[test]
fn duplicate_keys_are_all_kept_in_order() {
    let obj = parse_object(r#"{"k":1,"k":2}"#).unwrap();
    assert_eq!(obj.len(), 2);
    assert!(matches!(&obj[1].1, JsonVal::Num(2)));
}
