use dotconf::{parse_dotconf, EnvTable, LookupResult, Value};

#[test]
fn it_works() {
    let raw = "
        a = hi
        b = -123
        c = false
        ";
    let mut env = EnvTable::new();
    env.init_with_content(raw);
    assert_eq!(env.var("a").to_string(), Some("hi".to_string()));
    assert_eq!(env.var("b").to_isize(), Some(-123isize));
    assert_eq!(env.var("c").to_bool(), Some(false));
}

#[test]
fn three_records_scenario() {
    let mut env = EnvTable::new();
    env.init_with_content("a = hi\nb = -123\nc = false\n");
    assert_eq!(env.var("a").to_string(), Some("hi".to_string()));
    assert_eq!(env.var("b").to_isize(), Some(-123isize));
    assert_eq!(env.var("c").to_bool(), Some(false));
}

#[test]
fn parse_strips_whitespace_around_separator() {
    let pairs = parse_dotconf("  KEY \t=   VALUE  ");
    assert_eq!(pairs, vec![("KEY".to_string(), "VALUE".to_string())]);
}

#[test]
fn comment_excluded_even_before_separator() {
    let pairs = parse_dotconf("key # = value");
    assert!(pairs.is_empty());
}

#[test]
fn comment_excluded_from_value() {
    let pairs = parse_dotconf("key = va # lue");
    assert_eq!(pairs, vec![("key".to_string(), "va".to_string())]);
}

#[test]
fn lines_without_separator_yield_nothing() {
    assert!(parse_dotconf("just some text").is_empty());
    assert!(parse_dotconf("# a full comment line\n\nno separator here\n").is_empty());
}

#[test]
fn empty_text_yields_no_entries() {
    assert!(parse_dotconf("").is_empty());
}

#[test]
fn value_keeps_everything_after_first_separator() {
    let pairs = parse_dotconf("x=a=b");
    assert_eq!(pairs, vec![("x".to_string(), "a=b".to_string())]);
}

#[test]
fn url_value_with_trailing_comment() {
    let pairs = parse_dotconf("url = https://x.com  # comment");
    assert_eq!(pairs, vec![("url".to_string(), "https://x.com".to_string())]);
}

#[test]
fn lookup_after_init() {
    let mut env = EnvTable::new();
    env.init_with_content("a=b");
    assert_eq!(env.var("a").to_string(), Some("b".to_string()));
    assert_eq!(env.var("nonexistent").to_string(), None);
}

#[test]
fn reinit_overwrites_overlapping_keys() {
    let mut env = EnvTable::new();
    env.init_with_content("a = 1\nb = 2\n");
    env.init_with_content("a = 9\n");
    assert_eq!(env.var("a").to_string(), Some("9".to_string()));
    assert_eq!(env.var("b").to_string(), Some("2".to_string()));
}

#[test]
fn duplicate_keys_parse_in_order_and_last_wins() {
    let pairs = parse_dotconf("k = 1\nk = 2\n");
    assert_eq!(
        pairs,
        vec![
            ("k".to_string(), "1".to_string()),
            ("k".to_string(), "2".to_string()),
        ]
    );
    let mut env = EnvTable::new();
    env.apply(&pairs);
    assert_eq!(env.var("k").to_string(), Some("2".to_string()));
}

#[test]
fn set_var_overwrites_earlier_binding() {
    let mut env = EnvTable::new();
    env.set_var("k".to_string(), "old".to_string());
    env.set_var("k".to_string(), "new".to_string());
    assert_eq!(env.var("k").to_string(), Some("new".to_string()));
}

#[test]
fn signed_conversion_accepts_negative() {
    let v = Value(LookupResult::Found("-123".to_string()));
    assert_eq!(v.to_isize(), Some(-123isize));
}

#[test]
fn unsigned_conversion_rejects_negative() {
    let v = Value(LookupResult::Found("-123".to_string()));
    assert_eq!(v.to_usize(), None);
}

#[test]
fn unsigned_conversion_accepts_plain_and_plus() {
    let v = Value(LookupResult::Found("42".to_string()));
    assert_eq!(v.to_usize(), Some(42usize));
    let v = Value(LookupResult::Found("+42".to_string()));
    assert_eq!(v.to_usize(), Some(42usize));
}

#[test]
fn signed_conversion_handles_extremes() {
    let v = Value(LookupResult::Found(isize::MIN.to_string()));
    assert_eq!(v.to_isize(), Some(isize::MIN));
    let v = Value(LookupResult::Found(isize::MAX.to_string()));
    assert_eq!(v.to_isize(), Some(isize::MAX));
    let v = Value(LookupResult::Found("99999999999999999999999999".to_string()));
    assert_eq!(v.to_isize(), None);
}

#[test]
fn conversion_rejects_malformed_numbers() {
    for text in ["", "-", "+", "12a", " 12", "1 2", "--3"] {
        let v = Value(LookupResult::Found(text.to_string()));
        assert_eq!(v.to_isize(), None, "to_isize on {:?}", text);
        let v = Value(LookupResult::Found(text.to_string()));
        assert_eq!(v.to_usize(), None, "to_usize on {:?}", text);
    }
}

#[test]
fn bool_conversion_is_case_insensitive() {
    let v = Value(LookupResult::Found("true".to_string()));
    assert_eq!(v.to_bool(), Some(true));
    let v = Value(LookupResult::Found("TRUE".to_string()));
    assert_eq!(v.to_bool(), Some(true));
    let v = Value(LookupResult::Found("False".to_string()));
    assert_eq!(v.to_bool(), Some(false));
    let v = Value(LookupResult::Found("1".to_string()));
    assert_eq!(v.to_bool(), None);
    let v = Value(LookupResult::Found("yes".to_string()));
    assert_eq!(v.to_bool(), None);
}

#[test]
fn absent_lookups_convert_to_nothing() {
    assert_eq!(Value(LookupResult::NotFound).to_string(), None);
    assert_eq!(Value(LookupResult::NotFound).to_isize(), None);
    assert_eq!(Value(LookupResult::NotUnicode).to_string(), None);
    assert_eq!(Value(LookupResult::NotUnicode).to_bool(), None);
}

#[test]
fn error_keeps_its_message_verbatim() {
    let e = dotconf::Error::new("No such file or directory (os error 2)".to_string());
    assert_eq!(
        e.to_string(),
        "No such file or directory (os error 2)".to_string()
    );
}
