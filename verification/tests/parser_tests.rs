use dorea::handle::{parser, parse_sub_argument, HandleType, ParseError, ParseMeta};

#[test]
fn verb_case_insensitive() {
    let a = parser("get k".to_string()).unwrap();
    let b = parser("GET k".to_string()).unwrap();
    let c = parser("Get k".to_string()).unwrap();
    assert_eq!(a.handle_type, HandleType::GET);
    assert_eq!(b.handle_type, HandleType::GET);
    assert_eq!(c.handle_type, HandleType::GET);
    assert_eq!(a.sub_argument, b.sub_argument);
    assert_eq!(b.sub_argument, c.sub_argument);
}

#[test]
fn all_verbs_parse() {
    assert_eq!(parser("GET k".to_string()).unwrap().handle_type, HandleType::GET);
    assert_eq!(parser("set k v".to_string()).unwrap().handle_type, HandleType::SET);
    assert_eq!(parser("Remove k".to_string()).unwrap().handle_type, HandleType::REMOVE);
    assert_eq!(parser("clean".to_string()).unwrap().handle_type, HandleType::CLEAN);
    assert_eq!(parser("SELECT db".to_string()).unwrap().handle_type, HandleType::SELECT);
    assert_eq!(parser("dict k get".to_string()).unwrap().handle_type, HandleType::DICT);
}

#[test]
fn empty_input_is_an_error() {
    let e = parser(String::new()).unwrap_err();
    assert_eq!(e, ParseError::EmptyInput);
    assert_eq!(e.message(), "empty input");
}

#[test]
fn unknown_verb_is_an_error() {
    let e = parser("frobnicate x".to_string()).unwrap_err();
    match &e {
        ParseError::UnknownCommand(v) => assert_eq!(v, "frobnicate"),
        other => panic!("expected unknown command, got {:?}", other),
    }
    assert_eq!(e.message(), "unknown command: frobnicate");
}

#[test]
fn dict_with_too_few_tokens_is_missing_parameters() {
    let e = parser("DICT k".to_string()).unwrap_err();
    assert_eq!(e, ParseError::MissingParameters(HandleType::DICT));
    assert_eq!(e.message(), "missing parameters: DICT");
}

#[test]
fn set_without_value_is_missing_parameters() {
    let e = parser("SET k".to_string()).unwrap_err();
    assert_eq!(e, ParseError::MissingParameters(HandleType::SET));
    assert_eq!(e.message(), "missing parameters: SET");
}

#[test]
fn positional_binding_in_order() {
    let m = parser("SET mykey myvalue".to_string()).unwrap();
    assert_eq!(
        m.sub_argument,
        vec![
            ("key".to_string(), "mykey".to_string()),
            ("value".to_string(), "myvalue".to_string()),
        ]
    );
}

#[test]
fn extra_tokens_join_into_other() {
    let m = parser("SET k a b c".to_string()).unwrap();
    assert_eq!(
        m.sub_argument,
        vec![
            ("key".to_string(), "k".to_string()),
            ("value".to_string(), "a".to_string()),
            ("other".to_string(), "b c".to_string()),
        ]
    );
}

#[test]
fn clean_takes_no_parameters_and_extras_go_to_other() {
    let m = parser("CLEAN x y".to_string()).unwrap();
    assert_eq!(m.sub_argument, vec![("other".to_string(), "x y".to_string())]);
}

#[test]
fn parse_sub_argument_reports_the_verb() {
    let toks: Vec<String> = vec!["k".to_string()];
    let r = parse_sub_argument(&toks, &HandleType::DICT);
    assert_eq!(r.unwrap_err(), ParseError::MissingParameters(HandleType::DICT));
    let ok = parse_sub_argument(&toks, &HandleType::GET).unwrap();
    assert_eq!(ok, vec![("key".to_string(), "k".to_string())]);
}

#[test]
fn parse_meta_new_defaults_to_select() {
    let m = ParseMeta::new();
    assert_eq!(m.handle_type, HandleType::SELECT);
    assert!(m.sub_argument.is_empty());
}

#[test]
fn handle_type_to_string() {
    assert_eq!(HandleType::GET.to_string(), "GET");
    assert_eq!(HandleType::DICT.to_string(), "DICT");
    assert_eq!(HandleType::REMOVE.to_string(), "REMOVE");
}
