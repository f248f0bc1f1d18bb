use list_lang::c_ffi::{parse_replacement_c, parse_simple_value_c};
use list_lang::command::Step;
use list_lang::data::ListData;
use list_lang::session::{initial_content, opens_as_binary, prompt_line};
use list_lang::value::value_to_string;

#[test]
fn binary_files_by_name_or_request() {
    assert!(opens_as_binary("a.listb", false));
    assert!(opens_as_binary("a.listbin", false));
    assert!(!opens_as_binary("a.list", false));
    assert!(opens_as_binary("a.list", true));
}

#[test]
fn new_file_contents() {
    assert_eq!(initial_content(None, true), "[binary_mode];");
    assert_eq!(initial_content(None, false), "[empty];");
    assert_eq!(initial_content(Some("[1,2,3];".to_string()), true), "[1,2,3];");
}

#[test]
fn prompt_lines() {
    let mut d = ListData::from_string("[a,b];").unwrap();
    assert!(prompt_line(&mut d, "   ").is_none());
    match prompt_line(&mut d, "  [0]  \n") {
        Some(Step::Reply(Ok(s))) => assert_eq!(s, "[a,b]"),
        other => panic!("unexpected {:?}", other),
    }
    assert!(matches!(prompt_line(&mut d, "exit()"), Some(Step::Exit)));
}

#[test]
fn values_passed_as_text() {
    assert_eq!(value_to_string(&parse_simple_value_c(" a , b ")), "[a,b]");
    assert_eq!(value_to_string(&parse_simple_value_c("  x ")), "x");
    assert_eq!(value_to_string(&parse_replacement_c("[1, 2]")), "[1,2]");
    assert_eq!(value_to_string(&parse_replacement_c("[ ]")), "[]");
    assert_eq!(value_to_string(&parse_replacement_c(" q ")), " q ");
    assert_eq!(value_to_string(&parse_replacement_c("[")), "[");
}
