use list_lang::data::ListData;
use list_lang::value::{parse_simple_value, value_to_string, ListValue};

fn doc(text: &str) -> ListData {
    ListData::from_string(text).unwrap()
}

#[test]
fn parses_and_renders_a_document() {
    let d = doc("[a,b];x");
    assert_eq!(d.len(), 2);
    assert_eq!(d.to_string(), "[a,b]; x;");
}

#[test]
fn empty_text_is_an_empty_document() {
    let d = doc("");
    assert!(d.is_empty());
    assert_eq!(d.to_string(), ";");
}

#[test]
fn key_value_with_array_renders_back() {
    let d = doc("blue:[hello:hi,bye,light:www];");
    assert_eq!(d.to_string(), "blue:[hello:hi,bye,light:www];");
    assert_eq!(value_to_string(d.get(&[0, 1]).unwrap()), "bye");
}

#[test]
fn unexpected_character_is_reported_with_its_position() {
    let e = ListData::from_string("[a,b];?").unwrap_err();
    assert_eq!(e, "意外的字符 '?' 在位置 6");
}

#[test]
fn unclosed_array_is_reported() {
    let e = ListData::from_string("[a,b").unwrap_err();
    assert_eq!(e, "未闭合的数组");
}

#[test]
fn unexpected_character_in_array_is_reported() {
    let e = ListData::from_string("[a,$]").unwrap_err();
    assert_eq!(e, "数组中意外的字符 '$' 在位置 3");
}

#[test]
fn append_to_array() {
    let mut d = doc("[a,b];");
    assert!(d.append(0, ListValue::String("c".to_string())).is_ok());
    assert_eq!(d.to_string(), "[a,b,c];");
}

#[test]
fn append_to_non_array_is_refused() {
    let mut d = doc("[a,b]; x;");
    let e = d.append(1, ListValue::String("c".to_string())).unwrap_err();
    assert_eq!(e, "索引 1 不是数组");
    assert_eq!(d.to_string(), "[a,b]; x;");
}

#[test]
fn insert_into_array() {
    let mut d = doc("[a,b];");
    assert!(d.insert(0, 1, ListValue::String("z".to_string())).is_ok());
    assert_eq!(d.to_string(), "[a,z,b];");
}

#[test]
fn insert_past_the_end_is_refused() {
    let mut d = doc("[a,b];");
    let e = d.insert(0, 5, ListValue::String("z".to_string())).unwrap_err();
    assert_eq!(e, "位置 5 超出范围");
    assert_eq!(d.to_string(), "[a,b];");
}

#[test]
fn insert_into_non_array_is_refused() {
    let mut d = doc("x;");
    let e = d.insert(0, 0, ListValue::String("z".to_string())).unwrap_err();
    assert_eq!(e, "索引 0 不是数组");
}

#[test]
fn delete_and_its_refusal() {
    let mut d = doc("[a]; x; y;");
    assert_eq!(d.delete(3).unwrap_err(), "索引 3 超出范围");
    assert!(d.delete(1).is_ok());
    assert_eq!(d.to_string(), "[a]; y;");
}

#[test]
fn replace_and_its_refusal() {
    let mut d = doc("[a]; x;");
    assert_eq!(d.replace(2, ListValue::String("q".to_string())).unwrap_err(), "索引 2 超出范围");
    assert!(d.replace(0, ListValue::String("q".to_string())).is_ok());
    assert_eq!(d.to_string(), "q; x;");
}

#[test]
fn arrays_slices_and_finds() {
    let d = doc("[a,b,c]; x;");
    assert_eq!(d.get_array(0).unwrap(), vec!["a", "b", "c"]);
    assert!(d.get_array(1).is_none());
    assert!(d.get_array(7).is_none());
    assert_eq!(d.get_slice(0, 1, 0).unwrap(), vec!["b", "c"]);
    assert_eq!(d.get_slice(0, 1, 2).unwrap(), vec!["b"]);
    assert_eq!(d.get_slice(0, 3, 2).unwrap(), Vec::<String>::new());
    assert_eq!(d.find("x"), vec![1]);
    assert_eq!(d.find_in_array(0, "c").unwrap(), vec![2]);
    assert!(d.find_in_array(1, "c").is_none());
}

#[test]
fn simple_values_from_text() {
    assert_eq!(value_to_string(&parse_simple_value("  hi ")), "hi");
    match parse_simple_value(" a , b ") {
        ListValue::Array(a) => {
            assert_eq!(a.len(), 2);
            assert_eq!(value_to_string(&a[0]), "a");
            assert_eq!(value_to_string(&a[1]), "b");
        }
        other => panic!("expected an array, got {:?}", other),
    }
}

#[test]
fn help_text() {
    let d = doc("[a];");
    assert!(d.get_help().starts_with(".list 命令帮助"));
}

#[test]
fn names_separated_by_spaces_make_one_top_level_value() {
    let d = doc("[apple,banana,cherry]; [red,green,blue]; hello world;");
    assert_eq!(d.len(), 3);
    assert_eq!(value_to_string(&d.items[2]), "hello world");
    let e = doc("one two  ;three\n");
    assert_eq!(e.len(), 2);
    assert_eq!(value_to_string(&e.items[0]), "one two");
    assert_eq!(value_to_string(&e.items[1]), "three");
    assert_eq!(doc("key:some text; x;").to_string(), "key:some text; x;");
}

#[test]
fn other_separators_still_end_a_top_level_value() {
    assert_eq!(doc("a, b;").len(), 2);
    let d = doc("name\n[x];");
    assert_eq!(d.len(), 2);
    assert_eq!(d.to_string(), "name; [x];");
    assert_eq!(doc("hello [x];").to_string(), "hello; [x];");
    let e = doc("hello world:x;");
    assert_eq!(e.len(), 2);
    assert_eq!(value_to_string(&e.items[1]), "world:x");
    assert_eq!(ListData::from_string("hello]").unwrap_err(), "意外的字符 ']' 在位置 5");
    assert_eq!(ListData::from_string("hello ?").unwrap_err(), "意外的字符 '?' 在位置 6");
}
