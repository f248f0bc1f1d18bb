use list_lang::binary::{frame_binary, unframe_binary};
use list_lang::data::ListData;
use list_lang::value::{value_to_string, ListValue};

fn doc(text: &str) -> ListData {
    ListData::from_string(text).unwrap()
}

fn read(d: &ListData, path: &[usize]) -> Option<String> {
    d.get(path).map(value_to_string)
}

#[test]
fn append_then_read_back() {
    let mut d = doc("[a,b]; x;");
    d.append(0, ListValue::String("c".to_string())).unwrap();
    assert_eq!(read(&d, &[0, 2]).as_deref(), Some("c"));
    assert_eq!(read(&d, &[0, 0]).as_deref(), Some("a"));
    assert_eq!(read(&d, &[0, 3]), None);
    assert_eq!(read(&d, &[1]).as_deref(), Some("x"));
}

#[test]
fn insert_then_read_back() {
    let mut d = doc("[a,b];");
    d.insert(0, 1, ListValue::String("z".to_string())).unwrap();
    assert_eq!(read(&d, &[0, 0]).as_deref(), Some("a"));
    assert_eq!(read(&d, &[0, 1]).as_deref(), Some("z"));
    assert_eq!(read(&d, &[0, 2]).as_deref(), Some("b"));
    assert_eq!(read(&d, &[0, 3]), None);
}

#[test]
fn replace_then_read_back() {
    let mut d = doc("[a]; x; y;");
    d.replace(1, ListValue::String("q".to_string())).unwrap();
    assert_eq!(read(&d, &[1]).as_deref(), Some("q"));
    assert_eq!(read(&d, &[0]).as_deref(), Some("[a]"));
    assert_eq!(read(&d, &[2]).as_deref(), Some("y"));
}

#[test]
fn delete_then_read_back() {
    let mut d = doc("[a]; x; y;");
    d.delete(1).unwrap();
    assert_eq!(d.len(), 2);
    assert_eq!(read(&d, &[0]).as_deref(), Some("[a]"));
    assert_eq!(read(&d, &[1]).as_deref(), Some("y"));
    assert_eq!(read(&d, &[2]), None);
}

#[test]
fn refused_edits_keep_the_document() {
    let mut d = doc("[a]; x;");
    let before = d.to_string();
    assert!(d.append(1, ListValue::String("c".to_string())).is_err());
    assert!(d.insert(0, 9, ListValue::String("c".to_string())).is_err());
    assert!(d.replace(5, ListValue::String("c".to_string())).is_err());
    assert!(d.delete(5).is_err());
    assert_eq!(d.to_string(), before);
}

#[test]
fn set_then_read_a_variable() {
    let mut d = doc("[a,b];");
    d.execute_command("$k = \"one\"").unwrap();
    d.execute_command("$m = two").unwrap();
    d.execute_command("$k = [0][0]").unwrap();
    assert_eq!(value_to_string(d.variables.get("k").unwrap()), "a");
    assert_eq!(value_to_string(d.variables.get("m").unwrap()), "two");
    assert_eq!(d.variables.len(), 2);
    assert!(d.variables.get("z").is_none());
    assert_eq!(d.to_string(), "[a,b];");
}

#[test]
fn frame_round_trip() {
    let bytes: Vec<u8> = vec![0, 1, 2, 255];
    assert_eq!(unframe_binary(&frame_binary(&bytes)).unwrap(), bytes);
}

#[test]
fn merge_then_subtract() {
    let mut d = doc("[a,b];");
    d.merge(&doc("[c,d];"));
    assert_eq!(d.to_string(), "[a,b,c,d];");
    d.subtract(&doc("[a,b];"));
    assert_eq!(d.to_string(), "[c,d];");
    let mut e = doc("[a,b];");
    e.merge(&doc("[b,c];"));
    e.subtract(&doc("[a,b];"));
    assert_eq!(e.to_string(), "[c];");
}

#[test]
fn search_finds_exactly_the_matching_values() {
    let d = doc("[apple,banana]; mango; kiwi; [an];");
    assert_eq!(d.find("an"), vec![0, 1, 3]);
    assert_eq!(d.find("zz"), Vec::<usize>::new());
}

#[test]
fn text_form_reads_back_as_the_same_document() {
    let d = doc("[a,b]; k:[1,[2,3],[]]; name; p:some text; [_x, y_2];");
    let text = d.to_string();
    assert_eq!(text, "[a,b]; k:[1,[2,3],[]]; name; p:some text; [_x,y_2];");
    let again = doc(&text);
    assert_eq!(again.len(), d.len());
    assert_eq!(again.to_string(), text);
    assert_eq!(read(&again, &[1, 1, 0]).as_deref(), Some("2"));
    assert_eq!(read(&again, &[3]).as_deref(), Some("p:some text"));
}

#[test]
fn search_looks_into_nested_values_and_keys() {
    let mut d = doc("[[deep]]; k:[x]; plain;");
    assert_eq!(d.execute_command(".?ee").unwrap(), "[0]: deep");
    assert_eq!(d.execute_command(".?k").unwrap(), "[1]: k: [x]");
    assert_eq!(d.execute_command(".?qq").unwrap(), "未找到关键词: qq");
}
