use list_lang::rust_api::List;

#[test]
fn test_basic_operations() {
    let l = List::new("[a,b,c]; [1,2,3];");

    assert_eq!(l.len(), 2);

    let first = l.get(0);
    assert_eq!(first.value(), "[a,b,c]");

    let second = l.get(1);
    assert_eq!(second.array(), vec!["1", "2", "3"]);
}

#[test]
fn rust_api_test_nested_access() {
    let l = List::new("[[x,y,z]];");

    let nested = l.get(0).get(0);
    assert_eq!(nested.value(), "x");
}

#[test]
fn test_slice() {
    let l = List::new("[a,b,c,d,e];");

    let slice = l.get(0).slice(1, 3);
    assert_eq!(slice, vec!["b", "c"]);
}

#[test]
fn test_iteration() {
    let l = List::new("[1,2,3];");

    let mut it = l.get(0).into_iter();
    let mut values: Vec<String> = Vec::new();
    while let Some(v) = it.next() {
        values.push(v);
    }
    assert_eq!(values, vec!["1", "2", "3"]);
}

#[test]
fn test_find() {
    let l = List::new("[apple,banana,cherry]; [dog,cat];");

    let found = l.find("banana");
    assert_eq!(found, vec![0]);
}

#[test]
fn test_modify() {
    let mut l = List::new("[a,b];");

    l.run(".+[0]=c").unwrap();
    assert_eq!(l.to_string(), "[a,b,c];");
}
