use list_lang::rust_api::List;

#[test]
fn item_path_index_zero_of_a_wrapped_array() {
    let l = List::new("[[x,y,z]];");
    assert_eq!(l.get(0).value(), "[[x,y,z]]");
    assert_eq!(l.get(0).get(0).value(), "x");
    assert_eq!(l.get(0).get(1).value(), "");
    assert_eq!(List::new("[[a,b]];").get(0).get(1).value(), "");
    let m = List::new("[p,[q,r]];");
    assert_eq!(m.get(0).get(1).get(0).value(), "q");
    assert_eq!(m.at(&[0, 1]).value(), "[q,r]");
}

#[test]
fn unparsable_text_is_an_empty_list() {
    let l = List::new("[a,");
    assert!(l.is_empty());
    assert!(List::parse("[a,").is_err());
    assert_eq!(List::parse("[a];").unwrap().len(), 1);
}

#[test]
fn list_edits() {
    let mut l = List::new("[a]; x;");
    l.append(0, "b").unwrap();
    l.insert(0, 0, "z").unwrap();
    assert_eq!(l.to_string(), "[z,a,b]; x;");
    assert_eq!(l.append(1, "q").unwrap_err(), "索引 1 不是数组");
    l.replace(1, "y, w").unwrap();
    assert_eq!(l.to_string(), "[z,a,b]; [y,w];");
    l.delete(0).unwrap();
    assert_eq!(l.to_string(), "[y,w];");
}

#[test]
fn list_slices_and_searches() {
    let l = List::new("a; b; c; [b,d];");
    let s: Vec<String> = l.slice(1, 10).iter().map(|it| it.value()).collect();
    assert_eq!(s, vec!["b", "c", "[b,d]"]);
    assert_eq!(l.find("b"), vec![1, 3]);
    assert_eq!(l.find_in(3, "d"), Some(vec![1]));
    assert_eq!(l.find_in(0, "d"), None);
}

#[test]
fn map_filter_and_each() {
    let l = List::new("[a]; b; [c,d];");
    let texts = l.map(|it| it.value());
    assert_eq!(texts, vec!["[a]", "b", "[c,d]"]);
    let arrays = l.filter(|it| it.value().starts_with('['));
    assert_eq!(arrays.len(), 2);
    assert_eq!(arrays[1].value(), "[c,d]");
    let mut count = 0;
    l.for_each(|_| count += 1);
    assert_eq!(count, 3);
    assert_eq!(l.to_vec().len(), 3);
}

#[test]
fn iterating_a_list() {
    let l = List::new("[a]; b;");
    let mut it = l.clone().into_iter();
    assert_eq!(it.size_hint(), (2, Some(2)));
    let mut seen: Vec<String> = Vec::new();
    while let Some(item) = it.next() {
        seen.push(item.value());
    }
    assert_eq!(seen, vec!["[a]", "b"]);
    assert_eq!(l.idx(1).value(), "b");
    assert_eq!(l.raw().len(), 2);
}

#[test]
fn item_length_and_slices() {
    let l = List::new("[a,b,c];");
    let item = l.get(0);
    assert_eq!(item.len(), 3);
    assert!(!item.is_empty());
    assert_eq!(item.slice(0, 0), vec!["a", "b", "c"]);
    assert!(List::new("x;").get(0).is_empty());
}

#[test]
fn running_commands_on_a_list() {
    let mut l = List::new("[a];");
    assert_eq!(l.run("[0][0]").unwrap(), "a");
    assert_eq!(l.run("nope").unwrap_err(), "未知命令: nope");
    l.raw_mut().execute_command(".+[0]=b").unwrap();
    assert_eq!(l.to_string(), "[a,b];");
}

#[test]
fn item_arrays_follow_the_item_path() {
    let l = List::new("[p,[q,r]]; [s];");
    assert_eq!(l.get(0).get(1).array(), vec!["q", "r"]);
    assert_eq!(l.get(0).get(1).len(), 2);
    assert_eq!(l.get(0).get(1).slice(1, 0), vec!["r"]);
    assert!(l.get(0).get(0).array().is_empty());
    assert_eq!(l.get(1).array(), vec!["s"]);
    let w = List::new("[[x,y,z]];");
    assert_eq!(w.get(0).array(), vec!["[x,y,z]"]);
    assert!(w.get(0).get(0).array().is_empty());
}

#[test]
fn an_item_keeps_its_own_copy_of_the_document() {
    let mut l = List::new("[a,b];");
    let item = l.get(0);
    l.append(0, "c").unwrap();
    l.run(".+[0]=d").unwrap();
    assert_eq!(item.value(), "[a,b]");
    assert_eq!(l.get(0).value(), "[a,b,c,d]");
}
