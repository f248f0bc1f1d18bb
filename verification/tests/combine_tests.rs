use list_lang::data::ListData;

fn doc(text: &str) -> ListData {
    ListData::from_string(text).unwrap()
}

#[test]
fn merging_two_single_arrays_joins_them() {
    let mut d = doc("[a,b];");
    d.merge(&doc("[c];"));
    assert_eq!(d.to_string(), "[a,b,c];");
}

#[test]
fn merging_other_documents_appends_values() {
    let mut d = doc("[a]; x;");
    d.merge(&doc("[c]; y;"));
    assert_eq!(d.to_string(), "[a]; x; [c]; y;");
    let mut e = doc("x;");
    e.merge(&doc("[c];"));
    assert_eq!(e.to_string(), "x; [c];");
}

#[test]
fn subtracting_single_arrays_drops_the_shared_elements() {
    let mut d = doc("[a,b,c];");
    d.subtract(&doc("[c];"));
    assert_eq!(d.to_string(), "[a,b];");
    let mut e = doc("[a,b,a,c];");
    e.subtract(&doc("[a,z];"));
    assert_eq!(e.to_string(), "[b,c];");
    let mut f = doc("[a];");
    f.subtract(&doc("[a,b];"));
    assert_eq!(f.to_string(), "[];");
    let mut g = doc("[a,b];");
    g.subtract(&doc("[];"));
    assert_eq!(g.to_string(), "[a,b];");
}

#[test]
fn subtracting_drops_values_with_the_same_text() {
    let mut d = doc("x; y; z; y; [y];");
    d.subtract(&doc("y; [y]; w;"));
    assert_eq!(d.to_string(), "x; z;");
}

#[test]
fn combining_keeps_variables_and_language() {
    let mut d = doc("[a];");
    d.execute_command("$v = 1").unwrap();
    d.execute_command(".sl=zh").unwrap();
    d.merge(&doc("[b];"));
    d.subtract(&doc("[q];"));
    assert_eq!(d.to_string(), "[a,b];");
    assert!(d.variables.contains_key("v"));
    assert_eq!(d.language, "zh");
}
