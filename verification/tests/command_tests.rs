use list_lang::command::Step;
use list_lang::data::ListData;
use list_lang::value::value_to_string;

fn doc(text: &str) -> ListData {
    ListData::from_string(text).unwrap()
}

#[test]
fn reads_a_value_and_a_nested_element() {
    let mut d = doc("[a,b];");
    assert_eq!(d.execute_command("[0]").unwrap(), "[a,b]");
    assert_eq!(d.execute_command("[0][1]").unwrap(), "b");
    assert_eq!(d.execute_command("[0]<").unwrap(), "[a,b]");
}

#[test]
fn reading_past_the_end_is_refused() {
    let mut d = doc("[a,b];");
    assert_eq!(d.execute_command("[5]").unwrap_err(), "索引超出范围");
}

#[test]
fn an_empty_command_shows_the_document() {
    let mut d = doc("[a,b];");
    assert_eq!(d.execute_command("   ").unwrap(), "[a,b];");
}

#[test]
fn append_insert_replace_delete_commands() {
    let mut d = doc("[a,b]; [1,2];");
    assert_eq!(d.execute_command(".+[0]=c").unwrap(), "[a,b,c]; [1,2];");
    assert_eq!(d.execute_command(".+[1]>[0]=0").unwrap(), "[a,b,c]; [0,1,2];");
    assert_eq!(d.execute_command(".+>[1]=[x,y]").unwrap(), "[a,b,c]; [x,y];");
    assert_eq!(d.execute_command(".->[0]").unwrap(), "[x,y];");
}

#[test]
fn new_array_command_extends_the_document() {
    let mut d = doc("[a];");
    assert_eq!(d.execute_command(".+[2]").unwrap(), "[a]; []; [];");
}

#[test]
fn unknown_command_is_refused() {
    let mut d = doc("[a];");
    assert_eq!(d.execute_command("foo").unwrap_err(), "未知命令: foo");
}

#[test]
fn exit_ends_the_program() {
    let mut d = doc("[a];");
    assert!(matches!(d.run_command("exit()"), Step::Exit));
    assert!(matches!(d.run_command(" exit "), Step::Exit));
}

#[test]
fn lone_quote_assignment_panics_in_the_language() {
    let mut d = doc("[a];");
    assert!(matches!(d.run_command("$x=\""), Step::Abort));
}

#[test]
fn variables_are_set_listed_and_cleared() {
    let mut d = doc("[a,b];");
    assert_eq!(d.execute_command("$vars").unwrap(), "(无变量)");
    assert_eq!(d.execute_command("$v = hello").unwrap(), "变量 $v 已设置");
    assert_eq!(value_to_string(d.variables.get("v").unwrap()), "hello");
    assert_eq!(d.execute_command("$vars").unwrap(), "v = hello");
    d.execute_command("$v = \"bye\"").unwrap();
    assert_eq!(value_to_string(d.variables.get("v").unwrap()), "bye");
    assert_eq!(d.variables.len(), 1);
    d.execute_command("$clear").unwrap();
    assert!(d.variables.is_empty());
}

#[test]
fn variables_are_substituted_into_commands() {
    let mut d = doc("[a,b];");
    d.execute_command("$w = [0][1]").unwrap();
    assert_eq!(d.execute_command(".+[0]=$w").unwrap(), "[a,b,b];");
}

#[test]
fn inline_reference_reads_a_path() {
    let mut d = doc("[apple,banana]; [1];");
    assert_eq!(d.execute_command("${[0][1]}").unwrap(), "banana");
    assert_eq!(d.execute_command(".+[1]=${[0][0]}").unwrap(), "[apple,banana]; [1,apple];");
}

#[test]
fn language_setting() {
    let mut d = doc("[a];");
    assert_eq!(d.execute_command(".sl=zh").unwrap(), "语言已设置为: zh");
    assert_eq!(d.language, "zh");
    assert_eq!(d.execute_command(".setlang= en ").unwrap(), "语言已设置为: en");
}

#[test]
fn help_command() {
    let mut d = doc("[a];");
    assert_eq!(d.execute_command(".h").unwrap(), d.get_help());
}

#[test]
fn pipeline_passes_the_answer_on() {
    let mut d = doc("[start,middle,end]; [10,20,30];");
    assert_eq!(d.execute_command("[0] | [0]").unwrap(), "[start,middle,end]");
}

#[test]
fn malformed_edit_commands_are_refused() {
    let mut d = doc("[a]; [b];");
    assert_eq!(d.execute_command(".+[x]=1").unwrap_err(), "无效的追加命令");
    assert_eq!(d.execute_command(".->[x]").unwrap_err(), "无效的删除命令");
    assert_eq!(d.execute_command(".+>[x]=[1]").unwrap_err(), "无效的替换命令");
    assert_eq!(d.execute_command(".+[0]>[x]=1").unwrap_err(), "无效的插入命令");
    assert_eq!(d.execute_command(".>[x]").unwrap_err(), "无效的移动/插入命令");
    assert_eq!(d.execute_command("$=5").unwrap_err(), "无效的变量赋值语法");
    assert_eq!(d.to_string(), "[a]; [b];");
}

#[test]
fn numbers_that_do_not_fit_are_refused() {
    let mut d = doc("[a];");
    assert_eq!(
        d.execute_command("[99999999999999999999999]").unwrap_err(),
        "number too large to fit in target type"
    );
}

#[test]
fn assignment_from_a_missing_path_is_refused() {
    let mut d = doc("[a];");
    assert_eq!(d.execute_command("$x = [7]").unwrap_err(), "索引超出范围: [7]");
    assert!(!d.variables.contains_key("x"));
}

#[test]
fn moving_to_the_end_of_an_array() {
    let mut d = doc("[a]; [b,c];");
    assert_eq!(d.execute_command(".>[0]>[1]").unwrap(), "[b,c,[a]];");
}

#[test]
fn moving_before_and_after_a_position() {
    let mut d = doc("x; [b,c]; [d];");
    assert_eq!(d.execute_command(".>[0]>[1]<[0]").unwrap(), "[x,b,c]; [d];");
    let mut e = doc("x; [b,c]; [d];");
    assert_eq!(e.execute_command(".>[0]>[1]>[0]").unwrap(), "[b,x,c]; [d];");
    let mut f = doc("[a]; [b,c];");
    assert_eq!(f.execute_command(".>[0]>[1]<[1]").unwrap(), "[b,[a],c];");
    let mut g = doc("[b,c]; [a];");
    assert_eq!(g.execute_command(".>[1]>[0]>[1]").unwrap(), "[b,c,[a]];");
    let mut h = doc("[b]; x;");
    assert_eq!(h.execute_command(".>[1]>[0]<[9]").unwrap(), "[b,x];");
}

#[test]
fn moving_into_a_value_that_is_no_array_puts_the_source_back_at_the_target_index() {
    let mut d = doc("x; y; z;");
    assert_eq!(d.execute_command(".>[0]>[2]<[0]").unwrap(), "y; z; x;");
    let mut e = doc("x; y; z;");
    assert_eq!(e.execute_command(".>[2]>[0]>[0]").unwrap(), "z; x; y;");
}

#[test]
fn moving_with_indices_out_of_range_is_refused() {
    let mut d = doc("[a]; [b];");
    assert_eq!(d.execute_command(".>[5]>[0]").unwrap_err(), "源索引 5 超出范围");
    assert_eq!(d.execute_command(".>[0]>[5]").unwrap_err(), "目标索引 5 超出范围");
    assert_eq!(d.to_string(), "[a]; [b];");
}

#[test]
fn moving_to_the_end_of_a_non_array_removes_the_source_and_reports() {
    let mut d = doc("x; y;");
    assert_eq!(d.execute_command(".>[0]>[1]").unwrap_err(), "目标 [1] 不是数组");
    assert_eq!(d.to_string(), "y;");
}

#[test]
fn moving_after_the_last_position_panics_in_the_language() {
    let mut d = doc("x; [b]; [d];");
    assert!(matches!(d.run_command(".>[0]>[1]>[5]"), Step::Abort));
}

#[test]
fn searching_for_a_keyword() {
    let mut d = doc("[apple,banana]; mango; kiwi; color:[red];");
    assert_eq!(d.execute_command(".?an").unwrap(), "[0]: banana\n[1]: mango");
    assert_eq!(d.execute_command(".?an>[1]").unwrap(), "[1]: mango");
    assert_eq!(d.execute_command(".?an>[1]-[3]").unwrap(), "[1]: mango");
    assert_eq!(d.execute_command(".?col").unwrap(), "[3]: color: [red]");
    assert_eq!(d.execute_command(".?zz").unwrap(), "未找到关键词: zz");
}

#[test]
fn printing_values_ranges_and_text() {
    let mut d = doc("[apple,banana]; mango;");
    assert_eq!(d.execute_command(".print>[0]-[1]").unwrap(), "[0]: [apple,banana]\n[1]: mango");
    assert_eq!(d.execute_command(".print>[1]").unwrap(), "mango");
    assert_eq!(d.execute_command(".print>[0][1]").unwrap(), "banana");
    assert_eq!(d.execute_command(".print>hello").unwrap(), "hello");
    assert_eq!(d.execute_command(".print>[9]").unwrap_err(), "索引超出范围");
    assert_eq!(d.execute_command(".print>$nope").unwrap_err(), "变量不存在: nope");
    d.execute_command("$v = hi").unwrap();
    assert_eq!(d.execute_command(".print>$v").unwrap(), "hi");
}

#[test]
fn reading_the_key_and_the_value_of_an_element() {
    let mut d = doc("red:[a,b]; x; k:v;");
    assert_eq!(d.execute_command("[0]/").unwrap(), "red");
    assert_eq!(d.execute_command("[0]<").unwrap(), "[a,b]");
    assert_eq!(d.execute_command("[2]/").unwrap(), "k");
    assert_eq!(d.execute_command("[2]<").unwrap(), "v");
    assert_eq!(d.execute_command("[1]<").unwrap(), "x");
    assert_eq!(d.execute_command("[1]/").unwrap_err(), "索引 1 不是键值对");
    assert_eq!(d.execute_command("[5]/").unwrap_err(), "索引超出范围");
    assert_eq!(d.execute_command("[5]<").unwrap_err(), "索引超出范围");
}

#[test]
fn reading_a_variable_by_name() {
    let mut d = doc("[a,b];");
    d.execute_command("$name = John").unwrap();
    assert_eq!(d.execute_command("$name").unwrap(), "John");
    assert_eq!(d.execute_command("  $name ").unwrap(), "John");
    d.execute_command("$pair = [0]").unwrap();
    assert_eq!(d.execute_command("$pair").unwrap(), "[a,b]");
    assert_eq!(d.execute_command("$nope").unwrap_err(), "未知命令: $nope");
    assert_eq!(d.execute_command("$vars").unwrap(), "name = John\npair = [a,b]");
}

#[test]
fn decimal_digits_beyond_ascii_are_read_as_indices_and_refused() {
    let mut d = doc("[a]; b;");
    assert_eq!(d.execute_command("[٣]").unwrap_err(), "invalid digit found in string");
    assert_eq!(d.execute_command("[0][١]").unwrap_err(), "invalid digit found in string");
    assert_eq!(d.execute_command(".print>[٣]").unwrap_err(), "invalid digit found in string");
    assert_eq!(d.execute_command(".+[٣]=x").unwrap_err(), "invalid digit found in string");
    assert_eq!(
        d.execute_command("[99999999999999999999٣]").unwrap_err(),
        "number too large to fit in target type"
    );
    assert_eq!(
        d.execute_command("[٣99999999999999999999]").unwrap_err(),
        "invalid digit found in string"
    );
    assert_eq!(d.execute_command(".?b>[٣]").unwrap(), "[1]: b");
    assert_eq!(d.to_string(), "[a]; b;");
}

#[test]
fn variable_names_are_regex_word_characters() {
    let mut d = doc("[a];");
    assert_eq!(d.execute_command("$e\u{301} = v").unwrap(), "变量 $e\u{301} 已设置");
    assert_eq!(d.execute_command("$e\u{301}").unwrap(), "v");
    assert_eq!(d.execute_command("$x² = 5").unwrap_err(), "无效的变量赋值语法");
    assert_eq!(d.execute_command("$vars").unwrap(), "e\u{301} = v");
}
