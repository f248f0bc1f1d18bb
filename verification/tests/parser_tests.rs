use list_lang::data::ListData;
use list_lang::value::ListValue;

#[test]
fn test_parse_example() {
    let content = "red:[\\:,:\\],,a:b]; blue:[hello:hi,bye,light:www]; [1,2,3,4,5,6,7,8,9];";
    let data = ListData::from_string(content).expect("解析失败");

    println!("完整数据: {}", data.to_string());

    let val0 = data.get(&[0]);
    assert!(val0.is_some(), "[0] 应该存在");
    println!("[0] = {:?}", val0);

    let val1 = data.get(&[1]);
    assert!(val1.is_some(), "[1] 应该存在");
    println!("[1] = {:?}", val1);

    let val2 = data.get(&[2]);
    assert!(val2.is_some(), "[2] 应该存在");
    println!("[2] = {:?}", val2);
}

#[test]
fn parser_test_nested_access() {
    let content = "[1,2,3,4,5,6,7,8,9];";
    let data = ListData::from_string(content).unwrap();

    let val = data.get(&[0, 1]);
    if let Some(ListValue::String(s)) = val {
        assert_eq!(s, "2", "[0][1] 应该是 '2'");
        println!("✓ [0][1] = {}", s);
    } else {
        panic!("[0][1] 应该返回字符串 '2', 实际: {:?}", val);
    }
}

#[test]
fn test_keyvalue_array_access() {
    let content = "blue:[hello:hi,bye,light:www];";
    let data = ListData::from_string(content).unwrap();

    let val0 = data.get(&[0]);
    assert!(val0.is_some(), "[0] 应该存在");

    let val00 = data.get(&[0, 0]);
    println!("[0][0] = {:?}", val00);
}

#[test]
fn test_all_commands() {
    let content = "red:[\\:,:\\],,a:b]; blue:[hello:hi,bye,light:www]; [1,2,3,4,5,6,7,8,9];";
    let mut data = ListData::from_string(content).unwrap();

    let result = data.execute_command("[2]");
    assert!(result.is_ok(), "[2] 命令应该成功");
    println!("[2] = {}", result.unwrap());

    let result = data.execute_command(".+[2]=10");
    assert!(result.is_ok(), ".+[2]=10 命令应该成功");
    println!("追加后: {}", result.unwrap());

    let result = data.execute_command(".+[2]>[1]=99");
    assert!(result.is_ok(), ".+[2]>[1]=99 命令应该成功");
    println!("插入后: {}", result.unwrap());

    let result = data.execute_command(".->[2]");
    assert!(result.is_ok(), ".->[2] 命令应该成功");
    println!("删除后: {}", result.unwrap());

    let mut data2 = ListData::from_string("[1,2,3];").unwrap();
    println!("替换前: {}", data2.to_string());
    let result = data2.execute_command(".+>[0]=[9,8,7]");
    println!("替换命令结果: {:?}", result);
    if let Ok(ref s) = result {
        println!("替换后: {}", s);
    }
    assert!(result.is_ok(), ".+>[0]=[9,8,7] 命令应该成功");
}

#[test]
fn test_variable_system() {
    let content = "[hello,world,test];";
    let mut data = ListData::from_string(content).unwrap();

    let result = data.execute_command("$myvar = [0]");
    assert!(result.is_ok(), "变量赋值应该成功");
    println!("变量赋值: {}", result.unwrap());
    assert!(data.variables.contains_key("myvar"), "变量 myvar 应该存在");

    let result = data.execute_command("$vars");
    assert!(result.is_ok());
    println!("变量列表:\n{}", result.unwrap());

    let result = data.execute_command(".+[0]=$myvar");
    assert!(result.is_ok(), "使用变量追加应该成功");
    println!("使用变量追加后: {}", result.unwrap());

    let result = data.execute_command("$name = \"Alice\"");
    assert!(result.is_ok());
    println!("字符串赋值: {}", result.unwrap());

    let result = data.execute_command("$clear");
    assert!(result.is_ok());
    println!("清空变量: {}", result.unwrap());
}

#[test]
fn test_inline_expressions() {
    let content = "[apple,banana,cherry]; [1,2,3,4,5];";
    let mut data = ListData::from_string(content).unwrap();

    let result = data.execute_command(".+[1]=${[0][0]}");
    assert!(result.is_ok(), "内联表达式应该成功");
    println!("内联表达式追加后: {}", result.unwrap());

    let result = data.execute_command(".+[1]>[0]=${[0][1]}");
    assert!(result.is_ok(), "嵌套内联表达式应该成功");
    println!("嵌套内联插入后: {}", result.unwrap());

    let result = data.execute_command("${[1]}");
    println!("内联读取结果: {:?}", result);
    if let Err(e) = &result {
        println!("错误: {}", e);
    }
    assert!(result.is_ok());
    println!("内联读取: {}", result.unwrap());
}

#[test]
fn test_pipeline_operations() {
    let content = "[start,middle,end]; [10,20,30];";
    let mut data = ListData::from_string(content).unwrap();

    let result = data.execute_command("[0] | [0]");
    assert!(result.is_ok(), "简单管道应该成功");
    println!("管道读取: {}", result.unwrap());

    let result = data.execute_command("$temp = [0][0]");
    assert!(result.is_ok());
    println!("设置临时变量: {}", result.unwrap());

    let result = data.execute_command(".+[1]=$temp");
    assert!(result.is_ok());
    println!("管道式追加后: {}", result.unwrap());
}
