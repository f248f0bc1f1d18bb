use list_lang::ide::{highlight_tokens, Action, App, Key, TokenKind};

fn kinds(text: &str) -> Vec<(String, TokenKind)> {
    highlight_tokens(text).into_iter().map(|t| (t.text, t.kind)).collect()
}

#[test]
fn tokens_of_a_document() {
    let t = kinds("red:[a,1.5]; x::y");
    let expected: Vec<(String, TokenKind)> = vec![
        ("red:".to_string(), TokenKind::Keyed),
        ("[".to_string(), TokenKind::Bracket),
        ("a".to_string(), TokenKind::Word),
        (",".to_string(), TokenKind::Comma),
        ("1.5".to_string(), TokenKind::Number),
        ("]".to_string(), TokenKind::Bracket),
        (";".to_string(), TokenKind::Semicolon),
        ("x::y".to_string(), TokenKind::Keyed),
    ];
    assert_eq!(t, expected);
}

#[test]
fn path_separator_colon_and_escapes() {
    let t = kinds("[::] : \\a");
    let expected: Vec<(String, TokenKind)> = vec![
        ("[".to_string(), TokenKind::Bracket),
        ("::".to_string(), TokenKind::PathSep),
        ("]".to_string(), TokenKind::Bracket),
        (":".to_string(), TokenKind::Colon),
        ("\\a".to_string(), TokenKind::Keyed),
    ];
    assert_eq!(t, expected);
}

#[test]
fn non_ascii_letters_start_words() {
    let t = kinds("é1 ?");
    assert_eq!(t, vec![("é1".to_string(), TokenKind::Word)]);
}

#[test]
fn empty_text_has_no_tokens() {
    assert!(kinds("").is_empty());
}

#[test]
fn typing_and_running_a_command() {
    let mut app = App::new("f.list", "[a];");
    assert_eq!(app.data.to_string(), "[a];");
    for c in "[0]x".chars() {
        assert!(matches!(app.handle_key(Key::Char(c)), Action::Stay));
    }
    assert!(matches!(app.handle_key(Key::Backspace), Action::Stay));
    assert_eq!(app.command, "[0]");
    match app.handle_key(Key::Enter) {
        Action::Save(text) => assert_eq!(text, "[a];"),
        _ => panic!("expected the document to be saved"),
    }
    assert_eq!(app.output, "[a]");
    assert_eq!(app.command, "");
}

#[test]
fn a_refused_command_shows_its_error() {
    let mut app = App::new("f.list", "[a];");
    for c in "bad".chars() {
        app.handle_key(Key::Char(c));
    }
    assert!(matches!(app.handle_key(Key::Enter), Action::Stay));
    assert_eq!(app.output, "错误: 未知命令: bad");
    assert_eq!(app.command, "");
}

#[test]
fn escape_leaves_and_exit_ends() {
    let mut app = App::new("f.list", "?not a document");
    assert_eq!(app.data.len(), 0);
    assert!(matches!(app.handle_key(Key::Esc), Action::Quit));
    for c in "exit".chars() {
        app.handle_key(Key::Char(c));
    }
    assert!(matches!(app.handle_key(Key::Enter), Action::Exit));
}

#[test]
fn backspace_on_empty_command_does_nothing() {
    let mut app = App::new("f.list", "");
    assert!(matches!(app.handle_key(Key::Backspace), Action::Stay));
    assert_eq!(app.command, "");
    assert!(matches!(app.handle_key(Key::Other), Action::Stay));
}
