use todo_store::record::parse_line;
use todo_store::record::Todo;
use todo_store::record::TodoInput;
use todo_store::status::parse_status;
use todo_store::status::TodoStatus;

#[test]
fn line_round_trip() {
    let t = parse_line("abc,hello,2,world").unwrap();
    assert_eq!(t.id, "abc");
    assert_eq!(t.todo.name, "hello");
    assert!(matches!(t.todo.status, TodoStatus::Doing));
    assert_eq!(t.todo.description, "world");
    assert_eq!(t.line(), "abc,hello,2,world\n");
}

#[test]
fn line_serializes_all_fields() {
    let t = Todo {
        id: "u-7".to_string(),
        todo: TodoInput {
            name: "walk".to_string(),
            description: "the dog".to_string(),
            status: TodoStatus::Doit,
        },
    };
    assert_eq!(t.line(), "u-7,walk,3,the dog\n");
    assert_eq!(t.todo.line("other"), "other,walk,3,the dog\n");
}

#[test]
fn parse_line_field_count() {
    assert!(parse_line("a,b,2").is_none());
    assert!(parse_line("a,b,2,c,d").is_none());
    assert!(parse_line("").is_none());
    assert!(parse_line("a,b,2,c").is_some());
}

#[test]
fn parse_line_empty_fields() {
    let t = parse_line(",,1,").unwrap();
    assert_eq!(t.id, "");
    assert_eq!(t.todo.name, "");
    assert_eq!(t.todo.description, "");
    assert!(matches!(t.todo.status, TodoStatus::Todo));
}

#[test]
fn parse_line_padded_status_reads_back() {
    let t = parse_line("a,b,0002,c").unwrap();
    assert!(matches!(t.todo.status, TodoStatus::Doing));
    // The line writes back with the canonical one-digit tag.
    assert_eq!(t.line(), "a,b,2,c\n");
}

#[test]
fn parse_status_values() {
    assert!(matches!(parse_status("1"), Some(TodoStatus::Todo)));
    assert!(matches!(parse_status("2"), Some(TodoStatus::Doing)));
    assert!(matches!(parse_status("3"), Some(TodoStatus::Doit)));
    assert!(matches!(parse_status("003"), Some(TodoStatus::Doit)));
    assert!(parse_status("0").is_none());
    assert!(parse_status("4").is_none());
    assert!(parse_status("10").is_none());
    assert!(parse_status("12345678901234567890123").is_none());
    assert!(parse_status("").is_none());
    assert!(parse_status("x").is_none());
    assert!(parse_status("+1").is_none());
    assert!(parse_status("1 ").is_none());
}

#[test]
fn status_codes() {
    assert_eq!(TodoStatus::Todo.code(), 1);
    assert_eq!(TodoStatus::Doing.code(), 2);
    assert_eq!(TodoStatus::Doit.code(), 3);
    assert!(matches!(TodoStatus::from_usize(1), Some(TodoStatus::Todo)));
    assert!(matches!(TodoStatus::from_usize(2), Some(TodoStatus::Doing)));
    assert!(matches!(TodoStatus::from_usize(3), Some(TodoStatus::Doit)));
    assert!(TodoStatus::from_usize(0).is_none());
    assert!(TodoStatus::from_usize(4).is_none());
    assert!(TodoStatus::from_usize(usize::MAX).is_none());
}

#[test]
fn status_labels() {
    assert_eq!(TodoStatus::Todo.label(), "Todo");
    assert_eq!(TodoStatus::Doing.label(), "Doing");
    assert_eq!(TodoStatus::Doit.label(), "Doit");
}
