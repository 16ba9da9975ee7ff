use todo_store::record::TodoInput;
use todo_store::record::TodoUpdateInput;
use todo_store::status::TodoStatus;
use todo_store::store::create;
use todo_store::store::delete;
use todo_store::store::detail;
use todo_store::store::header_line;
use todo_store::store::list;
use todo_store::store::update;

fn input(name: &str, description: &str, status: TodoStatus) -> TodoInput {
    TodoInput {
        name: name.to_string(),
        description: description.to_string(),
        status,
    }
}

#[test]
fn list_todo() {}

#[test]
fn create_todo() {
    let t = input("test", "koreha test", TodoStatus::Todo);
    let (id, contents) = create("", &t);
    let expect = format!(
        "id,name,status,description\n{},{},{},{}\n",
        id, "test", 1, "koreha test",
    );
    assert_eq!(contents, expect);
    assert_eq!(id.chars().count(), 36);
}

#[test]
fn multi_create_todo() {
    let t = input("test", "koreha test", TodoStatus::Todo);
    let t2 = input("test2", "koreha test2", TodoStatus::Todo);
    let (id, contents) = create("", &t);
    let expect = format!(
        "id,name,status,description\n{},{},{},{}\n",
        id, "test", 1, "koreha test",
    );
    assert_eq!(contents, expect);
    let (id2, contents2) = create(&contents, &t2);
    let expect2 = format!(
        "{}{},{},{},{}\n",
        expect, id2, "test2", 1, "koreha test2",
    );
    assert_eq!(contents2, expect2);
    assert_ne!(id, id2);
}

#[test]
fn delete_todo() {
    let t = input("test", "koreha test", TodoStatus::Todo);
    let (id, contents) = create("", &t);
    let after = delete(&contents, &id);
    assert!(detail(&after, &id).is_none());
    assert_eq!(after, header_line());
}

#[test]
fn update_todo() {
    let t = input("test", "koreha test", TodoStatus::Todo);
    let (id, contents) = create("", &t);
    let ut = TodoUpdateInput {
        name: None,
        description: None,
        status: Some(TodoStatus::Doit),
    };
    let after = update(&contents, &id, &ut);
    let got = detail(&after, &id).unwrap();
    assert_eq!(got.id, id);
    assert_eq!(got.todo.name, "test");
    assert_eq!(got.todo.description, "koreha test");
    assert!(matches!(got.todo.status, TodoStatus::Doit));
}

#[test]
fn fresh_id_shape() {
    let t = input("a", "b", TodoStatus::Doing);
    let (id, _) = create("", &t);
    assert_eq!(id.len(), 36);
    for (i, c) in id.chars().enumerate() {
        if i == 8 || i == 13 || i == 18 || i == 23 {
            assert_eq!(c, '-');
        } else {
            assert!(c.is_ascii_hexdigit());
            assert!(!c.is_ascii_uppercase());
        }
    }
}

#[test]
fn header_text() {
    assert_eq!(header_line(), "id,name,status,description\n");
}

#[test]
fn list_of_header_only() {
    let records = list("id,name,status,description\n").unwrap();
    assert_eq!(records.len(), 0);
    let records = list("").unwrap();
    assert_eq!(records.len(), 0);
}

#[test]
fn list_two_records() {
    let contents = "id,name,status,description\nu1,alpha,1,first\nu2,beta,3,second\n";
    let records = list(contents).unwrap();
    assert_eq!(records.len(), 2);
    assert_eq!(records[0].id, "u1");
    assert_eq!(records[0].todo.name, "alpha");
    assert!(matches!(records[0].todo.status, TodoStatus::Todo));
    assert_eq!(records[0].todo.description, "first");
    assert_eq!(records[1].id, "u2");
    assert_eq!(records[1].todo.name, "beta");
    assert!(matches!(records[1].todo.status, TodoStatus::Doit));
    assert_eq!(records[1].todo.description, "second");
}

#[test]
fn list_fails_on_bad_field_count() {
    let contents = "id,name,status,description\nu1,alpha,1,first\nu2,beta,2\n";
    assert!(list(contents).is_none());
}

#[test]
fn list_fails_on_bad_status() {
    assert!(list("id,name,status,description\nu1,alpha,9,first\n").is_none());
    assert!(list("id,name,status,description\nu1,alpha,x,first\n").is_none());
    assert!(list("id,name,status,description\nu1,alpha,,first\n").is_none());
}

#[test]
fn detail_finds_first_match() {
    let contents = "id,name,status,description\nu1,alpha,1,first\nu1,beta,2,second\n";
    let got = detail(contents, "u1").unwrap();
    assert_eq!(got.todo.name, "alpha");
    assert!(detail(contents, "u9").is_none());
}

#[test]
fn detail_fails_on_malformed_contents() {
    let contents = "id,name,status,description\nu1,alpha,1\nu2,beta,2,second\n";
    assert!(detail(contents, "u2").is_none());
}

#[test]
fn update_replaces_all_given_fields() {
    let contents = "id,name,status,description\nu1,alpha,1,first\nu2,beta,2,second\n";
    let ut = TodoUpdateInput {
        name: Some("gamma".to_string()),
        description: Some("third".to_string()),
        status: Some(TodoStatus::Doit),
    };
    let after = update(contents, "u2", &ut);
    assert_eq!(
        after,
        "id,name,status,description\nu1,alpha,1,first\nu2,gamma,3,third\n"
    );
}

#[test]
fn update_on_missing_id_keeps_records() {
    let contents = "id,name,status,description\nu1,alpha,1,first\nu2,beta,2,second\n";
    let ut = TodoUpdateInput {
        name: None,
        description: None,
        status: Some(TodoStatus::Doit),
    };
    let after = update(contents, "u9", &ut);
    assert_eq!(after, contents);
}

#[test]
fn update_skips_malformed_lines() {
    let contents = "id,name,status,description\nu1,alpha,1,first\nbroken\nu2,beta,2,second\n";
    let ut = TodoUpdateInput {
        name: None,
        description: None,
        status: Some(TodoStatus::Doing),
    };
    let after = update(contents, "u1", &ut);
    assert_eq!(
        after,
        "id,name,status,description\nu1,alpha,2,first\nu2,beta,2,second\n"
    );
    assert!(list(&after).is_some());
}

#[test]
fn delete_removes_only_target() {
    let contents = "id,name,status,description\nu1,alpha,1,first\nu2,beta,2,second\n";
    let after = delete(contents, "u1");
    assert_eq!(after, "id,name,status,description\nu2,beta,2,second\n");
    assert!(detail(&after, "u1").is_none());
    assert_eq!(detail(&after, "u2").unwrap().todo.name, "beta");
}

#[test]
fn delete_drops_malformed_lines() {
    let contents = "id,name,status,description\nu1,alpha,1,first\nno,good\nu2,beta,2,second\n";
    let after = delete(contents, "u2");
    assert_eq!(after, "id,name,status,description\nu1,alpha,1,first\n");
}

#[test]
fn delete_missing_id_keeps_records() {
    let contents = "id,name,status,description\nu1,alpha,1,first\n";
    let after = delete(contents, "u9");
    assert_eq!(after, contents);
}

#[test]
fn create_then_detail_returns_record() {
    let contents = "id,name,status,description\nu1,alpha,1,first\n";
    let t = input("mine", "created now", TodoStatus::Doing);
    let (id, after) = create(contents, &t);
    let got = detail(&after, &id).unwrap();
    assert_eq!(got.id, id);
    assert_eq!(got.todo.name, "mine");
    assert_eq!(got.todo.description, "created now");
    assert!(matches!(got.todo.status, TodoStatus::Doing));
}

#[test]
fn unescaped_delimiter_breaks_read_back() {
    // Fields are not escaped: a name holding the delimiter is written
    // as it is, and the record line no longer reads back.
    let t = input("a,b", "desc", TodoStatus::Todo);
    let (_, contents) = create("", &t);
    assert!(list(&contents).is_none());
}

#[test]
fn update_normalizes_padded_status() {
    let contents = "id,name,status,description\nu1,alpha,01,first\n";
    let ut = TodoUpdateInput {
        name: None,
        description: None,
        status: None,
    };
    let after = update(contents, "u9", &ut);
    assert_eq!(after, "id,name,status,description\nu1,alpha,1,first\n");
}
