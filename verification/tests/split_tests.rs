use todo_store::split::split_lines;
use todo_store::split::split_str;

#[test]
fn split_on_commas() {
    assert_eq!(split_str("a,b,,c", ','), ["a", "b", "", "c"]);
    assert_eq!(split_str("abc", ','), ["abc"]);
    assert_eq!(split_str("", ','), [""]);
    assert_eq!(split_str(",", ','), ["", ""]);
    assert_eq!(split_str("a,", ','), ["a", ""]);
}

#[test]
fn split_into_lines() {
    assert_eq!(split_lines("x\ny\n"), ["x", "y"]);
    assert_eq!(split_lines("x\ny"), ["x", "y"]);
    assert_eq!(split_lines("x\n\ny\n"), ["x", "", "y"]);
    assert_eq!(split_lines("\n"), [""]);
    assert_eq!(split_lines(""), Vec::<String>::new());
}
