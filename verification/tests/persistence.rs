use todo_list::codec::{decode_todos, encode_todos};
use todo_list::item::TodoItem;
use todo_list::state::AppState;

fn item(id: &str, done: bool, text: &str) -> TodoItem {
    TodoItem { id: id.to_string(), done, text: text.to_string() }
}

fn same_items(a: &[TodoItem], b: &[TodoItem]) -> bool {
    a.len() == b.len()
        && a.iter().zip(b.iter()).all(|(x, y)| x.id == y.id && x.done == y.done && x.text == y.text)
}

#[test]
fn empty_list_encodes_to_empty_array() {
    let empty: Vec<TodoItem> = Vec::new();
    assert_eq!(encode_todos(&empty), "[]");
}

#[test]
fn one_item_encodes_exactly() {
    let l = vec![item("x", false, "hi")];
    let expected = "[\n  {\n    \"id\": \"x\",\n    \"done\": false,\n    \"text\": \"hi\"\n  }\n]";
    assert_eq!(encode_todos(&l), expected);
}

#[test]
fn two_items_encode_exactly() {
    let l = vec![item("a", true, "one"), item("b", false, "two")];
    let expected = "[\n  {\n    \"id\": \"a\",\n    \"done\": true,\n    \"text\": \"one\"\n  },\n  {\n    \"id\": \"b\",\n    \"done\": false,\n    \"text\": \"two\"\n  }\n]";
    assert_eq!(encode_todos(&l), expected);
}

#[test]
fn special_characters_are_escaped() {
    let l = vec![item("q", false, "a\"b\\c\nd\te\rf")];
    let expected =
        "[\n  {\n    \"id\": \"q\",\n    \"done\": false,\n    \"text\": \"a\\\"b\\\\c\\nd\\te\\rf\"\n  }\n]";
    assert_eq!(encode_todos(&l), expected);
}

#[test]
fn round_trip_plain() {
    let l = vec![item("a", true, "one"), item("b", false, "two"), item("c", false, "")];
    let text = encode_todos(&l);
    let back = decode_todos(&text).expect("canonical text must decode");
    assert!(same_items(&l, &back));
}

#[test]
fn round_trip_special_characters() {
    let l = vec![
        item("id-1", false, "quotes \" and \\ backslash"),
        item("id-2", true, "line\nbreak\ttab\rreturn"),
        item("id-3", false, "unicode \u{00e9}\u{4e16}\u{754c}"),
        item("", true, ""),
    ];
    let text = encode_todos(&l);
    let back = decode_todos(&text).expect("canonical text must decode");
    assert!(same_items(&l, &back));
}

#[test]
fn round_trip_empty() {
    let empty: Vec<TodoItem> = Vec::new();
    let text = encode_todos(&empty);
    let back = decode_todos(&text).expect("the empty array must decode");
    assert!(back.is_empty());
}

#[test]
fn decode_rejects_garbage() {
    assert!(decode_todos("not json at all").is_none());
    assert!(decode_todos("").is_none());
    assert!(decode_todos("[").is_none());
    assert!(decode_todos("[\n  {\n    \"id\": \"x\"").is_none());
    assert!(decode_todos("{}").is_none());
}

#[test]
fn decode_rejects_trailing_content() {
    let l = vec![item("x", false, "hi")];
    let mut text = encode_todos(&l);
    text.push_str(" ");
    assert!(decode_todos(&text).is_none());
}

#[test]
fn load_of_missing_file_is_empty() {
    let s = AppState::load_from_json(None);
    assert!(s.todos.is_empty());
    assert_eq!(s.new_todo, "");
}

#[test]
fn load_of_invalid_text_is_empty_not_a_crash() {
    let s = AppState::load_from_json(Some("}{ garbage ]["));
    assert!(s.todos.is_empty());
    let s2 = AppState::load_from_json(Some("[ ]"));
    assert!(s2.todos.is_empty());
}

#[test]
fn load_of_duplicate_ids_is_empty() {
    let l = vec![item("same", false, "one"), item("same", true, "two")];
    let text = encode_todos(&l);
    let s = AppState::load_from_json(Some(&text));
    assert!(s.todos.is_empty());
}

#[test]
fn load_of_saved_state_restores_it() {
    let s = AppState {
        new_todo: "typing...".to_string(),
        todos: vec![item("a", true, "one"), item("b", false, "two")],
    };
    let text = s.save_to_json();
    let loaded = AppState::load_from_json(Some(&text));
    assert!(same_items(&s.todos, &loaded.todos));
    assert_eq!(loaded.new_todo, "");
}
