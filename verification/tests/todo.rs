use todo_list::command::{Command, Delegate, DispatchOutcome, TodoItemController};
use todo_list::item::TodoItem;
use todo_list::state::AppState;

fn item(id: &str, done: bool, text: &str) -> TodoItem {
    TodoItem { id: id.to_string(), done, text: text.to_string() }
}

fn state_of(items: Vec<TodoItem>) -> AppState {
    AppState { new_todo: String::new(), todos: items }
}

fn texts(s: &AppState) -> Vec<String> {
    let mut out = Vec::new();
    for t in s.todos.iter() {
        out.push(t.text.clone());
    }
    out
}

#[test]
fn add_starts_empty_not_done_and_clears_staging() {
    let mut s = AppState::new();
    assert_eq!(s.todos.len(), 0);
    s.new_todo = "Buy milk".to_string();
    let (_id, snapshot) = s.add_todo();
    assert_eq!(s.todos.len(), 1);
    assert_eq!(s.todos[0].text, "Buy milk");
    assert!(!s.todos[0].done);
    assert_eq!(s.new_todo, "");
    let loaded = AppState::load_from_json(Some(&snapshot));
    assert_eq!(loaded.todos.len(), 1);
    assert_eq!(loaded.todos[0].text, "Buy milk");
    assert!(!loaded.todos[0].done);
    assert_eq!(loaded.todos[0].id, s.todos[0].id);
}

#[test]
fn add_prepends_newest_first() {
    let mut s = AppState::new();
    s.new_todo = "first".to_string();
    s.add_todo();
    s.new_todo = "second".to_string();
    s.add_todo();
    assert_eq!(texts(&s), vec!["second".to_string(), "first".to_string()]);
}

#[test]
fn generated_ids_differ() {
    let mut s = AppState::new();
    s.new_todo = "a".to_string();
    let (id_a, _) = s.add_todo();
    s.new_todo = "b".to_string();
    let (id_b, _) = s.add_todo();
    assert_ne!(id_a, id_b);
    assert_eq!(id_a.len(), 36);
}

#[test]
fn toggle_flips_and_persists_order_unchanged() {
    let mut s = state_of(vec![item("a", false, "A"), item("b", false, "B")]);
    let snapshot = s.toggle_done("a");
    assert!(s.todos[0].done);
    assert!(!s.todos[1].done);
    let loaded = AppState::load_from_json(Some(&snapshot));
    assert_eq!(loaded.todos.len(), 2);
    assert_eq!(loaded.todos[0].id, "a");
    assert!(loaded.todos[0].done);
    assert_eq!(loaded.todos[1].id, "b");
    assert!(!loaded.todos[1].done);
}

#[test]
fn toggle_twice_restores() {
    let mut s = state_of(vec![item("a", false, "A")]);
    s.toggle_done("a");
    s.toggle_done("a");
    assert!(!s.todos[0].done);
}

#[test]
fn toggle_of_absent_id_is_noop() {
    let mut s = state_of(vec![item("a", false, "A")]);
    let snapshot = s.toggle_done("zzz");
    assert!(!s.todos[0].done);
    assert_eq!(snapshot, s.save_to_json());
}

#[test]
fn delete_removes_by_id() {
    let mut s = state_of(vec![item("a", false, "A"), item("b", true, "B")]);
    let snapshot = s.delete_todo("a");
    assert_eq!(s.todos.len(), 1);
    assert_eq!(s.todos[0].id, "b");
    assert_eq!(snapshot, s.save_to_json());
}

#[test]
fn delete_of_absent_id_is_noop() {
    let mut s = state_of(vec![item("a", false, "A")]);
    s.delete_todo("nope");
    assert_eq!(s.todos.len(), 1);
    assert_eq!(s.todos[0].id, "a");
}

#[test]
fn clear_completed_keeps_only_open_items() {
    let mut s = state_of(vec![item("a", true, "A"), item("b", false, "B"), item("c", true, "C")]);
    let snapshot = s.clear_completed();
    assert_eq!(s.todos.len(), 1);
    assert_eq!(s.todos[0].id, "b");
    assert!(!s.todos[0].done);
    let loaded = AppState::load_from_json(Some(&snapshot));
    assert_eq!(loaded.todos.len(), 1);
    assert_eq!(loaded.todos[0].id, "b");
}

#[test]
fn clear_completed_counts() {
    let mut s = state_of(vec![
        item("a", true, "A"),
        item("b", false, "B"),
        item("c", true, "C"),
        item("d", false, "D"),
        item("e", true, "E"),
    ]);
    s.clear_completed();
    assert_eq!(s.todos.len(), 2);
    for t in s.todos.iter() {
        assert!(!t.done);
    }
}

#[test]
fn save_is_idempotent_byte_for_byte() {
    let s = state_of(vec![item("a", true, "something"), item("b", false, "else")]);
    let first = s.save_to_json();
    let second = s.save_to_json();
    assert_eq!(first, second);
}

#[test]
fn delegate_save_persists_without_mutating() {
    let mut s = state_of(vec![item("a", false, "A")]);
    let expected = s.save_to_json();
    let outcome = Delegate.command(&mut s, Command::Save);
    match outcome {
        DispatchOutcome::Handled(text) => assert_eq!(text, expected),
        DispatchOutcome::Forwarded(_) => panic!("save must be handled"),
    }
    assert_eq!(s.todos.len(), 1);
    assert_eq!(s.todos[0].id, "a");
}

#[test]
fn delegate_delete_by_id() {
    let mut s = state_of(vec![item("a", false, "A"), item("b", false, "B")]);
    let outcome = Delegate.command(&mut s, Command::DeleteById("b".to_string()));
    match outcome {
        DispatchOutcome::Handled(text) => assert_eq!(text, s.save_to_json()),
        DispatchOutcome::Forwarded(_) => panic!("delete must be handled"),
    }
    assert_eq!(s.todos.len(), 1);
    assert_eq!(s.todos[0].id, "a");
}

#[test]
fn delegate_forwards_unknown_commands() {
    let mut s = state_of(vec![item("a", false, "A")]);
    let outcome = Delegate.command(&mut s, Command::Other("window.resize".to_string()));
    match outcome {
        DispatchOutcome::Handled(_) => panic!("unknown commands are not handled here"),
        DispatchOutcome::Forwarded(Command::Other(name)) => assert_eq!(name, "window.resize"),
        DispatchOutcome::Forwarded(_) => panic!("the command must come back unchanged"),
    }
    assert_eq!(s.todos.len(), 1);
}

#[test]
fn controller_synthesizes_save_on_done_transition() {
    let before = item("a", false, "A");
    let after = item("a", true, "A");
    match TodoItemController.update(&before, &after) {
        Some(Command::Save) => {}
        _ => panic!("a done transition must synthesize a save"),
    }
    assert!(TodoItemController.update(&before, &before).is_none());
}

#[test]
fn click_delete_submits_the_item_id() {
    let t = item("some-id", false, "A");
    match t.click_delete() {
        Command::DeleteById(id) => assert_eq!(id, "some-id"),
        _ => panic!("the delete button submits a delete command"),
    }
}

#[test]
fn click_add_acts_like_add_todo() {
    let mut s = AppState::new();
    s.new_todo = "call home".to_string();
    let (_id, snapshot) = AppState::click_add(&mut s);
    assert_eq!(s.todos.len(), 1);
    assert_eq!(s.todos[0].text, "call home");
    assert_eq!(snapshot, s.save_to_json());
}

#[test]
fn item_new_is_not_done_and_keeps_text() {
    let t = TodoItem::new("wash up");
    assert!(!t.done);
    assert_eq!(t.text, "wash up");
    assert_eq!(t.id.len(), 36);
}
