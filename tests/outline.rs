use todo_rs::task::{Task, TaskCategory, TaskItem};
use todo_rs::todo_list::{InputState, Key, TodoList};

fn task(name: &str, done: bool) -> TaskItem {
    TaskItem::Task(Task { name: String::from(name), done })
}

fn category(name: &str, child: Vec<TaskItem>) -> TaskItem {
    TaskItem::TaskCategory(TaskCategory { name: String::from(name), child })
}

/// root
///     Work
///         Ship ☐
///         Mail ☑
///     Home
///         Garden
///             Weed ☐
///     Read ☐
fn sample() -> TaskItem {
    category(
        "root",
        vec![
            category("Work", vec![task("Ship", false), task("Mail", true)]),
            category("Home", vec![category("Garden", vec![task("Weed", false)])]),
            task("Read", false),
        ],
    )
}

fn lines_of(t: &TaskItem) -> Vec<String> {
    let mut v = Vec::new();
    t.all_text_lines(&mut v, 0);
    v
}

fn name_of(t: &TaskItem) -> String {
    match t {
        TaskItem::Task(k) => k.name.clone(),
        TaskItem::TaskCategory(c) => c.name.clone(),
    }
}

fn typed_name(l: &TodoList) -> Option<String> {
    match &l.typing_state {
        InputState::TaskInput(s) | InputState::CategoryInput(s) => Some(s.clone()),
        _ => None,
    }
}

#[test]
fn line_length_counts_every_node() {
    assert_eq!(sample().line_length(), 8);
    assert_eq!(task("a", false).line_length(), 1);
    assert_eq!(category("c", vec![]).line_length(), 1);
    assert_eq!(sample().checked_line_count(), Some(8));
    assert_eq!(task("a", true).checked_line_count(), Some(1));
}

#[test]
fn all_text_lines_renders_outline() {
    let lines = lines_of(&sample());
    let expected = vec![
        "root",
        "    Work",
        "        Ship \u{2610}",
        "        Mail \u{2611}",
        "    Home",
        "        Garden",
        "            Weed \u{2610}",
        "    Read \u{2610}",
    ];
    assert_eq!(lines, expected);
    assert_eq!(lines.len(), sample().line_length());
}

#[test]
fn all_text_lines_appends_with_indentation() {
    let mut v = vec![String::from("before")];
    task("x", true).all_text_lines(&mut v, 2);
    assert_eq!(v, vec!["before".to_string(), "        x \u{2611}".to_string()]);
}

#[test]
fn item_at_line_number_follows_preorder() {
    let mut t = sample();
    let names = ["root", "Work", "Ship", "Mail", "Home", "Garden", "Weed", "Read"];
    for (n, want) in names.iter().enumerate() {
        let item = t.item_at_line_number(n).unwrap();
        assert_eq!(name_of(item), want.to_string());
    }
    assert!(t.item_at_line_number(8).is_none());
    assert!(t.item_at_line_number(100).is_none());
}

#[test]
fn item_line_matches_rendered_line() {
    let mut t = sample();
    let lines = lines_of(&t);
    for n in 0..t.line_length() {
        let item = t.item_at_line_number(n).unwrap();
        assert_eq!(lines[n].trim_start(), lines_of(item)[0]);
    }
}

#[test]
fn writes_through_item_land_in_tree() {
    let mut t = sample();
    if let Some(TaskItem::Task(k)) = t.item_at_line_number(6) {
        k.name = String::from("Prune");
    }
    assert_eq!(lines_of(&t)[6], "            Prune \u{2610}");
    assert!(t.item_at_line_number(8).is_none());
    assert_eq!(t.item_search(5).map(name_of), Some(String::from("Garden")));
    assert!(t.item_search(8).is_none());
}

#[test]
fn parent_of_line_number_gives_owner_and_index() {
    let mut t = sample();
    assert!(t.parent_of_line_number(0).is_none());
    assert!(t.parent_of_line_number(8).is_none());
    let (p, i) = t.parent_of_line_number(3).unwrap();
    assert_eq!(name_of(p), "Work");
    assert_eq!(i, 1);
    let (p, i) = t.parent_of_line_number(6).unwrap();
    assert_eq!(name_of(p), "Garden");
    assert_eq!(i, 0);
    let (p, i) = t.parent_of_line_number(7).unwrap();
    assert_eq!(name_of(p), "root");
    assert_eq!(i, 2);
    for n in 1..t.line_length() {
        let want = lines_of(t.item_search(n).unwrap());
        match t.parent_of_line_number(n).unwrap() {
            (TaskItem::TaskCategory(c), i) => assert_eq!(lines_of(&c.child[i]), want),
            (TaskItem::Task(_), _) => panic!("a task owns no children"),
        }
    }
}

#[test]
fn interact_flips_task_only() {
    let mut t = task("a", false);
    t.interact();
    assert_eq!(t, task("a", true));
    t.interact();
    assert_eq!(t, task("a", false));
    let mut c = category("c", vec![task("a", false)]);
    c.interact();
    assert_eq!(c, category("c", vec![task("a", false)]));
}

#[test]
fn toggle_twice_restores_tree() {
    let mut t = sample();
    t.toggle_at(3);
    assert_eq!(lines_of(&t)[3], "        Mail \u{2610}");
    t.toggle_at(3);
    assert_eq!(t, sample());
    t.toggle_at(1);
    assert_eq!(t, sample());
    t.toggle_at(42);
    assert_eq!(t, sample());
}

#[test]
fn remove_takes_whole_subtree() {
    let mut t = sample();
    let before = lines_of(&t);
    t.remove_at(4);
    assert_eq!(t.line_length(), 8 - 3);
    let mut expected = before.clone();
    expected.drain(4..7);
    assert_eq!(lines_of(&t), expected);
    t.remove_at(0);
    assert_eq!(t.line_length(), 5);
    t.remove_at(5);
    assert_eq!(t.line_length(), 5);
}

#[test]
fn push_child_appends_last() {
    let mut t = sample();
    t.push_child_at(1, task("New", false));
    assert_eq!(t.line_length(), 9);
    assert_eq!(lines_of(&t)[4], "        New \u{2610}");
    t.push_child_at(2, task("Sub", false));
    assert_eq!(t.line_length(), 9);
    t.push_child_at(0, category("Empty", vec![]));
    assert_eq!(t.line_length(), 10);
    assert_eq!(lines_of(&t)[9], "    Empty");
}

#[test]
fn navigation_wraps_around() {
    let mut l = TodoList::with_header_item(category("root", vec![task("a", false), task("b", false)]));
    l.selected = Some(2);
    l.next();
    assert_eq!(l.selected, Some(0));
    l.previous();
    assert_eq!(l.selected, Some(2));
}

#[test]
fn navigation_starts_at_first_line() {
    let mut l = TodoList::with_header_item(sample());
    l.previous();
    assert_eq!(l.selected, Some(0));
    l.unselect();
    l.next();
    assert_eq!(l.selected, Some(0));
    l.next();
    assert_eq!(l.selected, Some(1));
}

#[test]
fn navigation_discards_typed_text() {
    let mut l = TodoList::with_header_item(sample());
    assert!(!l.handle_key(Key::Down));
    l.handle_key(Key::Char('+'));
    l.handle_key(Key::Left);
    l.handle_key(Key::Char('x'));
    assert_eq!(typed_name(&l), Some(String::from("x")));
    l.handle_key(Key::Down);
    assert!(matches!(l.typing_state, InputState::Idle));
    assert_eq!(l.selected, Some(1));
    assert_eq!(l.header_task, sample());
}

#[test]
fn backspace_edits_buffer() {
    let mut l = TodoList::with_header_item(sample());
    l.handle_key(Key::Down);
    l.handle_key(Key::Char('='));
    l.handle_key(Key::Right);
    l.handle_key(Key::Backspace);
    assert_eq!(typed_name(&l), Some(String::new()));
    l.handle_key(Key::Char('a'));
    l.handle_key(Key::Char('b'));
    l.handle_key(Key::Backspace);
    assert_eq!(typed_name(&l), Some(String::from("a")));
    l.handle_key(Key::Enter);
    assert!(matches!(l.typing_state, InputState::Idle));
    assert_eq!(lines_of(&l.header_task)[8], "    a");
    assert_eq!(l.header_task.line_length(), 9);
}

#[test]
fn add_needs_selection() {
    let mut l = TodoList::with_header_item(sample());
    l.handle_key(Key::Char('+'));
    assert!(matches!(l.typing_state, InputState::Idle));
    l.handle_key(Key::Down);
    l.add();
    assert!(matches!(l.typing_state, InputState::TypeSelect));
    l.cancel_typing();
    assert!(matches!(l.typing_state, InputState::Idle));
}

#[test]
fn enter_toggles_selected_task() {
    let mut l = TodoList::with_header_item(sample());
    l.selected = Some(2);
    l.handle_key(Key::Enter);
    assert_eq!(lines_of(&l.header_task)[2], "        Ship \u{2611}");
    l.selected = Some(1);
    l.interact();
    l.selected = Some(2);
    l.interact();
    assert_eq!(l.header_task, sample());
}

#[test]
fn quit_key_leaves_state() {
    let mut l = TodoList::with_header_item(sample());
    l.handle_key(Key::Down);
    assert!(l.handle_key(Key::Char('q')));
    assert_eq!(l.selected, Some(0));
    assert!(!l.handle_key(Key::Other));
}

#[test]
fn add_task_then_remove_scenario() {
    let start = category("root", vec![category("Work", vec![])]);
    let mut l = TodoList::with_header_item(category("root", vec![category("Work", vec![])]));
    l.selected = Some(1);
    l.handle_key(Key::Char('+'));
    l.handle_key(Key::Left);
    for c in "Ship".chars() {
        l.handle_key(Key::Char(c));
    }
    l.handle_key(Key::Enter);
    assert_eq!(l.header_task.line_length(), 3);
    assert_eq!(l.header_task.item_at_line_number(2).map(|x| &*x), Some(&task("Ship", false)));
    l.selected = Some(2);
    l.handle_key(Key::Char('-'));
    assert_eq!(l.header_task.line_length(), 2);
    assert_eq!(l.header_task, start);
}

#[test]
fn decorated_lines_follow_mode() {
    let mut l = TodoList::with_header_item(sample());
    assert_eq!(l.decorated_lines(), lines_of(&sample()));
    l.handle_key(Key::Down);
    l.handle_key(Key::Down);
    l.handle_key(Key::Down);
    assert_eq!(l.decorated_lines()[2], "        Ship \u{2610}        (\u{21b0} / -)");
    l.handle_key(Key::Up);
    assert_eq!(l.decorated_lines()[1], "    Work        (+ / -)");
    l.handle_key(Key::Char('+'));
    assert_eq!(l.decorated_lines()[1], "    Work       \u{25c0} Task : Category \u{25b6}");
    l.handle_key(Key::Left);
    l.handle_key(Key::Char('h'));
    l.handle_key(Key::Char('i'));
    assert_eq!(l.decorated_lines()[1], "    Work    New Task: hi_");
    l.handle_key(Key::Up);
    l.handle_key(Key::Down);
    l.handle_key(Key::Char('='));
    l.handle_key(Key::Right);
    l.handle_key(Key::Char('z'));
    assert_eq!(l.decorated_lines()[1], "    Work    New Category: z_");
    assert_eq!(l.decorated_lines()[0], "root");
}
