use vstd::prelude::*;
use vstd::arithmetic::div_mod::{
    lemma_add_mod_noop, lemma_mod_add_multiples_vanish, lemma_mod_bound, lemma_mod_self_0, lemma_small_mod,
};
use crate::outline::{lemma_lines_len, lemma_removed_at_bound, lemma_toggled_at, lemma_with_child_at_bound, Node};
use crate::task::{lemma_view_items_empty, texts, Task, TaskCategory, TaskItem};
use vstd::string::StringExecFns;

verus! {

/// What the user is in the middle of entering.
pub enum InputState {
    Idle,
    TypeSelect,
    TaskInput(String),
    CategoryInput(String),
}

/// The mathematical model of an `InputState`.
pub enum Mode {
    Idle,
    ChoosingType,
    TypingTask(Seq<char>),
    TypingCategory(Seq<char>),
}

impl View for InputState {
    type V = Mode;

    open spec fn view(&self) -> Mode {
        match self {
            InputState::Idle => Mode::Idle,
            InputState::TypeSelect => Mode::ChoosingType,
            InputState::TaskInput(s) => Mode::TypingTask(s@),
            InputState::CategoryInput(s) => Mode::TypingCategory(s@),
        }
    }
}

/// A key press, as far as the list reacts to it.
#[derive(Debug, Clone, Copy, PartialEq, Eq)]
pub enum Key {
    Up,
    Down,
    Left,
    Right,
    Enter,
    Backspace,
    Char(char),
    Other,
}

/// The session state: the tree, the selected line and the input mode.
pub struct TodoList {
    pub selected: Option<usize>,
    pub header_task: TaskItem,
    pub typing_state: InputState,
}

/// The mathematical model of a `TodoList`.
pub struct ListModel {
    pub selected: Option<nat>,
    pub tree: Node,
    pub mode: Mode,
}

impl View for TodoList {
    type V = ListModel;

    open spec fn view(&self) -> ListModel {
        ListModel {
            selected: match self.selected {
                Some(i) => Some(i as nat),
                None => None,
            },
            tree: self.header_task@,
            mode: self.typing_state@,
        }
    }
}

/// Relies on `String::push`: appends one char.
#[verifier::external_body]
fn push_char(s: &mut String, c: char)
    ensures
        final(s)@ == old(s)@.push(c),
{
    s.push(c)
}

/// Relies on `String::pop`: removes and returns the last char, if any.
#[verifier::external_body]
fn pop_char(s: &mut String) -> (r: Option<char>)
    ensures
        old(s)@.len() == 0 ==> r is None && final(s)@ == old(s)@,
        old(s)@.len() > 0 ==> r == Some(old(s)@.last()) && final(s)@ == old(s)@.drop_last(),
{
    s.pop()
}

/// What follows the selected line: a hint on a task line; on a category line, a
/// prompt that depends on the mode.
pub open spec fn hint(node: Node, mode: Mode) -> Seq<char> {
    if node is Task {
        "        (\u{21b0} / -)"@
    } else {
        match mode {
            Mode::Idle => "        (+ / -)"@,
            Mode::ChoosingType => "       \u{25c0} Task : Category \u{25b6}"@,
            Mode::TypingTask(s) => "    New Task: "@ + s + seq!['_'],
            Mode::TypingCategory(s) => "    New Category: "@ + s + seq!['_'],
        }
    }
}

impl ListModel {
    /// The outline with the hint for the mode after the selected line.
    pub open spec fn decorated(self) -> Seq<Seq<char>> {
        let ls = self.tree.lines(0);
        match self.selected {
            Some(i) => if i < ls.len() {
                ls.update(i as int, ls[i as int] + hint(self.tree.node_at(i), self.mode))
            } else {
                ls
            },
            None => ls,
        }
    }

    /// The tree's line count fits in a machine word.
    pub open spec fn wf(self) -> bool {
        self.tree.line_count() <= usize::MAX
    }

    pub open spec fn idle(self) -> ListModel {
        ListModel { mode: Mode::Idle, ..self }
    }

    /// Next line down, wrapping from the last line to the first.
    pub open spec fn moved_down(self) -> ListModel {
        ListModel {
            selected: Some(
                match self.selected {
                    Some(i) => ((i + 1) as int % (self.tree.line_count() as int)) as nat,
                    None => 0,
                },
            ),
            mode: Mode::Idle,
            ..self
        }
    }

    /// Next line up, wrapping from the first line to the last.
    pub open spec fn moved_up(self) -> ListModel {
        ListModel {
            selected: Some(
                match self.selected {
                    Some(i) => ((i - 1 + self.tree.line_count()) as int % (self.tree.line_count() as int)) as nat,
                    None => 0,
                },
            ),
            mode: Mode::Idle,
            ..self
        }
    }

    pub open spec fn deselected(self) -> ListModel {
        ListModel { selected: None, mode: Mode::Idle, ..self }
    }

    /// Starts choosing the kind of a new item, where a line is selected.
    pub open spec fn began_add(self) -> ListModel {
        if self.selected is Some {
            ListModel { mode: Mode::ChoosingType, ..self }
        } else {
            self
        }
    }

    /// Takes out the selected item.
    pub open spec fn removed(self) -> ListModel {
        match self.selected {
            Some(i) => ListModel { tree: self.tree.removed_at(i), ..self },
            None => self,
        }
    }

    /// Enter: adds the typed task or category under the selected line, or else
    /// toggles the selected line; then back to idle. An addition that would
    /// take the line count past a machine word is not made.
    pub open spec fn confirmed(self) -> ListModel {
        match self.selected {
            None => self.idle(),
            Some(i) => {
                let tree = match self.mode {
                    Mode::TypingTask(s) => if self.tree.line_count() < usize::MAX {
                        self.tree.with_child_at(i, Node::Task { name: s, done: false })
                    } else {
                        self.tree
                    },
                    Mode::TypingCategory(s) => if self.tree.line_count() < usize::MAX {
                        self.tree.with_child_at(i, Node::Category { name: s, children: Seq::empty() })
                    } else {
                        self.tree
                    },
                    _ => self.tree.toggled_at(i),
                };
                ListModel { tree, mode: Mode::Idle, ..self }
            },
        }
    }

    /// A char typed while entering a name goes into the name; otherwise '-'
    /// removes the selected item and '+' or '=' begins an addition.
    pub open spec fn typed(self, c: char) -> ListModel {
        match self.mode {
            Mode::TypingTask(s) => ListModel { mode: Mode::TypingTask(s.push(c)), ..self },
            Mode::TypingCategory(s) => ListModel { mode: Mode::TypingCategory(s.push(c)), ..self },
            _ => if c == '-' {
                self.removed()
            } else if c == '+' || c == '=' {
                self.began_add()
            } else {
                self
            },
        }
    }

    /// Backspace drops the last char of the name being entered.
    pub open spec fn backspaced(self) -> ListModel {
        match self.mode {
            Mode::TypingTask(s) => ListModel {
                mode: Mode::TypingTask(if s.len() > 0 { s.drop_last() } else { s }),
                ..self
            },
            Mode::TypingCategory(s) => ListModel {
                mode: Mode::TypingCategory(if s.len() > 0 { s.drop_last() } else { s }),
                ..self
            },
            _ => self,
        }
    }

    /// The state after a key press; 'q' ends the session and changes nothing.
    pub open spec fn after_key(self, key: Key) -> ListModel {
        match key {
            Key::Char('q') => self,
            Key::Left => if self.mode is ChoosingType {
                ListModel { mode: Mode::TypingTask(Seq::empty()), ..self }
            } else {
                self.deselected()
            },
            Key::Right => if self.mode is ChoosingType {
                ListModel { mode: Mode::TypingCategory(Seq::empty()), ..self }
            } else {
                self
            },
            Key::Down => self.moved_down(),
            Key::Up => self.moved_up(),
            Key::Enter => self.confirmed(),
            Key::Char(c) => self.typed(c),
            Key::Backspace => self.backspaced(),
            Key::Other => self,
        }
    }
}

impl TodoList {
    /// A session on `header_task`, with nothing selected.
    pub fn with_header_item(header_task: TaskItem) -> (r: TodoList)
        ensures
            r@ == (ListModel { selected: None, tree: header_task@, mode: Mode::Idle }),
    {
        TodoList { selected: None, header_task, typing_state: InputState::Idle }
    }

    /// Enter: adds the typed item under the selected line, or toggles that line.
    pub fn interact(&mut self)
        requires
            old(self)@.wf(),
        ensures
            final(self)@ == old(self)@.confirmed(),
            final(self)@.wf(),
    {
        if let Some(i) = self.selected {
            let room = self.header_task.line_length() < usize::MAX;
            match &self.typing_state {
                InputState::TaskInput(s) => {
                    if room {
                        let task = TaskItem::Task(Task { name: s.clone(), done: false });
                        proof {
                            lemma_with_child_at_bound(self.header_task@, i as nat, task@);
                        }
                        self.header_task.push_child_at(i, task);
                    }
                },
                InputState::CategoryInput(s) => {
                    if room {
                        let category = TaskItem::TaskCategory(
                            TaskCategory { name: s.clone(), child: Vec::new() },
                        );
                        proof {
                            lemma_view_items_empty(category);
                            lemma_with_child_at_bound(self.header_task@, i as nat, category@);
                        }
                        self.header_task.push_child_at(i, category);
                    }
                },
                _ => {
                    proof {
                        lemma_toggled_at(self.header_task@, i as nat);
                    }
                    self.header_task.toggle_at(i);
                },
            }
        }
        self.cancel_typing();
    }

    /// Begins an addition under the selected line.
    pub fn add(&mut self)
        ensures
            final(self)@ == old(self)@.began_add(),
    {
        if let Some(_) = self.selected {
            self.typing_state = InputState::TypeSelect;
        }
    }

    /// Drops whatever was being entered.
    pub fn cancel_typing(&mut self)
        ensures
            final(self)@ == old(self)@.idle(),
    {
        self.typing_state = InputState::Idle;
    }

    /// Takes the selected item out of its parent.
    pub fn remove(&mut self)
        requires
            old(self)@.wf(),
        ensures
            final(self)@ == old(self)@.removed(),
            final(self)@.wf(),
    {
        if let Some(i) = self.selected {
            proof {
                lemma_removed_at_bound(self.header_task@, i as nat);
            }
            self.header_task.remove_at(i);
        }
    }

    /// Selects the next line down, wrapping around.
    pub fn next(&mut self)
        requires
            old(self)@.wf(),
        ensures
            final(self)@ == old(self)@.moved_down(),
    {
        let i: usize = match self.selected {
            Some(i) => {
                let lc = self.header_task.line_length();
                let j = i % lc;
                proof {
                    lemma_add_mod_noop(i as int, 1, lc as int);
                    lemma_mod_bound(i as int, lc as int);
                    if lc > 1 {
                        lemma_small_mod(1, lc as nat);
                    } else {
                        lemma_mod_self_0(1);
                        lemma_small_mod(0, 1);
                    }
                    if j + 1 < lc {
                        lemma_small_mod((j + 1) as nat, lc as nat);
                    } else {
                        lemma_mod_self_0(lc as int);
                    }
                }
                if j + 1 == lc {
                    0
                } else {
                    j + 1
                }
            },
            None => 0,
        };
        self.selected = Some(i);
        self.cancel_typing();
    }

    /// Selects the next line up, wrapping around.
    pub fn previous(&mut self)
        requires
            old(self)@.wf(),
        ensures
            final(self)@ == old(self)@.moved_up(),
    {
        let i: usize = match self.selected {
            Some(i) => {
                let lc = self.header_task.line_length();
                proof {
                    if i == 0 {
                        lemma_small_mod((lc - 1) as nat, lc as nat);
                    } else {
                        lemma_mod_add_multiples_vanish(i - 1, lc as int);
                    }
                }
                if i == 0 {
                    lc - 1
                } else {
                    (i - 1) % lc
                }
            },
            None => 0,
        };
        self.selected = Some(i);
        self.cancel_typing();
    }

    /// Clears the selection and drops whatever was being entered.
    pub fn unselect(&mut self)
        ensures
            final(self)@ == old(self)@.deselected(),
    {
        self.selected = None;
        self.cancel_typing();
    }

    /// Reacts to one key press; returns whether the session ends.
    pub fn handle_key(&mut self, key: Key) -> (quit: bool)
        requires
            old(self)@.wf(),
        ensures
            quit == (key == Key::Char('q')),
            final(self)@ == old(self)@.after_key(key),
            final(self)@.wf(),
    {
        match key {
            Key::Char('q') => {
                return true;
            },
            Key::Left => {
                match self.typing_state {
                    InputState::TypeSelect => self.typing_state = InputState::TaskInput(String::new()),
                    _ => self.unselect(),
                }
            },
            Key::Right => {
                if let InputState::TypeSelect = self.typing_state {
                    self.typing_state = InputState::CategoryInput(String::new());
                }
            },
            Key::Down => self.next(),
            Key::Up => self.previous(),
            Key::Enter => self.interact(),
            Key::Char(c) => {
                match &mut self.typing_state {
                    InputState::TaskInput(s) => push_char(s, c),
                    InputState::CategoryInput(s) => push_char(s, c),
                    _ => {
                        if c == '-' {
                            self.remove();
                        } else if c == '=' || c == '+' {
                            self.add();
                        }
                    },
                }
            },
            Key::Backspace => {
                match &mut self.typing_state {
                    InputState::TaskInput(s) => {
                        pop_char(s);
                    },
                    InputState::CategoryInput(s) => {
                        pop_char(s);
                    },
                    _ => {},
                }
            },
            Key::Other => {},
        }
        false
    }

    /// The lines to show: the outline, with the hint after the selected line.
    pub fn decorated_lines(&self) -> (r: Vec<String>)
        requires
            self@.wf(),
        ensures
            texts(r@) == self@.decorated(),
    {
        let mut lines: Vec<String> = Vec::new();
        self.header_task.all_text_lines(&mut lines, 0);
        proof {
            lemma_lines_len(self.header_task@, 0);
            assert(texts(lines@) =~= self.header_task@.lines(0));
        }
        if let Some(i) = self.selected {
            if i < lines.len() {
                let is_task = match self.header_task.item_search(i) {
                    Some(item) => {
                        proof {
                            if let TaskItem::Task(k) = item {
                                assert(item@ == Node::Task { name: k.name@, done: k.done });
                            } else {
                                assert(!(item@ is Task));
                            }
                        }
                        matches!(item, TaskItem::Task(_))
                    },
                    None => false,
                };
                let mut extra = String::new();
                if is_task {
                    extra.append("        (\u{21b0} / -)");
                } else {
                    match &self.typing_state {
                        InputState::Idle => extra.append("        (+ / -)"),
                        InputState::TypeSelect => extra.append("       \u{25c0} Task : Category \u{25b6}"),
                        InputState::TaskInput(s) => {
                            extra.append("    New Task: ");
                            extra.append(s.as_str());
                            push_char(&mut extra, '_');
                        },
                        InputState::CategoryInput(s) => {
                            extra.append("    New Category: ");
                            extra.append(s.as_str());
                            push_char(&mut extra, '_');
                        },
                    }
                }
                assert(extra@ =~= hint(self.header_task@.node_at(i as nat), self.typing_state@));
                let ghost before = lines@;
                lines[i].append(extra.as_str());
                proof {
                    assert(texts(lines@) =~= texts(before).update(i as int, texts(before)[i as int] + extra@));
                }
            }
        }
        lines
    }
}

} // verus!
