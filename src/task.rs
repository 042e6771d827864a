use vstd::prelude::*;
use vstd::string::StringExecFns;
use crate::outline::{
    forest_count, forest_lines, indent_text, lemma_child_count, lemma_forest_count_prefix,
    lemma_forest_count_take, lemma_locate, lemma_locate_inv, lemma_node_at_child, lemma_parent_at,
    lemma_removed_at_replaced, lemma_removed_at_unparented, lemma_toggled_at_replaced,
    lemma_replaced_at_same, lemma_with_child_at_out_of_range, lemma_with_child_at_replaced, locate, Node,
};

verus! {

broadcast use vstd::seq::group_seq_axioms, vstd::std_specs::vec::group_vec_axioms;

/// A category: a named, ordered list of child items.
#[derive(Debug, PartialEq)]
pub struct TaskCategory {
    pub name: String,
    pub child: Vec<TaskItem>,
}

/// A task: a named leaf with a done flag.
#[derive(Debug, PartialEq)]
pub struct Task {
    pub name: String,
    pub done: bool,
}

/// One entry of the outline: a task or a category.
#[derive(Debug, PartialEq)]
pub enum TaskItem {
    TaskCategory(TaskCategory),
    Task(Task),
}

/// The models of a sequence of items, in order.
pub open spec fn view_items(s: Seq<TaskItem>) -> Seq<Node>
    decreases s,
{
    if s.len() == 0 {
        Seq::empty()
    } else {
        view_items(s.drop_last()).push(view_item(s.last()))
    }
}

/// The model of an item: names as char sequences, children as models.
pub open spec fn view_item(t: TaskItem) -> Node
    decreases t,
{
    match t {
        TaskItem::Task(k) => Node::Task { name: k.name@, done: k.done },
        TaskItem::TaskCategory(c) => Node::Category { name: c.name@, children: view_items(c.child@) },
    }
}

impl View for TaskItem {
    type V = Node;

    open spec fn view(&self) -> Node {
        view_item(*self)
    }
}

/// The models of a sequence of items are the items' models, index by index.
pub proof fn lemma_view_items(s: Seq<TaskItem>)
    ensures
        view_items(s).len() == s.len(),
        forall|j: int| 0 <= j < s.len() ==> #[trigger] view_items(s)[j] == s[j]@,
    decreases s.len(),
{
    if s.len() > 0 {
        lemma_view_items(s.drop_last());
    }
}

/// Finds the child of `children` that holds local line `k`, and the line's
/// position inside it.
fn locate_child(children: &Vec<TaskItem>, k: usize) -> (r: Option<(usize, usize)>)
    requires
        forest_count(view_items(children@)) <= usize::MAX,
    ensures
        k < forest_count(view_items(children@)) ==> (r matches Some((i, off)) && i < children@.len()
            && i as int == locate(view_items(children@), k as nat).0 && off as nat == locate(
            view_items(children@),
            k as nat,
        ).1 && off < children@[i as int]@.line_count() && k == forest_count(
            view_items(children@).take(i as int),
        ) + off),
        k >= forest_count(view_items(children@)) ==> r is None,
{
    let ghost vs = view_items(children@);
    proof {
        lemma_view_items(children@);
    }
    let mut i: usize = 0;
    let mut start: usize = 0;
    while i < children.len()
        invariant
            vs == view_items(children@),
            vs.len() == children@.len(),
            forall|j: int| 0 <= j < children@.len() ==> #[trigger] vs[j] == children@[j]@,
            forest_count(vs) <= usize::MAX,
            i <= children.len(),
            start == forest_count(vs.take(i as int)),
            start <= k,
        decreases children.len() - i,
    {
        proof {
            lemma_forest_count_take(vs, i as int);
            lemma_forest_count_prefix(vs, i as int + 1);
        }
        let len = children[i].line_length();
        if k < start + len {
            proof {
                lemma_locate_inv(vs, i as int, (k - start) as nat);
            }
            return Some((i, k - start));
        }
        start = start + len;
        i = i + 1;
    }
    proof {
        assert(vs.take(i as int) =~= vs);
    }
    None
}

/// The text of each string, in order.
pub open spec fn texts(v: Seq<String>) -> Seq<Seq<char>> {
    v.map_values(|s: String| s@)
}

proof fn lemma_texts_push(v: Seq<String>, x: String)
    ensures
        texts(v.push(x)) == texts(v).push(x@),
{
    assert(texts(v.push(x)) =~= texts(v).push(x@));
}

/// Four spaces for each level of `indentation`.
fn indent_string(indentation: usize) -> (r: String)
    ensures
        r@ == indent_text(indentation as nat),
{
    let mut r = String::new();
    let mut d: usize = 0;
    while d < indentation
        invariant
            d <= indentation,
            r@ == indent_text(d as nat),
        decreases indentation - d,
    {
        proof {
            reveal_strlit("    ");
        }
        r.append("    ");
        d = d + 1;
    }
    r
}

/// A category with no children has an empty model of children.
pub proof fn lemma_view_items_empty(t: TaskItem)
    requires
        t matches TaskItem::TaskCategory(c) && c.child@.len() == 0,
    ensures
        t@ == (Node::Category { name: t->TaskCategory_0.name@, children: Seq::empty() }),
{
}

impl TaskItem {
    /// Appends the outline of this item, one line per item in pre-order, each
    /// indented by four spaces per level starting at `indentation`.
    pub fn all_text_lines(&self, line_buffer: &mut Vec<String>, indentation: usize)
        requires
            indentation + self@.line_count() <= usize::MAX,
        ensures
            texts(final(line_buffer)@) == texts(old(line_buffer)@) + self@.lines(indentation as nat),
        decreases self@,
    {
        let mut this_line_string = indent_string(indentation);
        match self {
            TaskItem::Task(t) => {
                assert(self@ == Node::Task { name: t.name@, done: t.done });
                this_line_string.append(t.name.as_str());
                if t.done {
                    proof {
                        reveal_strlit(" \u{2611}");
                    }
                    this_line_string.append(" \u{2611}");
                } else {
                    proof {
                        reveal_strlit(" \u{2610}");
                    }
                    this_line_string.append(" \u{2610}");
                }
                let ghost before = line_buffer@;
                line_buffer.push(this_line_string);
                proof {
                    lemma_texts_push(before, this_line_string);
                    assert(this_line_string@ =~= self@.line_text(indentation as nat));
                    assert(texts(line_buffer@) =~= texts(old(line_buffer)@) + self@.lines(
                        indentation as nat,
                    ));
                }
            },
            TaskItem::TaskCategory(c) => {
                let ghost vs = view_items(c.child@);
                proof {
                    lemma_view_items(c.child@);
                    assert(self@ == Node::Category { name: c.name@, children: vs });
                }
                this_line_string.append(c.name.as_str());
                let ghost before = line_buffer@;
                line_buffer.push(this_line_string);
                proof {
                    lemma_texts_push(before, this_line_string);
                    assert(vs.take(0) =~= Seq::<Node>::empty());
                    assert(texts(line_buffer@) =~= texts(old(line_buffer)@) + seq![
                        self@.line_text(indentation as nat),
                    ] + forest_lines(vs.take(0), (indentation + 1) as nat));
                }
                let mut i: usize = 0;
                while i < c.child.len()
                    invariant
                        *self == TaskItem::TaskCategory(*c),
                        self@ == (Node::Category { name: c.name@, children: vs }),
                        vs == view_items(c.child@),
                        vs.len() == c.child@.len(),
                        forall|j: int| 0 <= j < c.child@.len() ==> #[trigger] vs[j] == c.child@[j]@,
                        indentation + 1 + forest_count(vs) <= usize::MAX,
                        i <= c.child.len(),
                        texts(line_buffer@) == texts(old(line_buffer)@) + seq![
                            self@.line_text(indentation as nat),
                        ] + forest_lines(vs.take(i as int), (indentation + 1) as nat),
                    decreases c.child.len() - i,
                {
                    proof {
                        lemma_child_count(vs, i as int);
                        assert(decreases_to!(self@ => self@->children));
                        assert(decreases_to!(vs => vs[i as int]));
                        assert(vs.take(i + 1).drop_last() =~= vs.take(i as int));
                    }
                    c.child[i].all_text_lines(line_buffer, indentation + 1);
                    i = i + 1;
                    proof {
                        assert(texts(line_buffer@) =~= texts(old(line_buffer)@) + seq![
                            self@.line_text(indentation as nat),
                        ] + forest_lines(vs.take(i as int), (indentation + 1) as nat));
                    }
                }
                proof {
                    assert(vs.take(i as int) =~= vs);
                }
            },
        }
    }

    /// The line count, or `None` where it does not fit in a `usize`.
    pub fn checked_line_count(&self) -> (r: Option<usize>)
        ensures
            self@.line_count() <= usize::MAX ==> r == Some(self@.line_count() as usize),
            self@.line_count() > usize::MAX ==> r is None,
        decreases self@,
    {
        match self {
            TaskItem::Task(t) => {
                assert(self@ == Node::Task { name: t.name@, done: t.done });
                Some(1)
            },
            TaskItem::TaskCategory(c) => {
                let ghost vs = view_items(c.child@);
                proof {
                    lemma_view_items(c.child@);
                    assert(self@ == Node::Category { name: c.name@, children: vs });
                }
                let mut sum: usize = 1;
                let mut i: usize = 0;
                while i < c.child.len()
                    invariant
                        self@ == (Node::Category { name: c.name@, children: vs }),
                        vs == view_items(c.child@),
                        vs.len() == c.child@.len(),
                        forall|j: int| 0 <= j < c.child@.len() ==> #[trigger] vs[j] == c.child@[j]@,
                        i <= c.child.len(),
                        sum == 1 + forest_count(vs.take(i as int)),
                    decreases c.child.len() - i,
                {
                    proof {
                        lemma_forest_count_take(vs, i as int);
                        lemma_forest_count_prefix(vs, i as int + 1);
                        lemma_child_count(vs, i as int);
                        assert(decreases_to!(self@ => self@->children));
                        assert(decreases_to!(vs => vs[i as int]));
                    }
                    match c.child[i].checked_line_count() {
                        Some(len) => {
                            if len > usize::MAX - sum {
                                return None;
                            }
                            sum = sum + len;
                        },
                        None => {
                            return None;
                        },
                    }
                    i = i + 1;
                }
                proof {
                    assert(vs.take(i as int) =~= vs);
                }
                Some(sum)
            },
        }
    }

    /// Number of lines that this item and its descendants take in the outline.
    pub fn line_length(&self) -> (r: usize)
        requires
            self@.line_count() <= usize::MAX,
        ensures
            r == self@.line_count(),
        decreases self@,
    {
        match self {
            TaskItem::Task(_) => 1,
            TaskItem::TaskCategory(c) => {
                let ghost vs = view_items(c.child@);
                proof {
                    lemma_view_items(c.child@);
                }
                let mut sum: usize = 1;
                let mut i: usize = 0;
                while i < c.child.len()
                    invariant
                        *self == TaskItem::TaskCategory(*c),
                        vs == view_items(c.child@),
                        vs.len() == c.child@.len(),
                        forall|j: int| 0 <= j < c.child@.len() ==> #[trigger] vs[j] == c.child@[j]@,
                        1 + forest_count(vs) <= usize::MAX,
                        i <= c.child.len(),
                        sum == 1 + forest_count(vs.take(i as int)),
                    decreases c.child.len() - i,
                {
                    proof {
                        lemma_forest_count_take(vs, i as int);
                        lemma_forest_count_prefix(vs, i as int + 1);
                        assert(self@ == Node::Category { name: c.name@, children: vs });
                        assert(decreases_to!(self@ => self@->children));
                        assert(decreases_to!(vs => vs[i as int]));
                        assert(vs[i as int] == c.child@[i as int]@);
                    }
                    let len = c.child[i].line_length();
                    sum = sum + len;
                    i = i + 1;
                }
                proof {
                    assert(vs.take(i as int) =~= vs);
                }
                sum
            },
        }
    }

    /// The item at line `line_number` of this item's outline, if there is one;
    /// what is written through it lands at that line of this tree.
    pub fn item_at_line_number(&mut self, line_number: usize) -> (r: Option<&mut TaskItem>)
        requires
            old(self)@.line_count() <= usize::MAX,
        ensures
            line_number < old(self)@.line_count() ==> (r matches Some(x) && x@ == old(self)@.node_at(
                line_number as nat,
            ) && final(self)@ == old(self)@.replaced_at(line_number as nat, final(x)@)),
            line_number >= old(self)@.line_count() ==> r is None && final(self)@ == old(self)@,
        decreases old(self)@,
    {
        if line_number == 0 {
            return Some(self);
        }
        match self {
            TaskItem::Task(t) => {
                assert(old(self)@ == Node::Task { name: t.name@, done: t.done });
                None
            },
            TaskItem::TaskCategory(c) => {
                let ghost vs = view_items(c.child@);
                proof {
                    lemma_view_items(c.child@);
                    assert(old(self)@ == Node::Category { name: c.name@, children: vs });
                }
                match locate_child(&c.child, line_number - 1) {
                    Some((i, off)) => {
                        proof {
                            lemma_locate(vs, (line_number - 1) as nat);
                            lemma_child_count(vs, i as int);
                            assert(decreases_to!(old(self)@ => old(self)@->children));
                            assert(decreases_to!(vs => vs[i as int]));
                        }
                        let ghost old_vec = c.child@;
                        let child = &mut c.child[i];
                        let ghost child_final = *final(child);
                        proof {
                            let new_vec = old_vec.update(i as int, child_final);
                            lemma_view_items(new_vec);
                            assert(after_borrow(c.child)@ == new_vec);
                            assert(view_items(new_vec) =~= vs.update(i as int, child_final@));
                        }
                        child.item_at_line_number(off)
                    },
                    None => None,
                }
            },
        }
    }

    /// Looks up the item at line `line_number` without borrowing it mutably.
    pub fn item_search(&self, line_number: usize) -> (r: Option<&TaskItem>)
        requires
            self@.line_count() <= usize::MAX,
        ensures
            line_number < self@.line_count() ==> r is Some && r->0@ == self@.node_at(
                line_number as nat,
            ),
            line_number >= self@.line_count() ==> r is None,
        decreases self@,
    {
        if line_number == 0 {
            return Some(self);
        }
        match self {
            TaskItem::Task(t) => {
                assert(self@ == Node::Task { name: t.name@, done: t.done });
                None
            },
            TaskItem::TaskCategory(c) => {
                let ghost vs = view_items(c.child@);
                proof {
                    lemma_view_items(c.child@);
                    assert(self@ == Node::Category { name: c.name@, children: vs });
                }
                match locate_child(&c.child, line_number - 1) {
                    Some((i, off)) => {
                        proof {
                            lemma_locate(vs, (line_number - 1) as nat);
                            lemma_child_count(vs, i as int);
                            assert(decreases_to!(self@ => self@->children));
                            assert(decreases_to!(vs => vs[i as int]));
                        }
                        let r = c.child[i].item_search(off);
                        r
                    },
                    None => None,
                }
            },
        }
    }

    /// The line of the category that directly owns the item at line
    /// `line_number`, with the item's index among its children.
    fn parent_search(&self, line_number: usize) -> (r: Option<(usize, usize)>)
        requires
            self@.line_count() <= usize::MAX,
        ensures
            match self@.parent_at(line_number as nat) {
                Some((p, j)) => r matches Some((q, k)) && q == p && k == j,
                None => r is None,
            },
        decreases self@,
    {
        if line_number == 0 {
            return None;
        }
        match self {
            TaskItem::Task(t) => {
                assert(self@ == Node::Task { name: t.name@, done: t.done });
                None
            },
            TaskItem::TaskCategory(c) => {
                let ghost vs = view_items(c.child@);
                proof {
                    lemma_view_items(c.child@);
                    assert(self@ == Node::Category { name: c.name@, children: vs });
                }
                match locate_child(&c.child, line_number - 1) {
                    Some((i, off)) => {
                        proof {
                            lemma_locate(vs, (line_number - 1) as nat);
                            lemma_child_count(vs, i as int);
                            assert(decreases_to!(self@ => self@->children));
                            assert(decreases_to!(vs => vs[i as int]));
                        }
                        if off == 0 {
                            return Some((0, i));
                        }
                        match c.child[i].parent_search(off) {
                            Some((q, j)) => {
                                proof {
                                    lemma_parent_at(vs[i as int], off as nat);
                                }
                                Some((line_number - off + q, j))
                            },
                            None => None,
                        }
                    },
                    None => None,
                }
            },
        }
    }

    /// The category that directly owns the item at line `line_number`, with the
    /// item's index among its children; `None` for line 0 and for lines out of
    /// range. What is written through the category lands in this tree.
    pub fn parent_of_line_number(&mut self, line_number: usize) -> (r: Option<(&mut TaskItem, usize)>)
        requires
            old(self)@.line_count() <= usize::MAX,
        ensures
            match old(self)@.parent_at(line_number as nat) {
                Some((p, j)) => r matches Some((x, k)) && x@ == old(self)@.node_at(p) && k == j
                    && final(self)@ == old(self)@.replaced_at(p, final(x)@),
                None => r is None && final(self)@ == old(self)@,
            },
    {
        match self.parent_search(line_number) {
            Some((p, j)) => {
                proof {
                    lemma_parent_at(self@, line_number as nat);
                }
                match self.item_at_line_number(p) {
                    Some(x) => Some((x, j)),
                    None => None,
                }
            },
            None => None,
        }
    }

    /// Flips the done flag of a task; a category is left as it is.
    pub fn interact(&mut self)
        ensures
            final(self)@ == old(self)@.toggled(),
    {
        match self {
            TaskItem::TaskCategory(_) => {},
            TaskItem::Task(t) => t.done = !t.done,
        }
    }

    /// Toggles the item at line `line_number`; nothing happens on a category or
    /// on a line out of range.
    pub fn toggle_at(&mut self, line_number: usize)
        requires
            old(self)@.line_count() <= usize::MAX,
        ensures
            final(self)@ == old(self)@.toggled_at(line_number as nat),
    {
        proof {
            if line_number < self@.line_count() {
                lemma_toggled_at_replaced(self@, line_number as nat);
            }
        }
        if let Some(item) = self.item_at_line_number(line_number) {
            item.interact();
        }
    }

    /// Appends `item` to the children of the category at line `line_number`;
    /// nothing happens on a task or on a line out of range.
    pub fn push_child_at(&mut self, line_number: usize, item: TaskItem)
        requires
            old(self)@.line_count() <= usize::MAX,
        ensures
            final(self)@ == old(self)@.with_child_at(line_number as nat, item@),
    {
        proof {
            if line_number < self@.line_count() {
                lemma_with_child_at_replaced(self@, line_number as nat, item@);
                lemma_replaced_at_same(self@, line_number as nat);
            } else {
                lemma_with_child_at_out_of_range(self@, line_number as nat, item@);
            }
        }
        if let Some(target) = self.item_at_line_number(line_number) {
            match target {
                TaskItem::TaskCategory(c) => {
                    let ghost before = c.child@;
                    proof {
                        lemma_view_items(before);
                    }
                    c.child.push(item);
                    proof {
                        lemma_view_items(before);
                        lemma_view_items(c.child@);
                        assert(view_items(c.child@) =~= view_items(before).push(item@));
                    }
                },
                TaskItem::Task(k) => {
                    assert(target@ == Node::Task { name: k.name@, done: k.done });
                },
            }
        }
    }

    /// Takes the item at line `line_number` out of its parent's children; nothing
    /// happens for line 0 and for lines out of range.
    pub fn remove_at(&mut self, line_number: usize)
        requires
            old(self)@.line_count() <= usize::MAX,
        ensures
            final(self)@ == old(self)@.removed_at(line_number as nat),
    {
        proof {
            if self@.parent_at(line_number as nat) is Some {
                lemma_parent_at(self@, line_number as nat);
                lemma_removed_at_replaced(self@, line_number as nat);
            } else {
                lemma_removed_at_unparented(self@, line_number as nat);
            }
        }
        if let Some((parent, index)) = self.parent_of_line_number(line_number) {
            match parent {
                TaskItem::TaskCategory(c) => {
                    let ghost before = c.child@;
                    proof {
                        lemma_view_items(before);
                    }
                    c.child.remove(index);
                    proof {
                        lemma_view_items(before);
                        lemma_view_items(c.child@);
                        assert(view_items(c.child@) =~= view_items(before).remove(index as int));
                    }
                },
                TaskItem::Task(_) => {},
            }
        }
    }
}

} // verus!
