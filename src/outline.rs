use vstd::prelude::*;

verus! {

broadcast use vstd::seq::group_seq_axioms;

/// The mathematical model of a `TaskItem`.
pub enum Node {
    Task { name: Seq<char>, done: bool },
    Category { name: Seq<char>, children: Seq<Node> },
}

/// Number of lines taken by a sequence of subtrees.
pub open spec fn forest_count(s: Seq<Node>) -> nat
    decreases s,
{
    if s.len() == 0 {
        0
    } else {
        forest_count(s.drop_last()) + s.last().line_count()
    }
}

/// The display lines of a sequence of subtrees, each at the given indentation.
pub open spec fn forest_lines(s: Seq<Node>, indent: nat) -> Seq<Seq<char>>
    decreases s,
{
    if s.len() == 0 {
        Seq::empty()
    } else {
        forest_lines(s.drop_last(), indent) + s.last().lines(indent)
    }
}

/// The child of `s` that holds local line `k` (counted from the first child's own
/// line), with the line's position inside that child.
pub open spec fn locate(s: Seq<Node>, k: nat) -> (int, nat)
    decreases s.len(),
{
    if s.len() == 0 {
        (0, 0)
    } else if k < forest_count(s.drop_last()) {
        locate(s.drop_last(), k)
    } else {
        (s.len() - 1, (k - forest_count(s.drop_last())) as nat)
    }
}

/// Four spaces per level of depth.
pub open spec fn indent_text(indent: nat) -> Seq<char>
    decreases indent,
{
    if indent == 0 {
        Seq::empty()
    } else {
        indent_text((indent - 1) as nat) + seq![' ', ' ', ' ', ' ']
    }
}

impl Node {
    pub open spec fn is_category(self) -> bool {
        self is Category
    }

    /// Lines in the outline: one for the node, then those of its descendants.
    pub open spec fn line_count(self) -> nat
        decreases self,
    {
        match self {
            Node::Task { .. } => 1,
            Node::Category { children, .. } => 1 + forest_count(children),
        }
    }

    /// The node's own line: indentation, name, and for a task a done marker.
    pub open spec fn line_text(self, indent: nat) -> Seq<char> {
        match self {
            Node::Task { name, done } => indent_text(indent) + name + seq![
                ' ',
                if done {
                    '\u{2611}'
                } else {
                    '\u{2610}'
                },
            ],
            Node::Category { name, .. } => indent_text(indent) + name,
        }
    }

    /// The outline of the subtree in pre-order.
    pub open spec fn lines(self, indent: nat) -> Seq<Seq<char>>
        decreases self,
    {
        match self {
            Node::Task { .. } => seq![self.line_text(indent)],
            Node::Category { children, .. } => seq![self.line_text(indent)] + forest_lines(
                children,
                indent + 1,
            ),
        }
    }

    /// The node at line `n` of this subtree's outline.
    pub open spec fn node_at(self, n: nat) -> Node
        decreases self,
    {
        if n == 0 {
            self
        } else {
            match self {
                Node::Task { .. } => self,
                Node::Category { children, .. } => {
                    let (i, off) = locate(children, (n - 1) as nat);
                    if 0 <= i < children.len() {
                        children[i].node_at(off)
                    } else {
                        self
                    }
                },
            }
        }
    }

    /// How deep below this node the node at line `n` lies.
    pub open spec fn depth_at(self, n: nat) -> nat
        decreases self,
    {
        if n == 0 {
            0
        } else {
            match self {
                Node::Task { .. } => 0,
                Node::Category { children, .. } => {
                    let (i, off) = locate(children, (n - 1) as nat);
                    if 0 <= i < children.len() {
                        1 + children[i].depth_at(off)
                    } else {
                        0
                    }
                },
            }
        }
    }

    /// The line of the category that directly owns the node at line `n`, and the
    /// node's index among its children; `None` for the root's own line and
    /// for lines out of range.
    pub open spec fn parent_at(self, n: nat) -> Option<(nat, nat)>
        decreases self,
    {
        if n == 0 {
            None
        } else {
            match self {
                Node::Task { .. } => None,
                Node::Category { children, .. } => {
                    let (i, off) = locate(children, (n - 1) as nat);
                    if !(0 <= i < children.len()) || n - 1 >= forest_count(children) {
                        None
                    } else if off == 0 {
                        Some((0, i as nat))
                    } else {
                        match children[i].parent_at(off) {
                            Some((p, j)) => Some(((p + n - off) as nat, j)),
                            None => None,
                        }
                    }
                },
            }
        }
    }

    /// The subtree with the node at line `n` replaced by `new`; unchanged where
    /// `n` is out of range.
    pub open spec fn replaced_at(self, n: nat, new: Node) -> Node
        decreases self,
    {
        if n == 0 {
            new
        } else {
            match self {
                Node::Task { .. } => self,
                Node::Category { name, children } => {
                    let (i, off) = locate(children, (n - 1) as nat);
                    if 0 <= i < children.len() && n - 1 < forest_count(children) {
                        Node::Category {
                            name,
                            children: children.update(i, children[i].replaced_at(off, new)),
                        }
                    } else {
                        self
                    }
                },
            }
        }
    }

    /// A task with its done flag flipped; a category as it is.
    pub open spec fn toggled(self) -> Node {
        match self {
            Node::Task { name, done } => Node::Task { name, done: !done },
            Node::Category { .. } => self,
        }
    }

    /// The subtree with the node at line `n` toggled.
    pub open spec fn toggled_at(self, n: nat) -> Node
        decreases self,
    {
        if n == 0 {
            self.toggled()
        } else {
            match self {
                Node::Task { .. } => self,
                Node::Category { name, children } => {
                    let (i, off) = locate(children, (n - 1) as nat);
                    if 0 <= i < children.len() && n - 1 < forest_count(children) {
                        Node::Category { name, children: children.update(i, children[i].toggled_at(off)) }
                    } else {
                        self
                    }
                },
            }
        }
    }

    /// The subtree with `item` appended to the children of the category at line
    /// `n`; unchanged where that line holds a task or is out of range.
    pub open spec fn with_child_at(self, n: nat, item: Node) -> Node
        decreases self,
    {
        match self {
            Node::Task { .. } => self,
            Node::Category { name, children } => {
                if n == 0 {
                    Node::Category { name, children: children.push(item) }
                } else {
                    let (i, off) = locate(children, (n - 1) as nat);
                    if 0 <= i < children.len() && n - 1 < forest_count(children) {
                        Node::Category {
                            name,
                            children: children.update(i, children[i].with_child_at(off, item)),
                        }
                    } else {
                        self
                    }
                }
            },
        }
    }

    /// The subtree with the node at line `n` taken out of its parent's children;
    /// unchanged for line 0 and for lines out of range.
    pub open spec fn removed_at(self, n: nat) -> Node
        decreases self,
    {
        if n == 0 {
            self
        } else {
            match self {
                Node::Task { .. } => self,
                Node::Category { name, children } => {
                    let (i, off) = locate(children, (n - 1) as nat);
                    if !(0 <= i < children.len()) || n - 1 >= forest_count(children) {
                        self
                    } else if off == 0 {
                        Node::Category { name, children: children.remove(i) }
                    } else {
                        Node::Category {
                            name,
                            children: children.update(i, children[i].removed_at(off)),
                        }
                    }
                },
            }
        }
    }
}


/// Extending a prefix by one subtree adds that subtree's lines.
pub proof fn lemma_forest_count_take(s: Seq<Node>, i: int)
    requires
        0 <= i < s.len(),
    ensures
        forest_count(s.take(i + 1)) == forest_count(s.take(i)) + s[i].line_count(),
{
    assert(s.take(i + 1).drop_last() =~= s.take(i));
}

pub proof fn lemma_forest_count_prefix(s: Seq<Node>, i: int)
    requires
        0 <= i <= s.len(),
    ensures
        forest_count(s.take(i)) <= forest_count(s),
    decreases s.len() - i,
{
    if i == s.len() {
        assert(s.take(i) =~= s);
    } else {
        lemma_forest_count_take(s, i);
        lemma_forest_count_prefix(s, i + 1);
    }
}

/// `locate` finds a child that holds the line, and the offset inside it.
pub proof fn lemma_locate(s: Seq<Node>, k: nat)
    requires
        k < forest_count(s),
    ensures
        0 <= locate(s, k).0 < s.len(),
        locate(s, k).1 < s[locate(s, k).0].line_count(),
        k == forest_count(s.take(locate(s, k).0)) + locate(s, k).1,
    decreases s.len(),
{
    let d = s.drop_last();
    if k < forest_count(d) {
        lemma_locate(d, k);
        let i = locate(d, k).0;
        assert(d.take(i) =~= s.take(i));
    } else {
        assert(s.take(s.len() - 1) =~= d);
    }
}

/// A line given as a child's first line plus an offset inside that child is
/// located in that child.
pub proof fn lemma_locate_inv(s: Seq<Node>, i: int, off: nat)
    requires
        0 <= i < s.len(),
        off < s[i].line_count(),
    ensures
        locate(s, forest_count(s.take(i)) + off) == (i, off),
    decreases s.len(),
{
    let d = s.drop_last();
    if i == s.len() - 1 {
        assert(s.take(i) =~= d);
    } else {
        assert(d.take(i) =~= s.take(i));
        assert(d.take(i + 1) =~= s.take(i + 1));
        lemma_forest_count_take(d, i);
        lemma_forest_count_prefix(d, i + 1);
        lemma_locate_inv(d, i, off);
    }
}

pub proof fn lemma_forest_count_update(s: Seq<Node>, i: int, y: Node)
    requires
        0 <= i < s.len(),
    ensures
        forest_count(s.update(i, y)) == forest_count(s) - s[i].line_count() + y.line_count(),
    decreases s.len(),
{
    let d = s.drop_last();
    if i == s.len() - 1 {
        assert(s.update(i, y).drop_last() =~= d);
    } else {
        assert(s.update(i, y).drop_last() =~= d.update(i, y));
        lemma_forest_count_update(d, i, y);
    }
}

pub proof fn lemma_forest_count_remove(s: Seq<Node>, i: int)
    requires
        0 <= i < s.len(),
    ensures
        forest_count(s.remove(i)) == forest_count(s) - s[i].line_count(),
    decreases s.len(),
{
    let d = s.drop_last();
    if i == s.len() - 1 {
        assert(s.remove(i) =~= d);
    } else {
        assert(s.remove(i).drop_last() =~= d.remove(i));
        lemma_forest_count_remove(d, i);
    }
}

pub proof fn lemma_forest_count_push(s: Seq<Node>, y: Node)
    ensures
        forest_count(s.push(y)) == forest_count(s) + y.line_count(),
{
    assert(s.push(y).drop_last() =~= s);
}

/// Replacing a child by one with as many lines leaves every line where it was.
pub proof fn lemma_locate_update(s: Seq<Node>, i: int, y: Node, k: nat)
    requires
        0 <= i < s.len(),
        y.line_count() == s[i].line_count(),
    ensures
        locate(s.update(i, y), k) == locate(s, k),
        forest_count(s.update(i, y)) == forest_count(s),
    decreases s.len(),
{
    let d = s.drop_last();
    lemma_forest_count_update(s, i, y);
    if i == s.len() - 1 {
        assert(s.update(i, y).drop_last() =~= d);
    } else {
        assert(s.update(i, y).drop_last() =~= d.update(i, y));
        lemma_forest_count_update(d, i, y);
        lemma_locate_update(d, i, y, k);
    }
}


/// A child takes no more lines than all the children together.
pub proof fn lemma_child_count(s: Seq<Node>, i: int)
    requires
        0 <= i < s.len(),
    ensures
        s[i].line_count() <= forest_count(s),
{
    lemma_forest_count_take(s, i);
    lemma_forest_count_prefix(s, i + 1);
}

/// Line `off` of child `i` is line `1 + (lines before child i) + off` of its parent.
pub proof fn lemma_node_at_child(t: Node, i: int, off: nat)
    requires
        t is Category,
        0 <= i < t->children.len(),
        off < t->children[i].line_count(),
    ensures
        t.node_at(1 + forest_count(t->children.take(i)) + off) == t->children[i].node_at(off),
        t.depth_at(1 + forest_count(t->children.take(i)) + off) == 1 + t->children[i].depth_at(off),
        1 + forest_count(t->children.take(i)) + off < t.line_count(),
{
    lemma_locate_inv(t->children, i, off);
    lemma_forest_count_take(t->children, i);
    lemma_forest_count_prefix(t->children, i + 1);
}

/// The outline of a sequence of subtrees has one line per line they count.
pub proof fn lemma_forest_lines_len(s: Seq<Node>, indent: nat)
    ensures
        forest_lines(s, indent).len() == forest_count(s),
    decreases s,
{
    if s.len() > 0 {
        lemma_forest_lines_len(s.drop_last(), indent);
        lemma_lines_len(s.last(), indent);
    }
}

/// The outline of a tree has exactly `line_count` lines.
pub proof fn lemma_lines_len(t: Node, indent: nat)
    ensures
        t.lines(indent).len() == t.line_count(),
    decreases t,
{
    if let Node::Category { children, .. } = t {
        lemma_forest_lines_len(children, indent + 1);
    }
}

/// Line `k` of a sequence of subtrees is a line of the child that `locate` names.
pub proof fn lemma_forest_lines_at(s: Seq<Node>, indent: nat, k: nat)
    requires
        k < forest_count(s),
    ensures
        forest_lines(s, indent)[k as int] == s[locate(s, k).0].lines(indent)[locate(s, k).1 as int],
    decreases s.len(),
{
    let d = s.drop_last();
    lemma_forest_lines_len(d, indent);
    lemma_lines_len(s.last(), indent);
    if k < forest_count(d) {
        lemma_forest_lines_at(d, indent, k);
        lemma_locate(d, k);
    }
}

/// Line `n` of the outline is the own line of the node at line `n`, indented by
/// its depth.
pub proof fn lemma_lines_at(t: Node, indent: nat, n: nat)
    requires
        n < t.line_count(),
    ensures
        t.lines(indent)[n as int] == t.node_at(n).line_text(indent + t.depth_at(n)),
    decreases t,
{
    if n > 0 {
        if let Node::Category { children, .. } = t {
            let k = (n - 1) as nat;
            lemma_locate(children, k);
            lemma_forest_lines_at(children, indent + 1, k);
            lemma_forest_lines_len(children, indent + 1);
            let (i, off) = locate(children, k);
            lemma_lines_at(children[i], indent + 1, off);
        }
    }
}

/// The parent found for line `n` owns, at the index found, the node at line `n`.
pub proof fn lemma_parent_at(t: Node, n: nat)
    requires
        t.parent_at(n) is Some,
    ensures
        ({
            let (p, j) = t.parent_at(n)->0;
            &&& p < n < t.line_count()
            &&& t.node_at(p) is Category
            &&& j < t.node_at(p)->children.len()
            &&& t.node_at(p)->children[j as int] == t.node_at(n)
        }),
    decreases t,
{
    if let Node::Category { children, .. } = t {
        let k = (n - 1) as nat;
        lemma_locate(children, k);
        let (i, off) = locate(children, k);
        lemma_node_at_child(t, i, off);
        if off > 0 {
            lemma_parent_at(children[i], off);
            let (q, j) = children[i].parent_at(off)->0;
            lemma_node_at_child(t, i, q);
        }
    }
}


/// Removing the node at a line other than the root's takes away exactly the
/// lines of that node's subtree.
pub proof fn lemma_removed_at_count(t: Node, n: nat)
    requires
        0 < n < t.line_count(),
    ensures
        t.removed_at(n).line_count() == t.line_count() - t.node_at(n).line_count(),
    decreases t,
{
    if let Node::Category { children, .. } = t {
        let k = (n - 1) as nat;
        lemma_locate(children, k);
        let (i, off) = locate(children, k);
        assert(t.node_at(n) == children[i].node_at(off));
        if off == 0 {
            lemma_forest_count_remove(children, i);
            assert(t.removed_at(n) == Node::Category { name: t->Category_name, children: children.remove(i) });
        } else {
            lemma_removed_at_count(children[i], off);
            lemma_forest_count_update(children, i, children[i].removed_at(off));
        }
    }
}

/// Adding an item under the category at line `n` adds the item's lines, and the
/// item comes last among that category's children.
pub proof fn lemma_with_child_at(t: Node, n: nat, item: Node)
    requires
        n < t.line_count(),
        t.node_at(n) is Category,
    ensures
        t.with_child_at(n, item).line_count() == t.line_count() + item.line_count(),
        t.with_child_at(n, item).node_at(n) == (Node::Category {
            name: t.node_at(n)->Category_name,
            children: t.node_at(n)->children.push(item),
        }),
        (item is Task || item == Node::Category { name: item->Category_name, children: Seq::empty() })
            ==> t.with_child_at(n, item).line_count() == t.line_count() + 1,
    decreases t,
{
    if let Node::Category { children, .. } = t {
        if n == 0 {
            lemma_forest_count_push(children, item);
        } else {
            let k = (n - 1) as nat;
            lemma_locate(children, k);
            let (i, off) = locate(children, k);
            let y = children[i].with_child_at(off, item);
            lemma_with_child_at(children[i], off, item);
            lemma_forest_count_update(children, i, y);
            let c2 = children.update(i, y);
            assert(c2.take(i) =~= children.take(i));
            lemma_locate_inv(c2, i, off);
        }
    }
}

/// Toggling a line twice gives the tree back; toggling keeps every line count,
/// changes only the toggled node, and leaves a category alone.
pub proof fn lemma_toggled_at(t: Node, n: nat)
    ensures
        t.toggled_at(n).toggled_at(n) == t,
        t.toggled_at(n).line_count() == t.line_count(),
        n < t.line_count() ==> t.toggled_at(n).node_at(n) == t.node_at(n).toggled(),
        n < t.line_count() && t.node_at(n) is Category ==> t.toggled_at(n) == t,
    decreases t,
{
    if n > 0 {
        if let Node::Category { children, .. } = t {
            let k = (n - 1) as nat;
            let (i, off) = locate(children, k);
            if 0 <= i < children.len() && k < forest_count(children) {
                lemma_locate(children, k);
                let y = children[i].toggled_at(off);
                lemma_toggled_at(children[i], off);
                lemma_locate_update(children, i, y, k);
                assert(children.update(i, y).update(i, y.toggled_at(off)) =~= children);
                if children[i].node_at(off) is Category {
                    assert(children.update(i, y) =~= children);
                }
            }
        }
    }
}


/// Adding an item never adds more lines than the item has.
pub proof fn lemma_with_child_at_bound(t: Node, n: nat, item: Node)
    ensures
        t.with_child_at(n, item).line_count() <= t.line_count() + item.line_count(),
    decreases t,
{
    if let Node::Category { children, .. } = t {
        if n == 0 {
            lemma_forest_count_push(children, item);
        } else {
            let k = (n - 1) as nat;
            let (i, off) = locate(children, k);
            if 0 <= i < children.len() && k < forest_count(children) {
                lemma_with_child_at_bound(children[i], off, item);
                lemma_forest_count_update(children, i, children[i].with_child_at(off, item));
            }
        }
    }
}

/// Removing never adds lines.
pub proof fn lemma_removed_at_bound(t: Node, n: nat)
    ensures
        t.removed_at(n).line_count() <= t.line_count(),
    decreases t,
{
    if n > 0 {
        if let Node::Category { children, .. } = t {
            let k = (n - 1) as nat;
            let (i, off) = locate(children, k);
            if 0 <= i < children.len() && k < forest_count(children) {
                if off == 0 {
                    lemma_forest_count_remove(children, i);
                } else {
                    lemma_removed_at_bound(children[i], off);
                    lemma_forest_count_update(children, i, children[i].removed_at(off));
                }
            }
        }
    }
}


pub proof fn lemma_forest_lines_concat(a: Seq<Node>, b: Seq<Node>, indent: nat)
    ensures
        forest_lines(a + b, indent) == forest_lines(a, indent) + forest_lines(b, indent),
    decreases b.len(),
{
    if b.len() == 0 {
        assert(a + b =~= a);
        assert(forest_lines(a, indent) + forest_lines(b, indent) =~= forest_lines(a, indent));
    } else {
        assert((a + b).drop_last() =~= a + b.drop_last());
        lemma_forest_lines_concat(a, b.drop_last(), indent);
        assert(forest_lines(a + b, indent) =~= forest_lines(a, indent) + forest_lines(b, indent));
    }
}

/// The outline of a sequence of subtrees, split around child `i`.
pub proof fn lemma_forest_lines_split(s: Seq<Node>, i: int, indent: nat)
    requires
        0 <= i < s.len(),
    ensures
        forest_lines(s, indent) == forest_lines(s.take(i), indent) + s[i].lines(indent)
            + forest_lines(s.skip(i + 1), indent),
{
    assert(s =~= s.take(i) + (seq![s[i]] + s.skip(i + 1)));
    lemma_forest_lines_concat(s.take(i), seq![s[i]] + s.skip(i + 1), indent);
    lemma_forest_lines_concat(seq![s[i]], s.skip(i + 1), indent);
    let one = seq![s[i]];
    assert(one.drop_last() =~= Seq::<Node>::empty());
    assert(one.last() == s[i]);
    assert(forest_lines(one.drop_last(), indent) =~= Seq::<Seq<char>>::empty());
    assert(forest_lines(one, indent) =~= s[i].lines(indent));
}

/// Removing the node at line `n` cuts exactly its subtree's lines out of the
/// outline: every other line stays, in the same order and with the same text.
pub proof fn lemma_removed_at_lines(t: Node, n: nat, indent: nat)
    requires
        0 < n < t.line_count(),
    ensures
        t.removed_at(n).lines(indent) == t.lines(indent).take(n as int) + t.lines(indent).skip(
            (n + t.node_at(n).line_count()) as int,
        ),
    decreases t,
{
    if let Node::Category { name, children } = t {
        let d = indent + 1;
        let k = (n - 1) as nat;
        lemma_locate(children, k);
        let (i, off) = locate(children, k);
        let c = children[i];
        lemma_forest_lines_split(children, i, d);
        lemma_forest_lines_len(children.take(i), d);
        lemma_lines_len(c, d);
        lemma_lines_len(t, indent);
        assert(t.node_at(n) == c.node_at(off));
        if off == 0 {
            let r = children.remove(i);
            assert(r =~= children.take(i) + children.skip(i + 1));
            lemma_forest_lines_concat(children.take(i), children.skip(i + 1), d);
            assert(t.removed_at(n).lines(indent) =~= t.lines(indent).take(n as int) + t.lines(
                indent,
            ).skip((n + t.node_at(n).line_count()) as int));
        } else {
            let y = c.removed_at(off);
            let r = children.update(i, y);
            lemma_removed_at_lines(c, off, d);
            lemma_forest_lines_split(r, i, d);
            assert(r.take(i) =~= children.take(i));
            assert(r.skip(i + 1) =~= children.skip(i + 1));
            lemma_node_at_bound(c, off);
            assert(t.removed_at(n).lines(indent) =~= t.lines(indent).take(n as int) + t.lines(
                indent,
            ).skip((n + t.node_at(n).line_count()) as int));
        }
    }
}

/// The subtree at line `n` ends within the outline.
pub proof fn lemma_node_at_bound(t: Node, n: nat)
    requires
        n < t.line_count(),
    ensures
        n + t.node_at(n).line_count() <= t.line_count(),
    decreases t,
{
    if n > 0 {
        if let Node::Category { children, .. } = t {
            let k = (n - 1) as nat;
            lemma_locate(children, k);
            let (i, off) = locate(children, k);
            lemma_node_at_bound(children[i], off);
            lemma_forest_count_take(children, i);
            lemma_forest_count_prefix(children, i + 1);
        }
    }
}


/// Toggling line `n` is replacing the node there by its toggled self.
pub proof fn lemma_toggled_at_replaced(t: Node, n: nat)
    requires
        n < t.line_count(),
    ensures
        t.toggled_at(n) == t.replaced_at(n, t.node_at(n).toggled()),
    decreases t,
{
    if n > 0 {
        if let Node::Category { children, .. } = t {
            let k = (n - 1) as nat;
            lemma_locate(children, k);
            let (i, off) = locate(children, k);
            lemma_toggled_at_replaced(children[i], off);
        }
    }
}

/// Adding under line `n` is replacing the category there by one with the item
/// appended; on a task line nothing changes.
pub proof fn lemma_with_child_at_replaced(t: Node, n: nat, item: Node)
    requires
        n < t.line_count(),
    ensures
        t.node_at(n) is Category ==> t.with_child_at(n, item) == t.replaced_at(
            n,
            Node::Category {
                name: t.node_at(n)->Category_name,
                children: t.node_at(n)->children.push(item),
            },
        ),
        t.node_at(n) is Task ==> t.with_child_at(n, item) == t,
    decreases t,
{
    if n > 0 {
        if let Node::Category { children, .. } = t {
            let k = (n - 1) as nat;
            lemma_locate(children, k);
            let (i, off) = locate(children, k);
            lemma_with_child_at_replaced(children[i], off, item);
            assert(children.update(i, children[i]) =~= children);
        }
    }
}

/// Removing line `n` is replacing its parent by the parent without that child.
pub proof fn lemma_removed_at_replaced(t: Node, n: nat)
    requires
        t.parent_at(n) is Some,
    ensures
        ({
            let (p, j) = t.parent_at(n)->0;
            t.removed_at(n) == t.replaced_at(
                p,
                Node::Category {
                    name: t.node_at(p)->Category_name,
                    children: t.node_at(p)->children.remove(j as int),
                },
            )
        }),
    decreases t,
{
    if let Node::Category { children, .. } = t {
        let k = (n - 1) as nat;
        lemma_locate(children, k);
        let (i, off) = locate(children, k);
        if off > 0 {
            lemma_parent_at(children[i], off);
            lemma_removed_at_replaced(children[i], off);
            let (q, j) = children[i].parent_at(off)->0;
            lemma_node_at_child(t, i, q);
            lemma_locate_inv(children, i, q);
        }
    }
}


/// A line with no parent (the root's, or one out of range) removes nothing.
pub proof fn lemma_removed_at_unparented(t: Node, n: nat)
    requires
        t.parent_at(n) is None,
    ensures
        t.removed_at(n) == t,
    decreases t,
{
    if n > 0 {
        if let Node::Category { children, .. } = t {
            let k = (n - 1) as nat;
            let (i, off) = locate(children, k);
            if 0 <= i < children.len() && k < forest_count(children) && off > 0 {
                lemma_locate(children, k);
                lemma_removed_at_unparented(children[i], off);
                assert(children.update(i, children[i]) =~= children);
            }
        }
    }
}


/// Adding under a line out of range changes nothing.
pub proof fn lemma_with_child_at_out_of_range(t: Node, n: nat, item: Node)
    requires
        n >= t.line_count(),
    ensures
        t.with_child_at(n, item) == t,
{
}


/// Putting back the node that is already at line `n` changes nothing.
pub proof fn lemma_replaced_at_same(t: Node, n: nat)
    requires
        n < t.line_count(),
    ensures
        t.replaced_at(n, t.node_at(n)) == t,
    decreases t,
{
    if n > 0 {
        if let Node::Category { children, .. } = t {
            let k = (n - 1) as nat;
            lemma_locate(children, k);
            let (i, off) = locate(children, k);
            lemma_replaced_at_same(children[i], off);
            assert(children.update(i, children[i]) =~= children);
        }
    }
}

} // verus!
