//! The expression graph: a syntax tree with every repeated subtree stored
//! once.
//!
//! Nodes live in an arena and refer to their operands by index.  A node is
//! only ever appended, and only if no node of the same structure (the same
//! label and the same operands) is there already, so the arena doubles as
//! the table in which structures are looked up.

use crate::parser::{AstNode, AstView};
use std::collections::HashSet;
use vstd::prelude::*;
use vstd::string::StringExecFns;

verus! {

broadcast use vstd::std_specs::hash::group_hash_axioms;

/// A node of the graph.  Leaves have no operands, inner nodes have two.
#[derive(Debug)]
pub struct DagNode {
    pub id: usize,
    pub label: String,
    pub left: Option<usize>,
    pub right: Option<usize>,
}

/// The structure of a node: its label and the positions of its operands.
/// The node's own position is not part of it.
pub struct NodeView {
    pub label: Seq<char>,
    pub left: Option<int>,
    pub right: Option<int>,
}

/// An optional index as an optional mathematical integer.
pub open spec fn as_int(index: Option<usize>) -> Option<int> {
    match index {
        Some(i) => Some(i as int),
        None => None,
    }
}

impl View for DagNode {
    type V = NodeView;

    open spec fn view(&self) -> NodeView {
        NodeView { label: self.label@, left: as_int(self.left), right: as_int(self.right) }
    }
}

impl Clone for DagNode {
    fn clone(&self) -> (copy: DagNode)
        ensures
            copy == *self,
    {
        DagNode { id: self.id, label: self.label.clone(), left: self.left, right: self.right }
    }
}

/// The structures of a sequence of nodes, element by element.
pub open spec fn node_views(nodes: Seq<DagNode>) -> Seq<NodeView> {
    Seq::new(nodes.len(), |i: int| nodes[i]@)
}

/// The structure of a leaf.
pub open spec fn leaf_key(label: Seq<char>) -> NodeView {
    NodeView { label, left: None, right: None }
}

/// The structure of an inner node.
pub open spec fn inner_key(op: Seq<char>, left: int, right: int) -> NodeView {
    NodeView { label: op, left: Some(left), right: Some(right) }
}

/// The invariant of an arena: every node has both operands or none, operands
/// come before the node that uses them, and no structure occurs twice.
pub open spec fn well_formed(arena: Seq<NodeView>) -> bool {
    &&& forall|i: int|
        0 <= i < arena.len() ==> ((#[trigger] arena[i]).left is None <==> arena[i].right is None)
    &&& forall|i: int|
        0 <= i < arena.len() && (#[trigger] arena[i]).left is Some ==> 0 <= arena[i].left->0 < i
    &&& forall|i: int|
        0 <= i < arena.len() && (#[trigger] arena[i]).right is Some ==> 0 <= arena[i].right->0
            < i
    &&& forall|i: int, j: int|
        0 <= i < arena.len() && 0 <= j < arena.len() && #[trigger] arena[i] == #[trigger] arena[j]
            ==> i == j
}

/// `before` is an initial part of `after`.
pub open spec fn extends(after: Seq<NodeView>, before: Seq<NodeView>) -> bool {
    &&& before.len() <= after.len()
    &&& forall|i: int| 0 <= i < before.len() ==> after[i] == before[i]
}

/// The position of the node with structure `key`, if the arena has one.
pub open spec fn lookup(arena: Seq<NodeView>, key: NodeView) -> Option<int> {
    if exists|i: int| 0 <= i < arena.len() && arena[i] == key {
        Some(choose|i: int| 0 <= i < arena.len() && arena[i] == key)
    } else {
        None
    }
}

/// The arena after `key` has been looked up and, if absent, appended,
/// together with the position at which `key` then stands.
pub open spec fn interned(arena: Seq<NodeView>, key: NodeView) -> (Seq<NodeView>, int) {
    match lookup(arena, key) {
        Some(i) => (arena, i),
        None => (arena.push(key), arena.len() as int),
    }
}

/// The label under which a leaf of the syntax tree is stored.
pub open spec fn leaf_label(ast: AstView) -> Seq<char> {
    match ast {
        AstView::Number(digits) => digits,
        AstView::Identifier(name) => name,
        AstView::Empty => "ε"@,
        AstView::Error => "ERR"@,
        AstView::BinaryOp { op, .. } => op,
    }
}

/// The arena after `ast` has been added to it, operands before operators
/// and left before right, together with the position of the node that
/// stands for `ast`.
pub open spec fn built(arena: Seq<NodeView>, ast: AstView) -> (Seq<NodeView>, int)
    decreases ast,
{
    match ast {
        AstView::BinaryOp { op, left, right } => {
            let (with_left, l) = built(arena, *left);
            let (with_right, r) = built(with_left, *right);
            interned(with_right, inner_key(op, l, r))
        },
        _ => interned(arena, leaf_key(leaf_label(ast))),
    }
}

/// A tree of labels: what a node of the graph unfolds to, and what a syntax
/// tree looks like once only its labels are kept.
pub enum Shape {
    Leaf(Seq<char>),
    Inner(Seq<char>, Box<Shape>, Box<Shape>),
}

/// The labels of a syntax tree.
pub open spec fn shape_of(ast: AstView) -> Shape
    decreases ast,
{
    match ast {
        AstView::BinaryOp { op, left, right } => Shape::Inner(
            op,
            Box::new(shape_of(*left)),
            Box::new(shape_of(*right)),
        ),
        _ => Shape::Leaf(leaf_label(ast)),
    }
}

/// The tree that the node at `id` stands for, sharing undone.
pub open spec fn unfolded(arena: Seq<NodeView>, id: int) -> Shape
    decreases id,
{
    if 0 <= id < arena.len() {
        let node = arena[id];
        if node.left is Some && node.right is Some && 0 <= node.left->0 < id && 0
            <= node.right->0 < id {
            Shape::Inner(
                node.label,
                Box::new(unfolded(arena, node.left->0)),
                Box::new(unfolded(arena, node.right->0)),
            )
        } else {
            Shape::Leaf(node.label)
        }
    } else {
        Shape::Leaf(Seq::empty())
    }
}

/// Looking up a structure that stands at `i` in a well-formed arena finds
/// `i`.
pub proof fn lemma_lookup_finds(arena: Seq<NodeView>, key: NodeView, i: int)
    requires
        well_formed(arena),
        0 <= i < arena.len(),
        arena[i] == key,
    ensures
        lookup(arena, key) == Some(i),
{
}

/// Interning keeps an arena well formed, only ever appends to it, and
/// returns the position of the structure asked for.
pub proof fn lemma_interned(arena: Seq<NodeView>, key: NodeView)
    requires
        well_formed(arena),
        key.left is None <==> key.right is None,
        key.left is Some ==> 0 <= key.left->0 < arena.len(),
        key.right is Some ==> 0 <= key.right->0 < arena.len(),
    ensures
        well_formed(interned(arena, key).0),
        extends(interned(arena, key).0, arena),
        0 <= interned(arena, key).1 < interned(arena, key).0.len(),
        interned(arena, key).0[interned(arena, key).1] == key,
        interned(arena, key).0.len() <= arena.len() + 1,
{
}

/// Unfolding a node does not depend on what was appended after it.
pub proof fn lemma_unfolded_stable(before: Seq<NodeView>, after: Seq<NodeView>, id: int)
    requires
        extends(after, before),
        0 <= id < before.len(),
    ensures
        unfolded(after, id) == unfolded(before, id),
    decreases id,
{
    let node = before[id];
    if node.left is Some && node.right is Some && 0 <= node.left->0 < id && 0 <= node.right->0
        < id {
        lemma_unfolded_stable(before, after, node.left->0);
        lemma_unfolded_stable(before, after, node.right->0);
    }
}

/// Adding a syntax tree keeps the arena well formed and only appends to
/// it, and the node returned unfolds to exactly the tree that was added.
pub proof fn lemma_built(arena: Seq<NodeView>, ast: AstView)
    requires
        well_formed(arena),
    ensures
        well_formed(built(arena, ast).0),
        extends(built(arena, ast).0, arena),
        0 <= built(arena, ast).1 < built(arena, ast).0.len(),
        unfolded(built(arena, ast).0, built(arena, ast).1) == shape_of(ast),
    decreases ast,
{
    match ast {
        AstView::BinaryOp { op, left, right } => {
            lemma_built(arena, *left);
            let (with_left, l) = built(arena, *left);
            lemma_built(with_left, *right);
            let (with_right, r) = built(with_left, *right);
            let key = inner_key(op, l, r);
            lemma_interned(with_right, key);
            let (last, id) = interned(with_right, key);
            lemma_unfolded_stable(with_left, with_right, l);
            lemma_unfolded_stable(with_right, last, l);
            lemma_unfolded_stable(with_right, last, r);
            assert(0 <= l < id && 0 <= r < id) by {
                if lookup(with_right, key) is Some {
                    assert(with_right[id] == key);
                }
            }
        },
        _ => {
            lemma_interned(arena, leaf_key(leaf_label(ast)));
        },
    }
}

/// In a well-formed arena no two nodes unfold to the same tree: equal
/// subexpressions are always one node.
pub proof fn lemma_shared(arena: Seq<NodeView>, i: int, j: int)
    requires
        well_formed(arena),
        0 <= i < arena.len(),
        0 <= j < arena.len(),
        unfolded(arena, i) == unfolded(arena, j),
    ensures
        i == j,
    decreases i,
{
    let a = arena[i];
    let b = arena[j];
    if a.left is Some {
        assert(b.left is Some && b.right is Some);
        lemma_shared(arena, a.left->0, b.left->0);
        lemma_shared(arena, a.right->0, b.right->0);
        assert(a.left == b.left && a.right == b.right);
    }
    assert(a == b);
}

/// Once a syntax tree has been added, adding it again, at any later time,
/// changes nothing and returns the same node.  In particular a name or a
/// number always resolves to the node it was first given.
pub proof fn lemma_added_once(start: Seq<NodeView>, later: Seq<NodeView>, ast: AstView)
    requires
        well_formed(start),
        well_formed(later),
        extends(later, built(start, ast).0),
    ensures
        built(later, ast) == (later, built(start, ast).1),
    decreases ast,
{
    match ast {
        AstView::BinaryOp { op, left, right } => {
            lemma_built(start, *left);
            let (with_left, l) = built(start, *left);
            lemma_built(with_left, *right);
            let (with_right, r) = built(with_left, *right);
            let key = inner_key(op, l, r);
            lemma_interned(with_right, key);
            let (last, id) = interned(with_right, key);
            lemma_added_once(start, later, *left);
            lemma_added_once(with_left, later, *right);
            assert(later[id] == key);
            lemma_lookup_finds(later, key, id);
        },
        _ => {
            let key = leaf_key(leaf_label(ast));
            lemma_interned(start, key);
            let (last, id) = interned(start, key);
            assert(later[id] == key);
            lemma_lookup_finds(later, key, id);
        },
    }
}

/// Builds the graph of one or more syntax trees.
pub struct DagBuilder {
    pub nodes: Vec<DagNode>,
}

impl View for DagBuilder {
    type V = Seq<NodeView>;

    open spec fn view(&self) -> Seq<NodeView> {
        node_views(self.nodes@)
    }
}

impl Default for DagBuilder {
    fn default() -> (builder: DagBuilder)
        ensures
            builder.wf(),
            builder@ == Seq::<NodeView>::empty(),
    {
        let builder = DagBuilder { nodes: Vec::new() };
        assert(builder@ =~= Seq::<NodeView>::empty());
        builder
    }
}

impl DagBuilder {
    /// Every node is stored at the position that its `id` names, and the
    /// arena is well formed.
    pub open spec fn wf(&self) -> bool {
        &&& forall|i: int| 0 <= i < self.nodes.len() ==> (#[trigger] self.nodes[i]).id == i
        &&& well_formed(self@)
    }

    /// An empty graph.
    pub fn new() -> (builder: DagBuilder)
        ensures
            builder.wf(),
            builder@ == Seq::<NodeView>::empty(),
    {
        let builder = DagBuilder { nodes: Vec::new() };
        assert(builder@ =~= Seq::<NodeView>::empty());
        builder
    }

    /// The position of the node with the given structure, if there is one.
    fn find(&self, label: &String, left: Option<usize>, right: Option<usize>) -> (found: Option<
        usize,
    >)
        requires
            self.wf(),
        ensures
            as_int(found) == lookup(
                self@,
                (NodeView { label: label@, left: as_int(left), right: as_int(right) }),
            ),
    {
        let ghost key = NodeView { label: label@, left: as_int(left), right: as_int(right) };
        let mut i: usize = 0;
        while i < self.nodes.len()
            invariant
                self.wf(),
                i <= self.nodes.len(),
                key == (NodeView { label: label@, left: as_int(left), right: as_int(right) }),
                forall|j: int| 0 <= j < i ==> self@[j] != key,
            decreases self.nodes.len() - i,
        {
            let node = &self.nodes[i];
            let same_left = match (node.left, left) {
                (Some(a), Some(b)) => a == b,
                (None, None) => true,
                _ => false,
            };
            let same_right = match (node.right, right) {
                (Some(a), Some(b)) => a == b,
                (None, None) => true,
                _ => false,
            };
            if same_left && same_right && node.label == *label {
                proof {
                    assert(self@[i as int] == key);
                    lemma_lookup_finds(self@, key, i as int);
                }
                return Some(i);
            }
            i += 1;
        }
        None
    }

    /// Looks the structure up and appends a node for it if there is none.
    fn intern(&mut self, label: String, left: Option<usize>, right: Option<usize>) -> (id: usize)
        requires
            old(self).wf(),
            left is None <==> right is None,
            left is Some ==> left->0 < old(self).nodes.len(),
            right is Some ==> right->0 < old(self).nodes.len(),
        ensures
            final(self).wf(),
            (final(self)@, id as int) == interned(
                old(self)@,
                (NodeView { label: label@, left: as_int(left), right: as_int(right) }),
            ),
    {
        let ghost key = NodeView { label: label@, left: as_int(left), right: as_int(right) };
        proof {
            lemma_interned(self@, key);
        }
        match self.find(&label, left, right) {
            Some(id) => id,
            None => {
                let id = self.nodes.len();
                self.nodes.push(DagNode { id, label, left, right });
                assert(self@ =~= old(self)@.push(key));
                id
            },
        }
    }

    /// Adds `ast` to the graph and returns the node that stands for it.
    ///
    /// Operands are added before their operator and the left operand before
    /// the right one; a subtree that the graph already holds is not added
    /// again.  [`built`] fixes the outcome node by node.  What it amounts to:
    /// the graph stays well formed, nodes already there keep their place,
    /// and the node returned unfolds to `ast`.
    pub fn from_ast(&mut self, ast: &AstNode) -> (id: usize)
        requires
            old(self).wf(),
        ensures
            final(self).wf(),
            (final(self)@, id as int) == built(old(self)@, ast@),
            extends(final(self)@, old(self)@),
            id < final(self).nodes.len(),
            unfolded(final(self)@, id as int) == shape_of(ast@),
        decreases ast,
    {
        proof {
            lemma_built(self@, ast@);
        }
        match ast {
            AstNode::Identifier(name) => self.make_leaf(name.as_str()),
            AstNode::Number(digits) => self.make_leaf(digits.as_str()),
            AstNode::BinaryOp { op, left, right } => {
                let l = self.from_ast(left);
                proof {
                    lemma_built(self@, right@);
                }
                let r = self.from_ast(right);
                self.intern(op.clone(), Some(l), Some(r))
            },
            AstNode::Empty => self.make_leaf("ε"),
            AstNode::Error => self.make_leaf("ERR"),
        }
    }

    /// Returns the leaf labelled `label`, appending it if the graph has
    /// none yet.
    pub fn make_leaf(&mut self, label: &str) -> (id: usize)
        requires
            old(self).wf(),
        ensures
            final(self).wf(),
            (final(self)@, id as int) == interned(old(self)@, leaf_key(label@)),
            extends(final(self)@, old(self)@),
            id < final(self).nodes.len(),
            final(self)@[id as int] == leaf_key(label@),
    {
        proof {
            lemma_interned(self@, leaf_key(label@));
        }
        self.intern(label.to_owned(), None, None)
    }
}

/// The level so far and the nodes seen so far, after `child` has been
/// looked at: a child not seen before joins both.
pub open spec fn visited(next: Seq<int>, seen: Set<int>, child: Option<int>) -> (
    Seq<int>,
    Set<int>,
) {
    match child {
        Some(c) => if seen.contains(c) {
            (next, seen)
        } else {
            (next.push(c), seen.insert(c))
        },
        None => (next, seen),
    }
}

/// The level below `level` and the nodes seen once `level` has been gone
/// through from left to right: of each node first the left operand is
/// looked at, then the right one.
pub open spec fn scanned(arena: Seq<NodeView>, level: Seq<int>, seen: Set<int>) -> (
    Seq<int>,
    Set<int>,
)
    decreases level.len(),
{
    if level.len() == 0 {
        (Seq::empty(), seen)
    } else {
        let (next, seen_before) = scanned(arena, level.drop_last(), seen);
        let node = arena[level.last()];
        let (with_left, seen_left) = visited(next, seen_before, node.left);
        visited(with_left, seen_left, node.right)
    }
}

/// Every position of `level` is one of the arena.
pub open spec fn in_arena(arena: Seq<NodeView>, level: Seq<int>) -> bool {
    forall|i: int| 0 <= i < level.len() ==> 0 <= #[trigger] level[i] < arena.len()
}

/// One more than the greatest position in `level`; zero for no position.
pub open spec fn level_bound(level: Seq<int>) -> nat
    decreases level.len(),
{
    if level.len() == 0 {
        0
    } else if level.last() + 1 > level_bound(level.drop_last()) {
        (level.last() + 1) as nat
    } else {
        level_bound(level.drop_last())
    }
}

/// The labels of the nodes of a level, each followed by a space.
pub open spec fn level_labels(arena: Seq<NodeView>, level: Seq<int>) -> Seq<char>
    decreases level.len(),
{
    if level.len() == 0 {
        Seq::empty()
    } else {
        level_labels(arena, level.drop_last()) + arena[level.last()].label + " "@
    }
}

/// The level below a level lies in the arena too, and strictly lower in it.
pub proof fn lemma_scanned_lower(arena: Seq<NodeView>, level: Seq<int>, seen: Set<int>)
    requires
        well_formed(arena),
        in_arena(arena, level),
    ensures
        in_arena(arena, scanned(arena, level, seen).0),
        level.len() > 0 ==> level_bound(scanned(arena, level, seen).0) < level_bound(level),
        level.len() == 0 ==> scanned(arena, level, seen).0.len() == 0,
    decreases level.len(),
{
    if level.len() > 0 {
        let rest = level.drop_last();
        lemma_scanned_lower(arena, rest, seen);
        let (next, seen_before) = scanned(arena, rest, seen);
        let node = arena[level.last()];
        let (with_left, seen_left) = visited(next, seen_before, node.left);
        let (with_right, seen_right) = visited(with_left, seen_left, node.right);
        let last = level[level.len() - 1];
        assert(0 <= last < arena.len());
        assert(in_arena(arena, rest));
        assert(level_bound(next) < level_bound(level)) by {
            if rest.len() == 0 {
                assert(level_bound(next) == 0);
            }
        }
        if with_left.len() > next.len() {
            assert(with_left.drop_last() =~= next);
            assert(with_left.last() == node.left->0);
        }
        assert(level_bound(with_left) < level_bound(level));
        if with_right.len() > with_left.len() {
            assert(with_right.drop_last() =~= with_left);
            assert(with_right.last() == node.right->0);
        }
        assert(level_bound(with_right) < level_bound(level));
    }
}

/// The breadth-first listing of the graph from the nodes of `level` on,
/// given the nodes seen so far: one line for each level, holding the labels
/// of its nodes, each followed by a space.  A node is listed once, on the
/// level on which it is first met.
pub open spec fn dag_listing(arena: Seq<NodeView>, level: Seq<int>, seen: Set<int>) -> Seq<char>
    decreases level_bound(level),
    when well_formed(arena) && in_arena(arena, level)
{
    if level.len() == 0 {
        Seq::empty()
    } else {
        proof {
            lemma_scanned_lower(arena, level, seen);
        }
        level_labels(arena, level) + "\n"@ + dag_listing(
            arena,
            scanned(arena, level, seen).0,
            scanned(arena, level, seen).1,
        )
    }
}

/// Positions held in a vector, as mathematical integers.
pub open spec fn positions(ids: Seq<usize>) -> Seq<int> {
    Seq::new(ids.len(), |i: int| ids[i] as int)
}

/// Positions held in a hash set, as a set of mathematical integers.
pub open spec fn position_set(ids: Set<usize>) -> Set<int> {
    Set::new(|i: int| 0 <= i <= usize::MAX && ids.contains(i as usize))
}

/// Looks at one operand while a level is gone through.
fn visit(next: &mut Vec<usize>, seen: &mut HashSet<usize>, child: Option<usize>)
    ensures
        (positions(final(next)@), position_set(final(seen)@)) == visited(
            positions(old(next)@),
            position_set(old(seen)@),
            as_int(child),
        ),
{
    if let Some(c) = child {
        if seen.insert(c) {
            next.push(c);
            assert(positions(next@) =~= positions(old(next)@).push(c as int));
        }
        assert(position_set(seen@) =~= position_set(old(seen)@).insert(c as int));
    }
}

impl DagBuilder {
    /// The breadth-first listing of the graph under `root_id`, ready to be
    /// printed: see [`dag_listing`].
    pub fn print(&self, root_id: usize) -> (out: String)
        requires
            self.wf(),
            root_id < self.nodes.len(),
        ensures
            out@ == dag_listing(self@, seq![root_id as int], set![root_id as int]),
    {
        let mut out = String::new();
        let mut queue: Vec<usize> = Vec::new();
        let mut seen: HashSet<usize> = HashSet::new();
        queue.push(root_id);
        seen.insert(root_id);
        assert(positions(queue@) =~= seq![root_id as int]);
        assert(position_set(seen@) =~= set![root_id as int]);
        while queue.len() > 0
            invariant
                self.wf(),
                in_arena(self@, positions(queue@)),
                out@ + dag_listing(self@, positions(queue@), position_set(seen@)) == dag_listing(
                    self@,
                    seq![root_id as int],
                    set![root_id as int],
                ),
            decreases level_bound(positions(queue@)),
        {
            let ghost level = positions(queue@);
            let ghost seen_before = position_set(seen@);
            let ghost done = out@;
            let mut next: Vec<usize> = Vec::new();
            let mut i: usize = 0;
            assert(level.take(0) =~= Seq::<int>::empty());
            assert(positions(next@) =~= Seq::<int>::empty());
            assert(out@ =~= done + level_labels(self@, level.take(0)));
            while i < queue.len()
                invariant
                    i <= queue.len(),
                    self.wf(),
                    level == positions(queue@),
                    in_arena(self@, level),
                    out@ == done + level_labels(self@, level.take(i as int)),
                    (positions(next@), position_set(seen@)) == scanned(
                        self@,
                        level.take(i as int),
                        seen_before,
                    ),
                decreases queue.len() - i,
            {
                let id = queue[i];
                assert(level[i as int] == id as int);
                let node = &self.nodes[id];
                assert(self@[id as int] == node@);
                let ghost upto = level.take(i + 1);
                assert(upto.drop_last() =~= level.take(i as int));
                assert(upto.last() == id as int);
                out.append(node.label.as_str());
                out.append(" ");
                visit(&mut next, &mut seen, node.left);
                visit(&mut next, &mut seen, node.right);
                assert(out@ =~= done + level_labels(self@, upto));
                i += 1;
            }
            assert(level.take(i as int) =~= level);
            out.append("\n");
            proof {
                lemma_scanned_lower(self@, level, seen_before);
                assert(out@ + dag_listing(self@, positions(next@), position_set(seen@)) =~= done
                    + dag_listing(self@, level, seen_before));
            }
            queue = next;
        }
        assert(out@ + Seq::<char>::empty() =~= out@);
        out
    }
}

impl DagBuilder {
    /// Tells whether the node at `i` is stored under its own position, has
    /// both operands or none, and has them before itself.
    fn node_in_place(&self, i: usize) -> (ok: bool)
        requires
            i < self.nodes.len(),
        ensures
            ok == {
                &&& self.nodes[i as int].id == i
                &&& (self@[i as int].left is None <==> self@[i as int].right is None)
                &&& (self@[i as int].left is Some ==> 0 <= self@[i as int].left->0 < i)
                &&& (self@[i as int].right is Some ==> 0 <= self@[i as int].right->0 < i)
            },
    {
        let node = &self.nodes[i];
        assert(self@[i as int] == node@);
        let paired = match (node.left, node.right) {
            (Some(l), Some(r)) => l < i && r < i,
            (None, None) => true,
            _ => false,
        };
        node.id == i && paired
    }

    /// Tells whether the nodes at `i` and `j` have the same structure.
    fn same_structure(&self, i: usize, j: usize) -> (same: bool)
        requires
            i < self.nodes.len(),
            j < self.nodes.len(),
        ensures
            same == (self@[i as int] == self@[j as int]),
    {
        let a = &self.nodes[i];
        let b = &self.nodes[j];
        assert(self@[i as int] == a@ && self@[j as int] == b@);
        let same_left = match (a.left, b.left) {
            (Some(x), Some(y)) => x == y,
            (None, None) => true,
            _ => false,
        };
        let same_right = match (a.right, b.right) {
            (Some(x), Some(y)) => x == y,
            (None, None) => true,
            _ => false,
        };
        same_left && same_right && a.label == b.label
    }

    /// Checks the invariant [`DagBuilder::wf`] at run time, for graphs that
    /// were put together by hand.
    pub fn is_well_formed(&self) -> (ok: bool)
        ensures
            ok == self.wf(),
    {
        let n = self.nodes.len();
        let mut i: usize = 0;
        while i < n
            invariant
                i <= n,
                n == self.nodes.len(),
                forall|k: int| 0 <= k < i ==> (#[trigger] self.nodes[k]).id == k,
                forall|k: int|
                    0 <= k < i ==> ((#[trigger] self@[k]).left is None <==> self@[k].right
                        is None),
                forall|k: int|
                    0 <= k < i && (#[trigger] self@[k]).left is Some ==> 0 <= self@[k].left->0
                        < k,
                forall|k: int|
                    0 <= k < i && (#[trigger] self@[k]).right is Some ==> 0
                        <= self@[k].right->0 < k,
                forall|k: int, j: int|
                    0 <= j < k < i ==> #[trigger] self@[k] != #[trigger] self@[j],
            decreases n - i,
        {
            if !self.node_in_place(i) {
                assert(!self.wf()) by {
                    if self.wf() {
                        assert(self.nodes[i as int].id == i);
                        assert(self@[i as int].left is None <==> self@[i as int].right is None);
                    }
                }
                return false;
            }
            let mut j: usize = 0;
            while j < i
                invariant
                    j <= i,
                    i < n,
                    n == self.nodes.len(),
                    forall|m: int| 0 <= m < j ==> self@[i as int] != #[trigger] self@[m],
                decreases i - j,
            {
                if self.same_structure(i, j) {
                    return false;
                }
                j += 1;
            }
            i += 1;
        }
        assert forall|a: int, b: int|
            0 <= a < self@.len() && 0 <= b < self@.len() && #[trigger] self@[a]
                == #[trigger] self@[b] implies a == b by {
            if a < b {
                assert(self@[b] != self@[a]);
            } else if b < a {
                assert(self@[a] != self@[b]);
            }
        }
        true
    }
}

} // verus!
