//! Lowering of an expression graph to a three-address function body.
//!
//! Every inner node of the graph becomes one instruction, emitted after the
//! instructions of its operands.  The instruction at position `k` of the
//! list defines the register `tmp{k+1}`; registers are never reused.  A
//! node that was lowered before is not lowered again: its register is
//! remembered, so sharing in the graph is sharing in the code.

use crate::dag::{DagBuilder, NodeView};
use crate::text::{
    ascii_precedes, decimal, decimal_text, is_alphabetic, is_alphabetic_text,
    lemma_precedes_strict, lemma_precedes_total, lemma_precedes_transitive, precedes,
};
use std::collections::HashMap;
use vstd::prelude::*;
use vstd::string::StringExecFns;

verus! {

broadcast use vstd::std_specs::hash::group_hash_axioms;

/// What an instruction computes.
#[derive(Debug, Clone, Copy, PartialEq, Eq, Structural)]
pub enum Opcode {
    Add,
    Multiply,
    Unknown,
}

/// A value that an instruction reads or that the function returns.
#[derive(Debug)]
pub enum Operand {
    /// The parameter of this name.
    Param(String),
    /// A literal, written as it stands.
    Literal(String),
    /// The register of this number, counted from 1.
    Temp(usize),
}

/// The mathematical value of an [`Operand`].
pub enum OperandView {
    Param(Seq<char>),
    Literal(Seq<char>),
    Temp(int),
}

impl View for Operand {
    type V = OperandView;

    open spec fn view(&self) -> OperandView {
        match self {
            Operand::Param(name) => OperandView::Param(name@),
            Operand::Literal(text) => OperandView::Literal(text@),
            Operand::Temp(n) => OperandView::Temp(*n as int),
        }
    }
}

impl Clone for Operand {
    fn clone(&self) -> (copy: Operand)
        ensures
            copy == *self,
    {
        match self {
            Operand::Param(name) => Operand::Param(name.clone()),
            Operand::Literal(text) => Operand::Literal(text.clone()),
            Operand::Temp(n) => Operand::Temp(*n),
        }
    }
}

/// One instruction.  The register it defines is given by its position in
/// the list.
#[derive(Debug)]
pub struct Instruction {
    pub op: Opcode,
    pub left: Operand,
    pub right: Operand,
}

/// The mathematical value of an [`Instruction`].
pub struct InstructionView {
    pub op: Opcode,
    pub left: OperandView,
    pub right: OperandView,
}

impl View for Instruction {
    type V = InstructionView;

    open spec fn view(&self) -> InstructionView {
        InstructionView { op: self.op, left: self.left@, right: self.right@ }
    }
}

impl Clone for Instruction {
    fn clone(&self) -> (copy: Instruction)
        ensures
            copy == *self,
    {
        Instruction { op: self.op, left: self.left.clone(), right: self.right.clone() }
    }
}

/// The views of a sequence of instructions, element by element.
pub open spec fn instruction_views(code: Seq<Instruction>) -> Seq<InstructionView> {
    Seq::new(code.len(), |k: int| code[k]@)
}

/// The state of a code generator: the register remembered for each node
/// lowered so far, and the instructions emitted so far.
pub struct Emitter {
    pub memo: Map<int, int>,
    pub code: Seq<InstructionView>,
}

/// A generator's state before anything has been lowered.
pub open spec fn fresh() -> Emitter {
    Emitter { memo: Map::empty(), code: Seq::empty() }
}

/// The opcode for an operator's label.
pub open spec fn opcode_of(label: Seq<char>) -> Opcode {
    if label == "+"@ {
        Opcode::Add
    } else if label == "*"@ {
        Opcode::Multiply
    } else {
        Opcode::Unknown
    }
}

/// The value of a leaf: a parameter if its label is made of letters, else
/// the label itself as a literal.
pub open spec fn leaf_value(label: Seq<char>) -> OperandView {
    if is_alphabetic(label) {
        OperandView::Param(label)
    } else {
        OperandView::Literal(label)
    }
}

/// The generator's state after the node at `id` has been lowered, and the
/// value that stands for the node.
///
/// A node with a remembered register yields that register and nothing
/// else happens.  A leaf yields its value without an instruction.  An inner
/// node has its left operand lowered, then its right one, then gets the
/// next instruction and the next register, which is remembered for it.
pub open spec fn emitted(arena: Seq<NodeView>, id: int, state: Emitter) -> (Emitter, OperandView)
    decreases id,
{
    if state.memo.contains_key(id) {
        (state, OperandView::Temp(state.memo[id]))
    } else if 0 <= id < arena.len() {
        let node = arena[id];
        if node.left is Some && node.right is Some && 0 <= node.left->0 < id && 0
            <= node.right->0 < id {
            let (after_left, left) = emitted(arena, node.left->0, state);
            let (after_right, right) = emitted(arena, node.right->0, after_left);
            let register = after_right.code.len() as int + 1;
            (
                Emitter {
                    memo: after_right.memo.insert(id, register),
                    code: after_right.code.push(
                        InstructionView { op: opcode_of(node.label), left, right },
                    ),
                },
                OperandView::Temp(register),
            )
        } else {
            (state, leaf_value(node.label))
        }
    } else {
        (state, OperandView::Literal(Seq::empty()))
    }
}

/// If `value` is a register, it is one of the first `count` registers.
pub open spec fn defined_before(value: OperandView, count: int) -> bool {
    value is Temp ==> 1 <= value->Temp_0 <= count
}

/// Every register that an instruction reads is defined by an instruction
/// that stands strictly before it.
pub open spec fn no_forward_refs(code: Seq<InstructionView>) -> bool {
    forall|k: int|
        0 <= k < code.len() ==> defined_before((#[trigger] code[k]).left, k) && defined_before(
            code[k].right,
            k,
        )
}

/// The invariant of a generator's state: every remembered register is
/// defined, and no instruction reads a register defined later.
pub open spec fn ordered(state: Emitter) -> bool {
    &&& forall|id: int| #[trigger]
        state.memo.contains_key(id) ==> 1 <= state.memo[id] <= state.code.len()
    &&& no_forward_refs(state.code)
}

/// `code` starts with the instructions of `before`, unchanged.
pub open spec fn continues(code: Seq<InstructionView>, before: Seq<InstructionView>) -> bool {
    &&& before.len() <= code.len()
    &&& forall|k: int| 0 <= k < before.len() ==> code[k] == before[k]
}

/// Lowering a node keeps the generator's invariant: instructions already
/// emitted stay where they are, every operand of a new instruction names a
/// register defined strictly before it, and so does the value returned.
pub proof fn lemma_emitted_in_order(arena: Seq<NodeView>, id: int, state: Emitter)
    requires
        ordered(state),
    ensures
        ordered(emitted(arena, id, state).0),
        continues(emitted(arena, id, state).0.code, state.code),
        defined_before(emitted(arena, id, state).1, emitted(arena, id, state).0.code.len() as int),
        forall|other: int|
            state.memo.contains_key(other) ==> emitted(arena, id, state).0.memo.contains_key(
                other,
            ),
    decreases id,
{
    if !state.memo.contains_key(id) && 0 <= id < arena.len() {
        let node = arena[id];
        if node.left is Some && node.right is Some && 0 <= node.left->0 < id && 0
            <= node.right->0 < id {
            lemma_emitted_in_order(arena, node.left->0, state);
            let (after_left, left) = emitted(arena, node.left->0, state);
            lemma_emitted_in_order(arena, node.right->0, after_left);
            let (after_right, right) = emitted(arena, node.right->0, after_left);
            let last = emitted(arena, id, state).0;
            assert forall|k: int| 0 <= k < last.code.len() implies defined_before(
                (#[trigger] last.code[k]).left,
                k,
            ) && defined_before(last.code[k].right, k) by {
                if k < after_right.code.len() {
                    assert(last.code[k] == after_right.code[k]);
                }
            }
        }
    }
}

/// Lowering a node a second time emits nothing and yields the value it
/// yielded the first time: a node that several others share is computed
/// once.
pub proof fn lemma_emitted_once(arena: Seq<NodeView>, id: int, state: Emitter)
    ensures
        emitted(arena, id, emitted(arena, id, state).0) == emitted(arena, id, state),
{
    let (after, value) = emitted(arena, id, state);
    if !state.memo.contains_key(id) && 0 <= id < arena.len() {
        let node = arena[id];
        if node.left is Some && node.right is Some && 0 <= node.left->0 < id && 0
            <= node.right->0 < id {
            assert(after.memo.contains_key(id));
        }
    }
}

/// The registers remembered in a hash map, as a map over the integers.
pub open spec fn memo_model(memo: Map<usize, usize>) -> Map<int, int> {
    Map::new(
        |id: int| 0 <= id <= usize::MAX && memo.contains_key(id as usize),
        |id: int| memo[id as usize] as int,
    )
}

/// The code generator.
pub struct LLVM {
    memo: HashMap<usize, usize>,
    code: Vec<Instruction>,
}

impl View for LLVM {
    type V = Emitter;

    closed spec fn view(&self) -> Emitter {
        Emitter { memo: memo_model(self.memo@), code: instruction_views(self.code@) }
    }
}

fn opcode(label: &String) -> (op: Opcode)
    ensures
        op == opcode_of(label@),
{
    if *label == "+".to_owned() {
        Opcode::Add
    } else if *label == "*".to_owned() {
        Opcode::Multiply
    } else {
        Opcode::Unknown
    }
}

impl LLVM {
    /// The generator's invariant; see [`ordered`].
    pub closed spec fn wf(&self) -> bool {
        ordered(self@)
    }

    /// A generator that has emitted nothing and remembers nothing.
    pub fn new() -> (generator: LLVM)
        ensures
            generator.wf(),
            generator@ == fresh(),
    {
        let generator = LLVM { memo: HashMap::new(), code: Vec::new() };
        assert(generator@.memo =~= Map::<int, int>::empty());
        assert(generator@.code =~= Seq::<InstructionView>::empty());
        generator
    }

    /// Lowers the node at `id` and returns the value that stands for it,
    /// exactly as [`emitted`] says.
    pub fn emit_node(&mut self, dag: &DagBuilder, id: usize) -> (value: Operand)
        requires
            old(self).wf(),
            dag.wf(),
            id < dag.nodes.len(),
        ensures
            final(self).wf(),
            (final(self)@, value@) == emitted(dag@, id as int, old(self)@),
        decreases id,
    {
        proof {
            lemma_emitted_in_order(dag@, id as int, self@);
        }
        match self.memo.get(&id) {
            Some(register) => {
                return Operand::Temp(*register);
            },
            None => {},
        }
        let node = &dag.nodes[id];
        assert(dag@[id as int] == node@);
        if node.left.is_none() && node.right.is_none() {
            if is_alphabetic_text(node.label.as_str()) {
                return Operand::Param(node.label.clone());
            } else {
                return Operand::Literal(node.label.clone());
            }
        }
        let left = self.emit_node(dag, node.left.unwrap());
        proof {
            lemma_emitted_in_order(dag@, node.right.unwrap() as int, self@);
        }
        let right = self.emit_node(dag, node.right.unwrap());
        let ghost before = self@;
        let op = opcode(&node.label);
        self.code.push(Instruction { op, left, right });
        let register = self.code.len();
        self.memo.insert(id, register);
        proof {
            assert(self@.code =~= before.code.push(
                InstructionView { op: opcode_of(node@.label), left: left@, right: right@ },
            ));
            assert(self@.memo =~= before.memo.insert(id as int, register as int));
        }
        Operand::Temp(register)
    }
}

/// The labels of the leaves under the node at `id` that are made of
/// letters: the names that the expression mentions.
pub open spec fn names_of(arena: Seq<NodeView>, id: int) -> Set<Seq<char>>
    decreases id,
{
    if 0 <= id < arena.len() {
        let node = arena[id];
        if node.left is Some && node.right is Some && 0 <= node.left->0 < id && 0
            <= node.right->0 < id {
            names_of(arena, node.left->0).union(names_of(arena, node.right->0))
        } else if is_alphabetic(node.label) {
            set![node.label]
        } else {
            Set::empty()
        }
    } else {
        Set::empty()
    }
}

/// The number of paths that lead down from the node at `id`, itself
/// included.
pub open spec fn paths(arena: Seq<NodeView>, id: int) -> nat
    decreases id,
{
    if 0 <= id < arena.len() {
        let node = arena[id];
        if node.left is Some && node.right is Some && 0 <= node.left->0 < id && 0
            <= node.right->0 < id {
            1 + paths(arena, node.left->0) + paths(arena, node.right->0)
        } else {
            1
        }
    } else {
        0
    }
}

/// The names under all the nodes that are still to be visited.
pub open spec fn pending_names(arena: Seq<NodeView>, stack: Seq<usize>) -> Set<Seq<char>>
    decreases stack.len(),
{
    if stack.len() == 0 {
        Set::empty()
    } else {
        pending_names(arena, stack.drop_last()).union(names_of(arena, stack.last() as int))
    }
}

/// The work that is left for the nodes still to be visited.
pub open spec fn pending_paths(arena: Seq<NodeView>, stack: Seq<usize>) -> nat
    decreases stack.len(),
{
    if stack.len() == 0 {
        0
    } else {
        pending_paths(arena, stack.drop_last()) + paths(arena, stack.last() as int)
    }
}

/// The texts of a sequence of strings, element by element.
pub open spec fn texts(strings: Seq<String>) -> Seq<Seq<char>> {
    Seq::new(strings.len(), |i: int| strings[i]@)
}

/// Each text comes strictly before all that follow it.
pub open spec fn strictly_sorted(names: Seq<Seq<char>>) -> bool {
    forall|i: int, j: int| 0 <= i < j < names.len() ==> precedes(names[i], names[j])
}

/// A set of texts can be listed in strictly ascending order in one way
/// only: the order of the list does not depend on where its elements came
/// from.
pub proof fn lemma_sorted_unique(a: Seq<Seq<char>>, b: Seq<Seq<char>>)
    requires
        strictly_sorted(a),
        strictly_sorted(b),
        a.to_set() == b.to_set(),
    ensures
        a == b,
    decreases a.len(),
{
    if a.len() == 0 {
        if b.len() > 0 {
            assert(b.contains(b[0]));
            assert(a.to_set().contains(b[0]));
        }
        assert(a =~= b);
    } else {
        assert(a.contains(a[0]));
        assert(b.to_set().contains(a[0]));
        let j = choose|j: int| 0 <= j < b.len() && b[j] == a[0];
        assert(b.contains(b[0]));
        assert(a.to_set().contains(b[0]));
        let i = choose|i: int| 0 <= i < a.len() && a[i] == b[0];
        if i > 0 && j > 0 {
            lemma_precedes_strict(a[0], a[i]);
            lemma_precedes_strict(b[0], b[j]);
        } else if i > 0 {
            lemma_precedes_strict(a[0], a[i]);
        } else if j > 0 {
            lemma_precedes_strict(b[0], b[j]);
        }
        assert(a[0] == b[0]);
        let ta = a.drop_first();
        let tb = b.drop_first();
        assert forall|t: Seq<char>| ta.to_set().contains(t) <==> tb.to_set().contains(t) by {
            if ta.contains(t) {
                let k = choose|k: int| 0 <= k < ta.len() && ta[k] == t;
                assert(a[k + 1] == t);
                lemma_precedes_strict(a[0], a[k + 1]);
                assert(a.contains(t));
                assert(b.to_set().contains(t));
                let m = choose|m: int| 0 <= m < b.len() && b[m] == t;
                assert(m > 0);
                assert(tb[m - 1] == t);
            }
            if tb.contains(t) {
                let k = choose|k: int| 0 <= k < tb.len() && tb[k] == t;
                assert(b[k + 1] == t);
                lemma_precedes_strict(b[0], b[k + 1]);
                assert(b.contains(t));
                assert(a.to_set().contains(t));
                let m = choose|m: int| 0 <= m < a.len() && a[m] == t;
                assert(m > 0);
                assert(ta[m - 1] == t);
            }
        }
        assert(ta.to_set() =~= tb.to_set());
        assert forall|x: int, y: int| 0 <= x < y < ta.len() implies precedes(ta[x], ta[y]) by {
            assert(ta[x] == a[x + 1] && ta[y] == a[y + 1]);
        }
        assert forall|x: int, y: int| 0 <= x < y < tb.len() implies precedes(tb[x], tb[y]) by {
            assert(tb[x] == b[x + 1] && tb[y] == b[y + 1]);
        }
        lemma_sorted_unique(ta, tb);
        assert(a =~= seq![a[0]] + ta);
        assert(b =~= seq![b[0]] + tb);
    }
}

/// Where `name` belongs in the sorted list: after everything that comes
/// before it.
fn insertion_point(names: &Vec<String>, name: &String) -> (pos: usize)
    requires
        is_alphabetic(name@),
        forall|i: int| 0 <= i < names.len() ==> is_alphabetic(#[trigger] names[i]@),
    ensures
        pos <= names.len(),
        forall|i: int| 0 <= i < pos ==> precedes(#[trigger] names[i]@, name@),
        pos < names.len() ==> !precedes(names[pos as int]@, name@),
{
    let mut pos: usize = 0;
    while pos < names.len()
        invariant
            pos <= names.len(),
            is_alphabetic(name@),
            forall|i: int| 0 <= i < names.len() ==> is_alphabetic(#[trigger] names[i]@),
            forall|i: int| 0 <= i < pos ==> precedes(#[trigger] names[i]@, name@),
        decreases names.len() - pos,
    {
        assert(is_alphabetic(names[pos as int]@));
        if !ascii_precedes(names[pos].as_str(), name.as_str()) {
            return pos;
        }
        pos += 1;
    }
    pos
}

/// Puts `name` at its place in the sorted list unless it is there already.
fn insert_sorted(names: &mut Vec<String>, name: String)
    requires
        is_alphabetic(name@),
        forall|i: int| 0 <= i < old(names).len() ==> is_alphabetic(#[trigger] old(names)[i]@),
        strictly_sorted(texts(old(names)@)),
    ensures
        forall|i: int| 0 <= i < final(names).len() ==> is_alphabetic(#[trigger] final(names)[i]@),
        strictly_sorted(texts(final(names)@)),
        forall|t: Seq<char>|
            texts(final(names)@).contains(t) <==> (texts(old(names)@).contains(t) || t == name@),
{
    let pos = insertion_point(names, &name);
    let ghost before = texts(names@);
    let ghost text = name@;
    if pos < names.len() && names[pos] == name {
        assert(before[pos as int] == text);
        return ;
    }
    names.insert(pos, name);
    proof {
        let after = texts(names@);
        assert(after =~= before.insert(pos as int, text));
        assert forall|j: int| pos <= j < before.len() implies precedes(text, before[j]) by {
            lemma_precedes_total(before[pos as int], text);
            if j > pos {
                lemma_precedes_transitive(text, before[pos as int], before[j]);
            }
        }
        assert forall|i: int, j: int| 0 <= i < j < after.len() implies precedes(
            after[i],
            after[j],
        ) by {
            let a = if i < pos { i } else { i - 1 };
            let b = if j < pos { j } else { j - 1 };
            if i != pos && j != pos {
                assert(after[i] == before[a] && after[j] == before[b]);
            } else if i == pos {
                assert(after[j] == before[b]);
            } else {
                assert(after[i] == before[a]);
            }
        }
        assert forall|t: Seq<char>| after.contains(t) <==> (before.contains(t) || t == text) by {
            if after.contains(t) {
                let i = choose|i: int| 0 <= i < after.len() && after[i] == t;
                if i < pos {
                    assert(before[i] == t);
                } else if i > pos {
                    assert(before[i - 1] == t);
                }
            }
            if before.contains(t) {
                let i = choose|i: int| 0 <= i < before.len() && before[i] == t;
                if i < pos {
                    assert(after[i] == t);
                } else {
                    assert(after[i + 1] == t);
                }
            }
            if t == text {
                assert(after[pos as int] == t);
            }
        }
        assert forall|i: int| 0 <= i < names.len() implies is_alphabetic(#[trigger] names[i]@) by {
            if i < pos {
                assert(names[i]@ == before[i]);
                assert(is_alphabetic(old(names)[i]@));
            } else if i > pos {
                assert(names[i]@ == before[i - 1]);
                assert(is_alphabetic(old(names)[i - 1]@));
            }
        }
    }
}

proof fn lemma_pending_push(arena: Seq<NodeView>, stack: Seq<usize>, id: usize)
    ensures
        pending_names(arena, stack.push(id)) == pending_names(arena, stack).union(
            names_of(arena, id as int),
        ),
        pending_paths(arena, stack.push(id)) == pending_paths(arena, stack) + paths(
            arena,
            id as int,
        ),
{
    assert(stack.push(id).drop_last() =~= stack);
}

/// A function in its final form: the names of its parameters, the
/// instructions of its body in order, and the value it returns.
pub struct IrFunction {
    pub params: Vec<String>,
    pub body: Vec<Instruction>,
    pub result: Operand,
}

/// The mathematical value of an [`IrFunction`].
pub struct FunctionView {
    pub params: Seq<Seq<char>>,
    pub body: Seq<InstructionView>,
    pub result: OperandView,
}

impl View for IrFunction {
    type V = FunctionView;

    open spec fn view(&self) -> FunctionView {
        FunctionView {
            params: texts(self.params@),
            body: instruction_views(self.body@),
            result: self.result@,
        }
    }
}

impl LLVM {
    /// The names that the expression under `root` mentions, each once, in
    /// dictionary order.
    pub fn collect_identifiers(dag: &DagBuilder, root: usize) -> (names: Vec<String>)
        requires
            dag.wf(),
            root < dag.nodes.len(),
        ensures
            strictly_sorted(texts(names@)),
            texts(names@).to_set() == names_of(dag@, root as int),
    {
        let mut stack: Vec<usize> = Vec::new();
        stack.push(root);
        let mut names: Vec<String> = Vec::new();
        proof {
            lemma_pending_push(dag@, Seq::<usize>::empty(), root);
            assert(stack@ =~= Seq::<usize>::empty().push(root));
        }
        while stack.len() > 0
            invariant
                dag.wf(),
                forall|i: int| 0 <= i < stack.len() ==> (#[trigger] stack[i]) < dag.nodes.len(),
                forall|i: int| 0 <= i < names.len() ==> is_alphabetic(#[trigger] names[i]@),
                strictly_sorted(texts(names@)),
                forall|t: Seq<char>|
                    (texts(names@).contains(t) || pending_names(dag@, stack@).contains(t))
                        <==> names_of(dag@, root as int).contains(t),
            decreases pending_paths(dag@, stack@),
        {
            let ghost old_stack = stack@;
            let ghost old_names = texts(names@);
            let id = stack.pop().unwrap();
            let ghost rest = stack@;
            assert(rest =~= old_stack.drop_last());
            let node = &dag.nodes[id];
            assert(dag@[id as int] == node@);
            if let Some(l) = node.left {
                proof {
                    lemma_pending_push(dag@, stack@, l);
                }
                stack.push(l);
            }
            if let Some(r) = node.right {
                proof {
                    lemma_pending_push(dag@, stack@, r);
                }
                stack.push(r);
            }
            if node.left.is_none() && node.right.is_none() {
                if is_alphabetic_text(node.label.as_str()) {
                    insert_sorted(&mut names, node.label.clone());
                }
            }
            proof {
                let now = texts(names@);
                assert forall|t: Seq<char>|
                    (now.contains(t) || pending_names(dag@, stack@).contains(t)) <==> (
                    old_names.contains(t) || pending_names(dag@, old_stack).contains(t)) by {}
            }
        }
        proof {
            assert(texts(names@).to_set() =~= names_of(dag@, root as int));
        }
        names
    }

    /// Lowers the expression under `root` and returns the finished function.
    ///
    /// The parameters are the names that the expression mentions, each once
    /// and in dictionary order, whatever the order in which they occur.  The
    /// body is everything this generator has emitted so far, in order, with
    /// the instructions for `root` last, and the result is the value of
    /// `root`.  No instruction, and not the result either, reads a register
    /// that is not defined strictly before.
    pub fn generate(&mut self, dag: &DagBuilder, root: usize) -> (out: IrFunction)
        requires
            old(self).wf(),
            dag.wf(),
            root < dag.nodes.len(),
        ensures
            final(self).wf(),
            final(self)@ == emitted(dag@, root as int, old(self)@).0,
            out@.result == emitted(dag@, root as int, old(self)@).1,
            out@.body == final(self)@.code,
            strictly_sorted(out@.params),
            out@.params.to_set() == names_of(dag@, root as int),
            no_forward_refs(out@.body),
            defined_before(out@.result, out@.body.len() as int),
            continues(out@.body, old(self)@.code),
    {
        proof {
            lemma_emitted_in_order(dag@, root as int, self@);
        }
        let params = Self::collect_identifiers(dag, root);
        let result = self.emit_node(dag, root);
        let mut body: Vec<Instruction> = Vec::new();
        let mut k: usize = 0;
        while k < self.code.len()
            invariant
                k <= self.code.len(),
                body.len() == k,
                forall|i: int| 0 <= i < k ==> body[i] == self.code[i],
            decreases self.code.len() - k,
        {
            body.push(self.code[k].clone());
            k += 1;
        }
        assert(instruction_views(body@) =~= instruction_views(self.code@));
        IrFunction { params, body, result }
    }
}

/// The word for an opcode.
pub open spec fn mnemonic(op: Opcode) -> Seq<char> {
    match op {
        Opcode::Add => "add"@,
        Opcode::Multiply => "multiply"@,
        Opcode::Unknown => "unknown"@,
    }
}

/// An operand as it is written: `%name`, the literal, or `tmpN`.
pub open spec fn operand_text(value: OperandView) -> Seq<char> {
    match value {
        OperandView::Param(name) => "%"@ + name,
        OperandView::Literal(text) => text,
        OperandView::Temp(n) => "tmp"@ + decimal(n as nat),
    }
}

/// The instruction at position `k` as it is written:
/// `tmpN = <mnemonic> i64 <left>, <right>` with `N` one more than `k`.
pub open spec fn instruction_text(k: int, instruction: InstructionView) -> Seq<char> {
    "tmp"@ + decimal((k + 1) as nat) + " = "@ + mnemonic(instruction.op) + " i64 "@ + operand_text(
        instruction.left,
    ) + ", "@ + operand_text(instruction.right)
}

/// The parameters as they are written: `i64 %name` each, with `, ` between.
pub open spec fn param_list(params: Seq<Seq<char>>) -> Seq<char>
    decreases params.len(),
{
    if params.len() == 0 {
        Seq::empty()
    } else if params.len() == 1 {
        "i64 %"@ + params[0]
    } else {
        param_list(params.drop_last()) + ", "@ + "i64 %"@ + params.last()
    }
}

/// The lines of a function: the header, the instructions indented by four
/// spaces, the return and the closing brace.
pub open spec fn function_lines(f: FunctionView) -> Seq<Seq<char>> {
    seq!["define i64 @foo("@ + param_list(f.params) + ") {"@] + Seq::new(
        f.body.len(),
        |k: int| "    "@ + instruction_text(k, f.body[k]),
    ) + seq!["    return i64 "@ + operand_text(f.result), "}"@]
}

impl Opcode {
    /// The word for this opcode.
    pub fn mnemonic(&self) -> (word: &'static str)
        ensures
            word@ == mnemonic(*self),
    {
        match self {
            Opcode::Add => "add",
            Opcode::Multiply => "multiply",
            Opcode::Unknown => "unknown",
        }
    }
}

impl Operand {
    /// This operand as it is written.
    pub fn text(&self) -> (out: String)
        ensures
            out@ == operand_text(self@),
    {
        match self {
            Operand::Param(name) => {
                let mut out = "%".to_owned();
                out.append(name.as_str());
                out
            },
            Operand::Literal(text) => text.clone(),
            Operand::Temp(n) => {
                let mut out = "tmp".to_owned();
                let number = decimal_text(*n);
                out.append(number.as_str());
                out
            },
        }
    }
}

impl IrFunction {
    /// The parameter list as it is written between the parentheses of the
    /// header.
    fn param_text(&self) -> (out: String)
        ensures
            out@ == param_list(texts(self.params@)),
    {
        let mut out = String::new();
        let mut i: usize = 0;
        while i < self.params.len()
            invariant
                i <= self.params.len(),
                out@ == param_list(texts(self.params@).take(i as int)),
            decreases self.params.len() - i,
        {
            let ghost done = texts(self.params@).take(i as int);
            let ghost next = texts(self.params@).take(i + 1);
            assert(next.drop_last() =~= done);
            assert(next.last() == self.params[i as int]@);
            if i > 0 {
                out.append(", ");
            }
            out.append("i64 %");
            out.append(self.params[i].as_str());
            assert(out@ =~= param_list(next));
            i += 1;
        }
        assert(texts(self.params@).take(i as int) =~= texts(self.params@));
        out
    }

    /// The text of the function, line by line, as [`function_lines`] lays
    /// it out.
    pub fn render(&self) -> (lines: Vec<String>)
        ensures
            texts(lines@) == function_lines(self@),
    {
        let mut lines: Vec<String> = Vec::new();
        let mut header = "define i64 @foo(".to_owned();
        let params = self.param_text();
        header.append(params.as_str());
        header.append(") {");
        lines.push(header);
        let mut k: usize = 0;
        while k < self.body.len()
            invariant
                k <= self.body.len(),
                lines.len() == k + 1,
                lines[0]@ == "define i64 @foo("@ + param_list(self@.params) + ") {"@,
                forall|i: int|
                    0 <= i < k ==> (#[trigger] lines[i + 1])@ == "    "@ + instruction_text(
                        i,
                        self@.body[i],
                    ),
            decreases self.body.len() - k,
        {
            let instruction = &self.body[k];
            let mut line = "    tmp".to_owned();
            let number = decimal_text(k + 1);
            line.append(number.as_str());
            line.append(" = ");
            line.append(instruction.op.mnemonic());
            line.append(" i64 ");
            let left = instruction.left.text();
            line.append(left.as_str());
            line.append(", ");
            let right = instruction.right.text();
            line.append(right.as_str());
            proof {
                reveal_strlit("    tmp");
                reveal_strlit("    ");
                reveal_strlit("tmp");
                assert("    tmp"@ =~= "    "@ + "tmp"@);
                assert(line@ =~= "    "@ + instruction_text(k as int, self@.body[k as int]));
            }
            lines.push(line);
            k += 1;
        }
        let mut last = "    return i64 ".to_owned();
        let value = self.result.text();
        last.append(value.as_str());
        lines.push(last);
        lines.push("}".to_owned());
        assert(texts(lines@) =~= function_lines(self@));
        lines
    }
}

} // verus!
