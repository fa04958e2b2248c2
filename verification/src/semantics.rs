//! What an expression means and what its code computes, and the proof that
//! the two agree.
//!
//! Nothing here fixes what `add` or a literal stands for.  An
//! interpretation says what the leaves are worth and what each opcode does
//! with two values; the theorem holds for every interpretation.

use crate::dag::{built, lemma_built, shape_of, unfolded, well_formed, NodeView, Shape};
use crate::llvm::{
    continues, emitted, fresh, leaf_value, lemma_emitted_in_order, opcode_of, ordered, Emitter,
    InstructionView, Opcode, OperandView,
};
use crate::parser::AstView;
use vstd::prelude::*;

verus! {

/// An interpretation: the worth of every parameter and literal, and the
/// function that each opcode computes.
pub struct Meaning {
    pub leaf: spec_fn(OperandView) -> int,
    pub apply: spec_fn(Opcode, int, int) -> int,
}

/// The worth of a tree of labels.
pub open spec fn shape_value(m: Meaning, shape: Shape) -> int
    decreases shape,
{
    match shape {
        Shape::Leaf(label) => (m.leaf)(leaf_value(label)),
        Shape::Inner(op, left, right) => (m.apply)(
            opcode_of(op),
            shape_value(m, *left),
            shape_value(m, *right),
        ),
    }
}

/// What the register `n` holds once the code has run.
pub open spec fn register_value(m: Meaning, code: Seq<InstructionView>, n: int) -> int
    decreases n, 1nat,
{
    if 1 <= n <= code.len() {
        let instruction = code[n - 1];
        (m.apply)(
            instruction.op,
            operand_value(m, code, instruction.left, n),
            operand_value(m, code, instruction.right, n),
        )
    } else {
        0
    }
}

/// What an operand is worth where only the registers below `bound` are
/// defined.
pub open spec fn operand_value(
    m: Meaning,
    code: Seq<InstructionView>,
    value: OperandView,
    bound: int,
) -> int
    decreases bound, 0nat,
{
    match value {
        OperandView::Temp(n) => if 1 <= n < bound {
            register_value(m, code, n)
        } else {
            0
        },
        _ => (m.leaf)(value),
    }
}

/// What the value returned is worth once all of the code has run.
pub open spec fn result_value(m: Meaning, code: Seq<InstructionView>, value: OperandView) -> int {
    operand_value(m, code, value, code.len() as int + 1)
}

/// Every remembered register holds the worth of the node it is remembered
/// for.
pub open spec fn faithful(m: Meaning, arena: Seq<NodeView>, state: Emitter) -> bool {
    &&& ordered(state)
    &&& forall|id: int| #[trigger]
        state.memo.contains_key(id) ==> 0 <= id < arena.len() && register_value(
            m,
            state.code,
            state.memo[id],
        ) == shape_value(m, unfolded(arena, id))
}

/// What a register holds does not depend on the instructions after it.
pub proof fn lemma_register_stable(
    m: Meaning,
    before: Seq<InstructionView>,
    after: Seq<InstructionView>,
    n: int,
)
    requires
        continues(after, before),
        n <= before.len(),
    ensures
        register_value(m, after, n) == register_value(m, before, n),
    decreases n,
{
    if 1 <= n {
        let instruction = before[n - 1];
        assert(after[n - 1] == instruction);
        if instruction.left is Temp && 1 <= instruction.left->Temp_0 < n {
            lemma_register_stable(m, before, after, instruction.left->Temp_0);
        }
        if instruction.right is Temp && 1 <= instruction.right->Temp_0 < n {
            lemma_register_stable(m, before, after, instruction.right->Temp_0);
        }
    }
}

/// Lowering a node keeps the generator faithful, and the value returned is
/// worth what the node is worth.
pub proof fn lemma_emitted_faithful(m: Meaning, arena: Seq<NodeView>, id: int, state: Emitter)
    requires
        well_formed(arena),
        0 <= id < arena.len(),
        faithful(m, arena, state),
    ensures
        faithful(m, arena, emitted(arena, id, state).0),
        result_value(m, emitted(arena, id, state).0.code, emitted(arena, id, state).1)
            == shape_value(m, unfolded(arena, id)),
    decreases id,
{
    lemma_emitted_in_order(arena, id, state);
    let node = arena[id];
    if state.memo.contains_key(id) {
    } else if node.left is Some {
        let l = node.left->0;
        let r = node.right->0;
        lemma_emitted_faithful(m, arena, l, state);
        lemma_emitted_in_order(arena, l, state);
        let (after_left, left) = emitted(arena, l, state);
        lemma_emitted_faithful(m, arena, r, after_left);
        lemma_emitted_in_order(arena, r, after_left);
        let (after_right, right) = emitted(arena, r, after_left);
        let (last, value) = emitted(arena, id, state);
        let register = after_right.code.len() as int + 1;
        assert(continues(last.code, after_right.code));
        assert(last.code[register - 1] == InstructionView {
            op: opcode_of(node.label),
            left,
            right,
        });
        if left is Temp {
            lemma_register_stable(m, after_left.code, after_right.code, left->Temp_0);
            lemma_register_stable(m, after_right.code, last.code, left->Temp_0);
        }
        if right is Temp {
            lemma_register_stable(m, after_right.code, last.code, right->Temp_0);
        }
        assert(operand_value(m, last.code, left, register) == shape_value(
            m,
            unfolded(arena, l),
        ));
        assert(operand_value(m, last.code, right, register) == shape_value(
            m,
            unfolded(arena, r),
        ));
        assert(register_value(m, last.code, register) == shape_value(m, unfolded(arena, id)));
        assert forall|other: int| #[trigger] last.memo.contains_key(other) implies 0 <= other
            < arena.len() && register_value(m, last.code, last.memo[other]) == shape_value(
            m,
            unfolded(arena, other),
        ) by {
            if other != id {
                assert(after_right.memo.contains_key(other));
                lemma_register_stable(m, after_right.code, last.code, after_right.memo[other]);
            }
        }
    } else {
    }
}

/// The code of an expression computes the expression: whatever the leaves
/// are worth and whatever the opcodes do, the value that a fresh generator
/// returns for a node is worth what the node's tree is worth.
pub proof fn lemma_code_computes_node(m: Meaning, arena: Seq<NodeView>, root: int)
    requires
        well_formed(arena),
        0 <= root < arena.len(),
    ensures
        result_value(m, emitted(arena, root, fresh()).0.code, emitted(arena, root, fresh()).1)
            == shape_value(m, unfolded(arena, root)),
{
    lemma_emitted_faithful(m, arena, root, fresh());
}

/// From syntax tree to code nothing is lost: the code made from the graph
/// of a syntax tree computes what the tree's labels say, sharing or not.
pub proof fn lemma_code_computes_tree(m: Meaning, ast: AstView)
    ensures
        ({
            let (arena, root) = built(Seq::<NodeView>::empty(), ast);
            let (state, value) = emitted(arena, root, fresh());
            result_value(m, state.code, value) == shape_value(m, shape_of(ast))
        }),
{
    lemma_built(Seq::<NodeView>::empty(), ast);
    let (arena, root) = built(Seq::<NodeView>::empty(), ast);
    lemma_code_computes_node(m, arena, root);
}

} // verus!
