//! How two operators of equal priority group.
use crate::rpn::{emit_tier, emit_top, flush, is_operand, rpn_of, run, step, Yard};
use crate::token::Token;
use crate::tree::{forest_of, grow, tree_of, SyntaxError, AST};
use vstd::prelude::*;

verus! {

/// A binary operator: neither operand nor grouping marker.
pub open spec fn is_operator(t: Token) -> bool {
    t.token_type.priority >= 2 && !t.token_type.is_context
}

/// The tree of `operator` applied to `left` and `right`.
pub open spec fn node(operator: Token, left: AST, right: AST) -> AST {
    AST::ASTNode((operator, Box::new(right), Box::new(left)))
}

/// The yard after `a former b`, for operands `a`, `b` and an operator `former`.
proof fn lemma_run_first_operation(a: Token, former: Token, b: Token)
    requires
        is_operand(a),
        is_operand(b),
        is_operator(former),
    ensures
        run(seq![a, former, b]) == (Yard { output: seq![a, b], pending: seq![former] }),
{
    let s0 = Seq::<Token>::empty();
    let s1 = seq![a];
    let s2 = seq![a, former];
    let s3 = seq![a, former, b];
    assert(s1.drop_last() =~= s0);
    assert(s2.drop_last() =~= s1);
    assert(s3.drop_last() =~= s2);
    assert(run(s0) == Yard { output: Seq::empty(), pending: Seq::empty() });
    assert(run(s1) == step(run(s0), a));
    assert(run(s1).output =~= seq![a] && run(s1).pending =~= Seq::<Token>::empty());
    assert(run(s2) == step(run(s1), former));
    assert(run(s2).output =~= seq![a] && run(s2).pending =~= seq![former]);
    assert(run(s3) == step(run(s2), b));
    assert(run(s3).output =~= seq![a, b] && run(s3).pending =~= seq![former]);
}

/// The trees of three leaves joined by two operators in postfix order.
proof fn lemma_tree_of_two_operations(
    x: Token,
    y: Token,
    z: Token,
    inner: Token,
    outer: Token,
    inner_first: bool,
)
    requires
        is_operand(x),
        is_operand(y),
        is_operand(z),
        is_operator(inner),
        is_operator(outer),
    ensures
        inner_first ==> tree_of(seq![x, y, inner, z, outer]) == Ok::<AST, SyntaxError>(
            node(outer, node(inner, AST::Token(x), AST::Token(y)), AST::Token(z)),
        ),
        !inner_first ==> tree_of(seq![x, y, z, inner, outer]) == Ok::<AST, SyntaxError>(
            node(outer, AST::Token(x), node(inner, AST::Token(y), AST::Token(z))),
        ),
{
    let s0 = Seq::<Token>::empty();
    let s1 = seq![x];
    let s2 = seq![x, y];
    assert(s1.drop_last() =~= s0);
    assert(s2.drop_last() =~= s1);
    assert(forest_of(s0) == Ok::<Seq<AST>, SyntaxError>(Seq::empty()));
    let f1 = seq![AST::Token(x)];
    assert(Seq::<AST>::empty().push(AST::Token(x)) =~= f1);
    assert(forest_of(s1) == Ok::<Seq<AST>, SyntaxError>(f1));
    let f2 = seq![AST::Token(x), AST::Token(y)];
    assert(f1.push(AST::Token(y)) =~= f2);
    assert(forest_of(s2) == Ok::<Seq<AST>, SyntaxError>(f2));
    if inner_first {
        let s3 = seq![x, y, inner];
        let s4 = seq![x, y, inner, z];
        let s5 = seq![x, y, inner, z, outer];
        assert(s3.drop_last() =~= s2);
        assert(s4.drop_last() =~= s3);
        assert(s5.drop_last() =~= s4);
        let first = node(inner, AST::Token(x), AST::Token(y));
        let f3 = seq![first];
        assert(f2.take(0).push(first) =~= f3);
        assert(grow(f2, inner) == Ok::<Seq<AST>, SyntaxError>(f3));
        assert(forest_of(s3) == Ok::<Seq<AST>, SyntaxError>(f3));
        let f4 = seq![first, AST::Token(z)];
        assert(f3.push(AST::Token(z)) =~= f4);
        assert(forest_of(s4) == Ok::<Seq<AST>, SyntaxError>(f4));
        let whole = node(outer, first, AST::Token(z));
        let f5 = seq![whole];
        assert(f4.take(0).push(whole) =~= f5);
        assert(grow(f4, outer) == Ok::<Seq<AST>, SyntaxError>(f5));
        assert(forest_of(s5) == Ok::<Seq<AST>, SyntaxError>(f5));
    } else {
        let s3 = seq![x, y, z];
        let s4 = seq![x, y, z, inner];
        let s5 = seq![x, y, z, inner, outer];
        assert(s3.drop_last() =~= s2);
        assert(s4.drop_last() =~= s3);
        assert(s5.drop_last() =~= s4);
        let f3 = seq![AST::Token(x), AST::Token(y), AST::Token(z)];
        assert(f2.push(AST::Token(z)) =~= f3);
        assert(forest_of(s3) == Ok::<Seq<AST>, SyntaxError>(f3));
        let second = node(inner, AST::Token(y), AST::Token(z));
        let f4 = seq![AST::Token(x), second];
        assert(f3.take(1).push(second) =~= f4);
        assert(grow(f3, inner) == Ok::<Seq<AST>, SyntaxError>(f4));
        assert(forest_of(s4) == Ok::<Seq<AST>, SyntaxError>(f4));
        let whole = node(outer, AST::Token(x), second);
        let f5 = seq![whole];
        assert(f4.take(0).push(whole) =~= f5);
        assert(grow(f4, outer) == Ok::<Seq<AST>, SyntaxError>(f5));
        assert(forest_of(s5) == Ok::<Seq<AST>, SyntaxError>(f5));
    }
}

/// Of two operators of equal priority, the second of which does not group
/// to the right, the first is applied first.
/// `a former b latter c` becomes `a b former c latter`, the tree of `(a former b) latter c`.
pub proof fn lemma_equal_priority_groups_left(a: Token, former: Token, b: Token, latter: Token, c: Token)
    requires
        is_operand(a),
        is_operand(b),
        is_operand(c),
        is_operator(former),
        is_operator(latter),
        former.token_type.priority == latter.token_type.priority,
        !latter.token_type.assoc_right,
    ensures
        rpn_of(seq![a, former, b, latter, c]) == seq![a, b, former, c, latter],
        tree_of(rpn_of(seq![a, former, b, latter, c])) == Ok::<AST, SyntaxError>(
            node(latter, node(former, AST::Token(a), AST::Token(b)), AST::Token(c)),
        ),
{
    let s3 = seq![a, former, b];
    let s4 = seq![a, former, b, latter];
    let s5 = seq![a, former, b, latter, c];
    assert(s4.drop_last() =~= s3);
    assert(s5.drop_last() =~= s4);
    lemma_run_first_operation(a, former, b);
    let y3 = run(s3);
    let emitted = emit_top(y3);
    assert(emitted.output =~= seq![a, b, former] && emitted.pending =~= Seq::<Token>::empty());
    reveal_with_fuel(emit_tier, 2);
    assert(emit_tier(y3, latter.token_type.priority) == emitted);
    assert(run(s4) == step(y3, latter));
    assert(run(s4).output =~= seq![a, b, former] && run(s4).pending =~= seq![latter]);
    assert(run(s5) == step(run(s4), c));
    assert(run(s5).output =~= seq![a, b, former, c] && run(s5).pending =~= seq![latter]);
    let last = emit_top(run(s5));
    assert(last.output =~= seq![a, b, former, c, latter] && last.pending =~= Seq::<Token>::empty());
    reveal_with_fuel(flush, 2);
    assert(flush(run(s5)) == last);
    lemma_tree_of_two_operations(a, b, c, former, latter, true);
}

/// Of two operators of equal priority, the second of which groups to the
/// right, the second is applied first.
/// `a former b latter c` becomes `a b c latter former`, the tree of `a former (b latter c)`.
pub proof fn lemma_right_associative_groups_right(
    a: Token,
    former: Token,
    b: Token,
    latter: Token,
    c: Token,
)
    requires
        is_operand(a),
        is_operand(b),
        is_operand(c),
        is_operator(former),
        is_operator(latter),
        former.token_type.priority == latter.token_type.priority,
        latter.token_type.assoc_right,
    ensures
        rpn_of(seq![a, former, b, latter, c]) == seq![a, b, c, latter, former],
        tree_of(rpn_of(seq![a, former, b, latter, c])) == Ok::<AST, SyntaxError>(
            node(former, AST::Token(a), node(latter, AST::Token(b), AST::Token(c))),
        ),
{
    let s3 = seq![a, former, b];
    let s4 = seq![a, former, b, latter];
    let s5 = seq![a, former, b, latter, c];
    assert(s4.drop_last() =~= s3);
    assert(s5.drop_last() =~= s4);
    lemma_run_first_operation(a, former, b);
    let y3 = run(s3);
    assert(run(s4) == step(y3, latter));
    assert(run(s4).output =~= seq![a, b] && run(s4).pending =~= seq![former, latter]);
    assert(run(s5) == step(run(s4), c));
    assert(run(s5).output =~= seq![a, b, c] && run(s5).pending =~= seq![former, latter]);
    let first = emit_top(run(s5));
    assert(first.output =~= seq![a, b, c, latter] && first.pending =~= seq![former]);
    let second = emit_top(first);
    assert(second.output =~= seq![a, b, c, latter, former] && second.pending =~= Seq::<Token>::empty());
    reveal_with_fuel(flush, 3);
    assert(flush(run(s5)) == second);
    lemma_tree_of_two_operations(a, b, c, latter, former, false);
}

} // verus!
