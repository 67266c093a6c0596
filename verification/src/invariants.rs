//! What the conversion keeps, whatever it is given: operands pass through
//! in their order, and grouping markers do not reach the output.
use crate::closed_form::{
    emit_from, emitted_by, lemma_emit_from_in_range, lemma_nearest_opener, lemma_rpn_closed_form,
    lemma_run_closed_form, nearest_opener, pending_after,
};
use crate::order::{lemma_filter_none, lemma_filter_one};
use crate::rpn::{is_closing, is_operand, opens_for, rpn_of, run};
use crate::token::Token;
use vstd::prelude::*;
use vstd::multiset::Multiset;
use vstd::seq_lib::lemma_multiset_commutative;

verus! {

/// Selects the operands.
pub open spec fn operands() -> spec_fn(Token) -> bool {
    |t: Token| is_operand(t)
}

/// Selects the closing markers.
pub open spec fn closings() -> spec_fn(Token) -> bool {
    |t: Token| is_closing(t)
}

/// An opening marker: a grouping token that closes nothing.
pub open spec fn is_opening(t: Token) -> bool {
    t.token_type.priority == 1 && !t.token_type.is_context
}

/// Selects the opening markers.
pub open spec fn openings() -> spec_fn(Token) -> bool {
    |t: Token| is_opening(t)
}

/// No token of `tokens` is selected by `selects`.
pub open spec fn none_of(tokens: Seq<Token>, selects: spec_fn(Token) -> bool) -> bool {
    forall|i: int| 0 <= i < tokens.len() ==> !selects(#[trigger] tokens[i])
}

/// Two sequences hold nothing selected exactly if their concatenation
/// holds nothing selected.
proof fn lemma_none_of_concat(a: Seq<Token>, b: Seq<Token>, selects: spec_fn(Token) -> bool)
    ensures
        none_of(a + b, selects) <==> none_of(a, selects) && none_of(b, selects),
{
    if none_of(a + b, selects) {
        assert forall|i: int| 0 <= i < a.len() implies !selects(#[trigger] a[i]) by {
            assert((a + b)[i] == a[i]);
        }
        assert forall|i: int| 0 <= i < b.len() implies !selects(#[trigger] b[i]) by {
            assert((a + b)[a.len() + i] == b[i]);
        }
    }
    if none_of(a, selects) && none_of(b, selects) {
        assert forall|i: int| 0 <= i < (a + b).len() implies !selects(#[trigger] (a + b)[i]) by {
            if i < a.len() {
                assert((a + b)[i] == a[i]);
            } else {
                assert((a + b)[i] == b[i - a.len()]);
            }
        }
    }
}

/// A sequence holds nothing selected exactly if its reverse holds nothing
/// selected.
proof fn lemma_none_of_reverse(s: Seq<Token>, selects: spec_fn(Token) -> bool)
    ensures
        none_of(s.reverse(), selects) <==> none_of(s, selects),
{
    let r = s.reverse();
    if none_of(r, selects) {
        assert forall|i: int| 0 <= i < s.len() implies !selects(#[trigger] s[i]) by {
            assert(r[s.len() - 1 - i] == s[i]);
        }
    }
    if none_of(s, selects) {
        assert forall|i: int| 0 <= i < r.len() implies !selects(#[trigger] r[i]) by {
            assert(r[i] == s[s.len() - 1 - i]);
        }
    }
}

/// What holds nothing selected has no part that holds something selected.
proof fn lemma_none_of_skip(s: Seq<Token>, from: int, selects: spec_fn(Token) -> bool)
    requires
        0 <= from <= s.len(),
        none_of(s, selects),
    ensures
        none_of(s.skip(from), selects),
        none_of(s.take(from), selects),
{
    assert forall|i: int| 0 <= i < s.skip(from).len() implies !selects(
        #[trigger] s.skip(from)[i],
    ) by {
        assert(s.skip(from)[i] == s[from + i]);
    }
    assert forall|i: int| 0 <= i < s.take(from).len() implies !selects(
        #[trigger] s.take(from)[i],
    ) by {
        assert(s.take(from)[i] == s[i]);
    }
}

/// Only tokens that are neither operands nor closing markers wait on the
/// pending stack.
pub proof fn lemma_pending_holds_operators(tokens: Seq<Token>)
    ensures
        none_of(run(tokens).pending, operands()),
        none_of(run(tokens).pending, closings()),
        forall|i: int|
            0 <= i < run(tokens).pending.len() ==> !(
            #[trigger] run(tokens).pending[i]).token_type.is_context,
    decreases tokens.len(),
{
    if tokens.len() > 0 {
        let before = run(tokens.drop_last()).pending;
        let t = tokens.last();
        let after = run(tokens).pending;
        lemma_pending_holds_operators(tokens.drop_last());
        lemma_run_closed_form(tokens);
        lemma_emit_from_in_range(before, t);
        assert forall|i: int| 0 <= i < after.len() implies !is_operand(#[trigger] after[i]) && !(
        after[i]).token_type.is_context by {
            if !is_operand(t) && !t.token_type.is_context && i == emit_from(before, t) {
                assert(after[i] == t);
            } else {
                assert(after[i] == before[i]);
            }
        }
    }
}

/// The operands of the output are the operands of the input, each once and
/// in the same order.
pub proof fn lemma_operands_pass_through(tokens: Seq<Token>)
    ensures
        rpn_of(tokens).filter(operands()) == tokens.filter(operands()),
{
    let y = run(tokens);
    lemma_emitted_operands(tokens);
    lemma_rpn_closed_form(tokens);
    lemma_pending_holds_operators(tokens);
    lemma_none_of_reverse(y.pending, operands());
    lemma_filter_none(y.pending.reverse(), operands());
    Seq::filter_distributes_over_add(y.output, y.pending.reverse(), operands());
    assert(y.output.filter(operands()) + Seq::<Token>::empty() =~= y.output.filter(operands()));
}

/// The operands that a run has emitted are the operands it has read.
proof fn lemma_emitted_operands(tokens: Seq<Token>)
    ensures
        run(tokens).output.filter(operands()) == tokens.filter(operands()),
    decreases tokens.len(),
{
    reveal(Seq::filter);
    if tokens.len() > 0 {
        let before = run(tokens.drop_last());
        let t = tokens.last();
        let emitted = emitted_by(before.pending, t);
        lemma_emitted_operands(tokens.drop_last());
        lemma_run_closed_form(tokens);
        Seq::filter_distributes_over_add(before.output, emitted, operands());
        let kept = before.output.filter(operands());
        if is_operand(t) {
            lemma_filter_one(t, operands());
            assert(kept + seq![t] =~= kept.push(t));
        } else {
            lemma_pending_holds_operators(tokens.drop_last());
            lemma_emit_from_in_range(before.pending, t);
            lemma_none_of_skip(before.pending, emit_from(before.pending, t), operands());
            lemma_none_of_reverse(before.pending.skip(emit_from(before.pending, t)), operands());
            lemma_filter_none(emitted, operands());
            assert(kept + Seq::<Token>::empty() =~= kept);
        }
    }
}

/// No closing marker reaches the output, whatever the input.
pub proof fn lemma_closing_markers_vanish(tokens: Seq<Token>)
    ensures
        none_of(rpn_of(tokens), closings()),
{
    let y = run(tokens);
    lemma_emitted_closings(tokens);
    lemma_rpn_closed_form(tokens);
    lemma_pending_holds_operators(tokens);
    lemma_none_of_reverse(y.pending, closings());
    lemma_none_of_concat(y.output, y.pending.reverse(), closings());
}

/// A run emits no closing marker.
proof fn lemma_emitted_closings(tokens: Seq<Token>)
    ensures
        none_of(run(tokens).output, closings()),
    decreases tokens.len(),
{
    if tokens.len() > 0 {
        let before = run(tokens.drop_last());
        let t = tokens.last();
        let emitted = emitted_by(before.pending, t);
        lemma_emitted_closings(tokens.drop_last());
        lemma_run_closed_form(tokens);
        if is_operand(t) {
            assert(none_of(emitted, closings()));
        } else {
            lemma_pending_holds_operators(tokens.drop_last());
            lemma_emit_from_in_range(before.pending, t);
            lemma_none_of_skip(before.pending, emit_from(before.pending, t), closings());
            lemma_none_of_reverse(before.pending.skip(emit_from(before.pending, t)), closings());
        }
        lemma_none_of_concat(before.output, emitted, closings());
    }
}

/// `t` is no closing marker, and no closing marker of `tokens` pairs with
/// its category.
pub open spec fn is_unpaired(tokens: Seq<Token>, t: Token) -> bool {
    &&& !is_closing(t)
    &&& forall|j: int|
        0 <= j < tokens.len() && is_closing(#[trigger] tokens[j]) ==> !opens_for(t, tokens[j])
}

/// How often `t` stands in `tokens`.
pub open spec fn occurs(tokens: Seq<Token>, t: Token) -> nat {
    tokens.to_multiset().count(t)
}

/// A token stands in a concatenation as often as in its two parts together.
proof fn lemma_occurs_concat(a: Seq<Token>, b: Seq<Token>, t: Token)
    ensures
        occurs(a + b, t) == occurs(a, t) + occurs(b, t),
{
    broadcast use vstd::multiset::group_multiset_axioms;

    lemma_multiset_commutative(a, b);
}

/// No token stands in the empty sequence.
proof fn lemma_occurs_none(t: Token)
    ensures
        occurs(Seq::<Token>::empty(), t) == 0,
{
    broadcast use vstd::multiset::group_multiset_axioms;

    Seq::<Token>::empty().to_multiset_ensures();
    assert(Seq::<Token>::empty().to_multiset().len() == 0);
    assert(Seq::<Token>::empty().to_multiset() =~= Multiset::<Token>::empty());
}

/// A token stands in a sequence of one token once if it is that token, and
/// else not at all.
proof fn lemma_occurs_one(x: Token, t: Token)
    ensures
        occurs(seq![x], t) == if x == t {
            1nat
        } else {
            0nat
        },
{
    broadcast use vstd::multiset::group_multiset_axioms;

    lemma_occurs_none(t);
    Seq::<Token>::empty().to_multiset_ensures();
    assert(Seq::<Token>::empty().push(x) =~= seq![x]);
}

/// A token stands in the part of a stack that is emitted from `from` upward
/// and in the part below `keep` as often as in the whole stack, but for the
/// tokens between the two.
proof fn lemma_occurs_unwound(pending: Seq<Token>, keep: int, from: int, t: Token)
    requires
        0 <= keep <= from <= pending.len(),
        forall|i: int| keep <= i < from ==> pending[i] != t,
    ensures
        occurs(pending.skip(from).reverse(), t) + occurs(pending.take(keep), t) == occurs(
            pending,
            t,
        ),
    decreases from - keep,
{
    let below = pending.take(keep);
    let above = pending.skip(from);
    above.lemma_reverse_to_multiset();
    if keep == from {
        assert(pending =~= below + above);
        lemma_occurs_concat(below, above, t);
    } else {
        lemma_occurs_unwound(pending, keep + 1, from, t);
        assert(pending.take(keep + 1) =~= below + seq![pending[keep]]);
        lemma_occurs_concat(below, seq![pending[keep]], t);
        lemma_occurs_one(pending[keep], t);
    }
}

/// What a run has emitted and what it has left pending hold an unpaired
/// token as often as the run has read it.
proof fn lemma_run_keeps_unpaired(tokens: Seq<Token>, t: Token)
    requires
        is_unpaired(tokens, t),
    ensures
        occurs(run(tokens).output, t) + occurs(run(tokens).pending, t) == occurs(tokens, t),
    decreases tokens.len(),
{
    if tokens.len() == 0 {
        assert(tokens =~= Seq::<Token>::empty());
        lemma_occurs_none(t);
    } else {
        let read = tokens.drop_last();
        let x = tokens.last();
        let before = run(read);
        let from = emit_from(before.pending, x);
        assert(is_unpaired(read, t)) by {
            assert forall|j: int| 0 <= j < read.len() && is_closing(
                #[trigger] read[j],
            ) implies !opens_for(t, read[j]) by {
                assert(read[j] == tokens[j]);
            }
        }
        lemma_run_keeps_unpaired(read, t);
        lemma_run_closed_form(tokens);
        lemma_emit_from_in_range(before.pending, x);
        lemma_nearest_opener(before.pending, x);
        assert(tokens =~= read + seq![x]);
        lemma_occurs_concat(read, seq![x], t);
        lemma_occurs_one(x, t);
        lemma_occurs_concat(before.output, emitted_by(before.pending, x), t);
        if is_operand(x) {
        } else if x.token_type.is_context {
            assert(is_closing(tokens[tokens.len() - 1]));
            let opener = nearest_opener(before.pending, x);
            if opener < 0 {
                assert(before.pending.take(0) =~= Seq::<Token>::empty());
                lemma_occurs_none(t);
                lemma_occurs_unwound(before.pending, 0, 0, t);
            } else {
                lemma_occurs_unwound(before.pending, opener, opener + 1, t);
            }
        } else {
            lemma_occurs_unwound(before.pending, from, from, t);
            assert(before.pending.take(from).push(x) =~= before.pending.take(from) + seq![x]);
            lemma_occurs_concat(before.pending.take(from), seq![x], t);
        }
    }
}

/// A token that is no closing marker, and whose category no closing marker
/// of the input pairs with, stands in the output as often as in the input:
/// operands and operators come out exactly once each.
pub proof fn lemma_unpaired_tokens_pass_through(tokens: Seq<Token>, t: Token)
    requires
        is_unpaired(tokens, t),
    ensures
        occurs(rpn_of(tokens), t) == occurs(tokens, t),
{
    let y = run(tokens);
    lemma_run_keeps_unpaired(tokens, t);
    lemma_rpn_closed_form(tokens);
    lemma_occurs_concat(y.output, y.pending.reverse(), t);
    y.pending.lemma_reverse_to_multiset();
}

/// The arriving token `t` moves no opening marker from the pending stack to
/// the output.
pub open spec fn spares_openings(pending: Seq<Token>, t: Token) -> bool {
    none_of(pending.skip(emit_from(pending, t)), openings())
}

/// No token of `tokens` has moved an opening marker to the output.
pub open spec fn spares_openings_so_far(tokens: Seq<Token>) -> bool
    decreases tokens.len(),
{
    tokens.len() == 0 || (spares_openings_so_far(tokens.drop_last()) && spares_openings(
        run(tokens.drop_last()).pending,
        tokens.last(),
    ))
}

/// Every group of `tokens` is resolved: wherever tokens leave the pending
/// stack for the output, no opening marker is among them. That is, each
/// closing marker finds its opening marker with no other opening marker
/// above it, an operator that binds looser than the top of the stack finds
/// no opening marker pending, and none is pending at the end.
pub open spec fn groups_resolve(tokens: Seq<Token>) -> bool {
    spares_openings_so_far(tokens) && none_of(run(tokens).pending, openings())
}

/// A run has emitted no opening marker exactly if each of its tokens spared
/// the opening markers.
proof fn lemma_emitted_openings(tokens: Seq<Token>)
    ensures
        none_of(run(tokens).output, openings()) <==> spares_openings_so_far(tokens),
    decreases tokens.len(),
{
    if tokens.len() > 0 {
        let before = run(tokens.drop_last());
        let t = tokens.last();
        let emitted = emitted_by(before.pending, t);
        lemma_emitted_openings(tokens.drop_last());
        lemma_run_closed_form(tokens);
        lemma_emit_from_in_range(before.pending, t);
        lemma_none_of_concat(before.output, emitted, openings());
        if is_operand(t) {
            assert(none_of(emitted, openings()));
            assert(before.pending.skip(before.pending.len() as int) =~= Seq::<Token>::empty());
        } else {
            lemma_none_of_reverse(before.pending.skip(emit_from(before.pending, t)), openings());
        }
    }
}

/// Where every group is resolved, no opening marker reaches the output.
pub proof fn lemma_opening_markers_vanish(tokens: Seq<Token>)
    requires
        groups_resolve(tokens),
    ensures
        none_of(rpn_of(tokens), openings()),
{
    let y = run(tokens);
    lemma_emitted_openings(tokens);
    lemma_rpn_closed_form(tokens);
    lemma_none_of_reverse(y.pending, openings());
    lemma_none_of_concat(y.output, y.pending.reverse(), openings());
}

/// Where some group is not resolved, an opening marker reaches the output.
pub proof fn lemma_opening_marker_survives(tokens: Seq<Token>)
    requires
        !groups_resolve(tokens),
    ensures
        !none_of(rpn_of(tokens), openings()),
{
    let y = run(tokens);
    lemma_emitted_openings(tokens);
    lemma_rpn_closed_form(tokens);
    lemma_none_of_reverse(y.pending, openings());
    lemma_none_of_concat(y.output, y.pending.reverse(), openings());
}

} // verus!
