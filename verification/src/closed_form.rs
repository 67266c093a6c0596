//! What each move of the conversion amounts to, without recursion: every
//! move emits the pending tokens above some position, top first, and keeps
//! the pending tokens below some position.
use crate::rpn::{
    close_group, emit_tier, emit_top, flush, is_operand, make_room, opens_for, rpn_of, run, step,
    Yard,
};
use crate::token::Token;
use vstd::prelude::*;

verus! {

/// The yard with the pending tokens from position `from` upward emitted, top
/// first, and the pending tokens below position `keep` kept.
pub open spec fn unwound(y: Yard, keep: int, from: int) -> Yard
    recommends
        0 <= keep <= from <= y.pending.len(),
{
    Yard { output: y.output + y.pending.skip(from).reverse(), pending: y.pending.take(keep) }
}

/// The position above which the pending tokens all have priority `priority`.
pub open spec fn tier_floor(pending: Seq<Token>, priority: i32) -> int
    decreases pending.len(),
{
    if pending.len() > 0 && pending.last().token_type.priority == priority {
        tier_floor(pending.drop_last(), priority)
    } else {
        pending.len() as int
    }
}

/// The position of the topmost pending token that opens the group of
/// `closer`, or `-1` if there is none.
pub open spec fn nearest_opener(pending: Seq<Token>, closer: Token) -> int
    decreases pending.len(),
{
    if pending.len() == 0 {
        -1
    } else if opens_for(pending.last(), closer) {
        pending.len() - 1
    } else {
        nearest_opener(pending.drop_last(), closer)
    }
}

/// The position from which an arriving token `t` emits the pending tokens.
pub open spec fn emit_from(pending: Seq<Token>, t: Token) -> int {
    if is_operand(t) {
        pending.len() as int
    } else if t.token_type.is_context {
        nearest_opener(pending, t) + 1
    } else if pending.len() > 0 && t.token_type.priority > 1 {
        if t.token_type.priority < pending.last().token_type.priority {
            0
        } else if !t.token_type.assoc_right && t.token_type.priority
            == pending.last().token_type.priority {
            tier_floor(pending, t.token_type.priority)
        } else {
            pending.len() as int
        }
    } else {
        pending.len() as int
    }
}

/// The pending stack after an arriving token `t`.
pub open spec fn pending_after(pending: Seq<Token>, t: Token) -> Seq<Token> {
    if is_operand(t) {
        pending
    } else if t.token_type.is_context {
        let opener = nearest_opener(pending, t);
        if opener < 0 {
            Seq::empty()
        } else {
            pending.take(opener)
        }
    } else {
        pending.take(emit_from(pending, t)).push(t)
    }
}

/// What an arriving token `t` adds to the output.
pub open spec fn emitted_by(pending: Seq<Token>, t: Token) -> Seq<Token> {
    if is_operand(t) {
        seq![t]
    } else {
        pending.skip(emit_from(pending, t)).reverse()
    }
}

/// Emitting the top first and the rest later is emitting all at once.
proof fn lemma_unwound_after_top(y: Yard, keep: int, from: int)
    requires
        0 <= keep <= from < y.pending.len(),
    ensures
        unwound(emit_top(y), keep, from) == unwound(y, keep, from),
{
    let z = emit_top(y);
    assert(z.pending.take(keep) =~= y.pending.take(keep));
    assert(z.output + z.pending.skip(from).reverse() =~= y.output + y.pending.skip(
        from,
    ).reverse());
}

/// Emitting nothing changes nothing.
proof fn lemma_unwound_nothing(y: Yard)
    ensures
        unwound(y, y.pending.len() as int, y.pending.len() as int) == y,
{
    let n = y.pending.len() as int;
    assert(y.pending.take(n) =~= y.pending);
    assert(y.output + y.pending.skip(n).reverse() =~= y.output);
}

/// [`flush`] emits every pending token.
pub proof fn lemma_flush_closed_form(y: Yard)
    ensures
        flush(y) == unwound(y, 0, 0),
    decreases y.pending.len(),
{
    if y.pending.len() == 0 {
        lemma_unwound_nothing(y);
    } else {
        lemma_flush_closed_form(emit_top(y));
        lemma_unwound_after_top(y, 0, 0);
    }
}

/// The tier floor lies within the stack, the tokens above it have the
/// priority of the tier, and the token below it has not.
pub proof fn lemma_tier_floor(pending: Seq<Token>, priority: i32)
    ensures
        0 <= tier_floor(pending, priority) <= pending.len(),
        forall|i: int|
            tier_floor(pending, priority) <= i < pending.len() ==> (
            #[trigger] pending[i]).token_type.priority == priority,
        tier_floor(pending, priority) > 0 ==> pending[tier_floor(pending, priority)
            - 1].token_type.priority != priority,
    decreases pending.len(),
{
    if pending.len() > 0 && pending.last().token_type.priority == priority {
        let rest = pending.drop_last();
        lemma_tier_floor(rest, priority);
        assert forall|i: int| tier_floor(pending, priority) <= i < pending.len() implies (
        #[trigger] pending[i]).token_type.priority == priority by {
            if i < rest.len() {
                assert(rest[i] == pending[i]);
            }
        }
        if tier_floor(pending, priority) > 0 {
            assert(rest[tier_floor(pending, priority) - 1] == pending[tier_floor(
                pending,
                priority,
            ) - 1]);
        }
    }
}

/// [`emit_tier`] emits the pending tokens above the tier floor.
pub proof fn lemma_emit_tier_closed_form(y: Yard, priority: i32)
    ensures
        emit_tier(y, priority) == unwound(
            y,
            tier_floor(y.pending, priority),
            tier_floor(y.pending, priority),
        ),
    decreases y.pending.len(),
{
    if y.pending.len() > 0 && y.pending.last().token_type.priority == priority {
        let floor = tier_floor(y.pending, priority);
        lemma_tier_floor(y.pending.drop_last(), priority);
        lemma_emit_tier_closed_form(emit_top(y), priority);
        lemma_unwound_after_top(y, floor, floor);
    } else {
        lemma_unwound_nothing(y);
    }
}

/// The nearest opener lies within the stack and opens the group, and no
/// token above it does.
pub proof fn lemma_nearest_opener(pending: Seq<Token>, closer: Token)
    ensures
        -1 <= nearest_opener(pending, closer) < pending.len(),
        nearest_opener(pending, closer) >= 0 ==> opens_for(
            pending[nearest_opener(pending, closer)],
            closer,
        ),
        forall|i: int|
            nearest_opener(pending, closer) < i < pending.len() ==> !opens_for(
                #[trigger] pending[i],
                closer,
            ),
    decreases pending.len(),
{
    if pending.len() > 0 && !opens_for(pending.last(), closer) {
        let rest = pending.drop_last();
        lemma_nearest_opener(rest, closer);
        assert forall|i: int| nearest_opener(pending, closer) < i < pending.len() implies !opens_for(
            #[trigger] pending[i],
            closer,
        ) by {
            if i < rest.len() {
                assert(rest[i] == pending[i]);
            }
        }
        if nearest_opener(pending, closer) >= 0 {
            assert(rest[nearest_opener(pending, closer)] == pending[nearest_opener(
                pending,
                closer,
            )]);
        }
    }
}

/// [`close_group`] emits the pending tokens above the nearest opener and
/// drops the opener; without an opener it emits every pending token.
pub proof fn lemma_close_group_closed_form(y: Yard, closer: Token)
    ensures
        close_group(y, closer) == if nearest_opener(y.pending, closer) < 0 {
            unwound(y, 0, 0)
        } else {
            unwound(y, nearest_opener(y.pending, closer), nearest_opener(y.pending, closer) + 1)
        },
    decreases y.pending.len(),
{
    let opener = nearest_opener(y.pending, closer);
    if y.pending.len() == 0 {
        lemma_unwound_nothing(y);
    } else if opens_for(y.pending.last(), closer) {
        assert(y.pending.take(opener) =~= y.pending.drop_last());
        assert(y.output + y.pending.skip(opener + 1).reverse() =~= y.output);
    } else {
        lemma_nearest_opener(y.pending.drop_last(), closer);
        lemma_close_group_closed_form(emit_top(y), closer);
        if opener < 0 {
            lemma_unwound_after_top(y, 0, 0);
        } else {
            lemma_unwound_after_top(y, opener, opener + 1);
        }
    }
}

/// The position from which a token emits lies within the stack.
pub proof fn lemma_emit_from_in_range(pending: Seq<Token>, t: Token)
    ensures
        0 <= emit_from(pending, t) <= pending.len(),
{
    lemma_nearest_opener(pending, t);
    lemma_tier_floor(pending, t.token_type.priority);
}

/// One step of the conversion appends [`emitted_by`] to the output and
/// leaves [`pending_after`] pending.
pub proof fn lemma_step_closed_form(y: Yard, t: Token)
    ensures
        step(y, t) == (Yard {
            output: y.output + emitted_by(y.pending, t),
            pending: pending_after(y.pending, t),
        }),
{
    let from = emit_from(y.pending, t);
    lemma_emit_from_in_range(y.pending, t);
    if is_operand(t) {
        assert(y.output.push(t) =~= y.output + seq![t]);
    } else if t.token_type.is_context {
        lemma_close_group_closed_form(y, t);
        assert(y.pending.take(0) =~= Seq::<Token>::empty());
    } else {
        lemma_flush_closed_form(y);
        lemma_emit_tier_closed_form(y, t.token_type.priority);
        lemma_unwound_nothing(y);
        assert(make_room(y, t) == unwound(y, from, from));
    }
}

/// The yard after a sequence that ends with `tokens.last()`.
pub proof fn lemma_run_closed_form(tokens: Seq<Token>)
    requires
        tokens.len() > 0,
    ensures
        run(tokens).output == run(tokens.drop_last()).output + emitted_by(
            run(tokens.drop_last()).pending,
            tokens.last(),
        ),
        run(tokens).pending == pending_after(run(tokens.drop_last()).pending, tokens.last()),
{
    lemma_step_closed_form(run(tokens.drop_last()), tokens.last());
}

/// The output of the conversion is what the run emitted, then what it left
/// pending, top first.
pub proof fn lemma_rpn_closed_form(tokens: Seq<Token>)
    ensures
        rpn_of(tokens) == run(tokens).output + run(tokens).pending.reverse(),
{
    lemma_flush_closed_form(run(tokens));
    assert(run(tokens).pending.skip(0) =~= run(tokens).pending);
}

} // verus!
