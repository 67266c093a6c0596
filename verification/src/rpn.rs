//! The shunting-yard conversion from infix order to postfix order.
use crate::token::Token;
use crate::tree::AST;
use vstd::prelude::*;

verus! {

/// The two stacks of the conversion. The top of `pending` is its last element.
pub struct Yard {
    /// What has been emitted so far, in postfix order.
    pub output: Seq<Token>,
    /// Operators and opening markers that wait for their operands.
    pub pending: Seq<Token>,
}

/// An operand goes straight to the output.
pub open spec fn is_operand(t: Token) -> bool {
    t.token_type.priority == 0
}

/// A closing marker unwinds the pending stack to its opening marker.
pub open spec fn is_closing(t: Token) -> bool {
    !is_operand(t) && t.token_type.is_context
}

/// `opener` belongs to the category that `closer` pairs with.
pub open spec fn opens_for(opener: Token, closer: Token) -> bool {
    opener.token_type.typename@ == closer.token_type.context_match@
}

/// Moves the top of the pending stack to the output.
pub open spec fn emit_top(y: Yard) -> Yard
    recommends
        y.pending.len() > 0,
{
    Yard { output: y.output.push(y.pending.last()), pending: y.pending.drop_last() }
}

/// Moves the whole pending stack to the output, top first.
pub open spec fn flush(y: Yard) -> Yard
    decreases y.pending.len(),
{
    if y.pending.len() == 0 {
        y
    } else {
        flush(emit_top(y))
    }
}

/// Emits pending tokens down to the nearest opening marker of `closer`,
/// which is dropped. Without such a marker the stack is emptied.
pub open spec fn close_group(y: Yard, closer: Token) -> Yard
    decreases y.pending.len(),
{
    if y.pending.len() == 0 {
        y
    } else if opens_for(y.pending.last(), closer) {
        Yard { output: y.output, pending: y.pending.drop_last() }
    } else {
        close_group(emit_top(y), closer)
    }
}

/// Emits the pending tokens of priority `priority` that lie on top.
pub open spec fn emit_tier(y: Yard, priority: i32) -> Yard
    decreases y.pending.len(),
{
    if y.pending.len() > 0 && y.pending.last().token_type.priority == priority {
        emit_tier(emit_top(y), priority)
    } else {
        y
    }
}

/// What an arriving token `t`, neither operand nor closing marker, emits
/// before it is pushed: everything if it binds looser than the top, the top
/// tier if it binds as tight and groups to the left, else nothing.
pub open spec fn make_room(y: Yard, t: Token) -> Yard {
    if y.pending.len() > 0 && t.token_type.priority > 1 {
        if t.token_type.priority < y.pending.last().token_type.priority {
            flush(y)
        } else if !t.token_type.assoc_right && t.token_type.priority
            == y.pending.last().token_type.priority {
            emit_tier(y, t.token_type.priority)
        } else {
            y
        }
    } else {
        y
    }
}

/// The yard after one more token.
pub open spec fn step(y: Yard, t: Token) -> Yard {
    if is_operand(t) {
        Yard { output: y.output.push(t), pending: y.pending }
    } else if t.token_type.is_context {
        close_group(y, t)
    } else {
        let r = make_room(y, t);
        Yard { output: r.output, pending: r.pending.push(t) }
    }
}

/// The yard after the tokens of `tokens`, taken from left to right.
pub open spec fn run(tokens: Seq<Token>) -> Yard
    decreases tokens.len(),
{
    if tokens.len() == 0 {
        Yard { output: Seq::empty(), pending: Seq::empty() }
    } else {
        step(run(tokens.drop_last()), tokens.last())
    }
}

/// The postfix form of `tokens`.
pub open spec fn rpn_of(tokens: Seq<Token>) -> Seq<Token> {
    flush(run(tokens)).output
}

/// Executable counterpart of [`flush`].
fn flush_pending(output: &mut Vec<Token>, pending: &mut Vec<Token>)
    ensures
        (Yard { output: final(output)@, pending: final(pending)@ }) == flush(
            Yard { output: old(output)@, pending: old(pending)@ },
        ),
{
    while pending.len() > 0
        invariant
            flush(Yard { output: output@, pending: pending@ }) == flush(
                Yard { output: old(output)@, pending: old(pending)@ },
            ),
        decreases pending.len(),
    {
        let top = pending.pop().unwrap();
        output.push(top);
    }
}

/// Executable counterpart of [`close_group`].
fn close_pending(output: &mut Vec<Token>, pending: &mut Vec<Token>, closer: &Token)
    ensures
        (Yard { output: final(output)@, pending: final(pending)@ }) == close_group(
            Yard { output: old(output)@, pending: old(pending)@ },
            *closer,
        ),
{
    while pending.len() > 0 && pending[pending.len() - 1].token_type.typename
        != closer.token_type.context_match
        invariant
            close_group(Yard { output: output@, pending: pending@ }, *closer) == close_group(
                Yard { output: old(output)@, pending: old(pending)@ },
                *closer,
            ),
        decreases pending.len(),
    {
        let top = pending.pop().unwrap();
        output.push(top);
    }
    pending.pop();
}

/// Executable counterpart of [`emit_tier`].
fn emit_pending_tier(output: &mut Vec<Token>, pending: &mut Vec<Token>, priority: i32)
    ensures
        (Yard { output: final(output)@, pending: final(pending)@ }) == emit_tier(
            Yard { output: old(output)@, pending: old(pending)@ },
            priority,
        ),
{
    while pending.len() > 0 && pending[pending.len() - 1].get_priority() == priority
        invariant
            emit_tier(Yard { output: output@, pending: pending@ }, priority) == emit_tier(
                Yard { output: old(output)@, pending: old(pending)@ },
                priority,
            ),
        decreases pending.len(),
    {
        let top = pending.pop().unwrap();
        output.push(top);
    }
}

impl AST {
    /// Reorders an infix token sequence into postfix order.
    ///
    /// Operands keep their order. An operator waits on a stack until a token
    /// that binds looser, or as tight and to the left, arrives. A closing
    /// marker emits what waits above its opening marker and drops the marker.
    ///
    /// An operator that binds looser than the top of the stack empties the
    /// whole stack, not only the operators that bind tighter than it, and
    /// opening markers go out with them. The result then differs from
    /// standard precedence: `1 + 2 ^ 3 * 4` becomes `1 2 3 ^ + 4 *`, and
    /// `( 3 * 4 + 5 )` becomes `3 4 * ( 5 +`.
    ///
    /// A closing marker without an opening one empties the stack, and an
    /// opening marker that is never closed is emitted like an operator.
    /// None of this is reported.
    pub fn to_rpn(tokens: Vec<Token>) -> (rpn: Vec<Token>)
        ensures
            rpn@ == rpn_of(tokens@),
    {
        let mut pending: Vec<Token> = Vec::new();
        let mut output: Vec<Token> = Vec::new();
        let ghost input = tokens@;

        for token in it: tokens
            invariant
                it.seq() == input,
                (Yard { output: output@, pending: pending@ }) == run(input.take(it.index() as int)),
        {
            proof {
                assert(input.take(it.index() + 1).drop_last() =~= input.take(it.index() as int));
            }
            if token.token_type.priority == 0 {
                output.push(token);
            } else if token.token_type.is_context {
                close_pending(&mut output, &mut pending, &token);
            } else {
                if pending.len() > 0 && token.get_priority() > 1 {
                    if token.get_priority() < pending[pending.len() - 1].get_priority() {
                        flush_pending(&mut output, &mut pending);
                    } else if !token.is_right_assoc() && token.get_priority()
                        == pending[pending.len() - 1].get_priority() {
                        emit_pending_tier(&mut output, &mut pending, token.get_priority());
                    }
                }
                pending.push(token);
            }
        }

        proof {
            assert(input.take(input.len() as int) =~= input);
        }
        flush_pending(&mut output, &mut pending);
        output
    }
}

} // verus!
