//! The conversion and the tree builder read nothing of a token but its
//! contents, so equal inputs give equal results.
use crate::closed_form::{
    emit_from, emitted_by, lemma_emit_from_in_range, lemma_nearest_opener, lemma_rpn_closed_form,
    lemma_run_closed_form, lemma_tier_floor, nearest_opener, pending_after, tier_floor,
};
use crate::order::{is_stable_ordering, lemma_stable_ordering_unique, view_start};
use crate::rpn::{is_operand, opens_for, rpn_of, run};
use crate::scan::{all_compile, found_in, views, ScanError};
use crate::token::{Token, TokenType};
use crate::tree::{forest_of, grow, tree_of, SyntaxError, TreeView, AST};
use vstd::prelude::*;

verus! {

/// Two token sequences have the same contents, token by token.
pub open spec fn alike(a: Seq<Token>, b: Seq<Token>) -> bool {
    views(a) == views(b)
}

/// Sequences with the same contents have the same length and, at each
/// position, tokens with the same contents.
proof fn lemma_alike_pointwise(a: Seq<Token>, b: Seq<Token>)
    requires
        alike(a, b),
    ensures
        a.len() == b.len(),
        forall|i: int| 0 <= i < a.len() ==> (#[trigger] a[i])@ == b[i]@,
{
    assert(views(a).len() == a.len());
    assert(views(b).len() == b.len());
    assert forall|i: int| 0 <= i < a.len() implies (#[trigger] a[i])@ == b[i]@ by {
        assert(views(a)[i] == a[i]@);
        assert(views(b)[i] == b[i]@);
    }
}

/// Tokens with the same contents at each position make sequences with the
/// same contents.
proof fn lemma_pointwise_alike(a: Seq<Token>, b: Seq<Token>)
    requires
        a.len() == b.len(),
        forall|i: int| 0 <= i < a.len() ==> (#[trigger] a[i])@ == b[i]@,
    ensures
        alike(a, b),
{
    assert(views(a) =~= views(b));
}

/// Equal parts of sequences with the same contents have the same contents.
proof fn lemma_alike_parts(a: Seq<Token>, b: Seq<Token>, at: int)
    requires
        alike(a, b),
        0 <= at <= a.len(),
    ensures
        alike(a.take(at), b.take(at)),
        alike(a.skip(at), b.skip(at)),
        alike(a.skip(at).reverse(), b.skip(at).reverse()),
{
    lemma_alike_pointwise(a, b);
    lemma_pointwise_alike(a.take(at), b.take(at));
    lemma_pointwise_alike(a.skip(at), b.skip(at));
    lemma_pointwise_alike(a.skip(at).reverse(), b.skip(at).reverse());
}

/// Joining sequences with the same contents gives the same contents.
proof fn lemma_alike_concat(a: Seq<Token>, b: Seq<Token>, c: Seq<Token>, d: Seq<Token>)
    requires
        alike(a, b),
        alike(c, d),
    ensures
        alike(a + c, b + d),
{
    lemma_alike_pointwise(a, b);
    lemma_alike_pointwise(c, d);
    lemma_pointwise_alike(a + c, b + d);
}

/// The tier floor depends on the contents of the stack alone.
proof fn lemma_tier_floor_alike(a: Seq<Token>, b: Seq<Token>, priority: i32)
    requires
        alike(a, b),
    ensures
        tier_floor(a, priority) == tier_floor(b, priority),
    decreases a.len(),
{
    lemma_alike_pointwise(a, b);
    if a.len() > 0 {
        assert(a.last()@ == b.last()@);
        lemma_alike_parts(a, b, a.len() - 1);
        lemma_tier_floor_alike(a.drop_last(), b.drop_last(), priority);
    }
}

/// The nearest opener depends on the contents of the stack and of the
/// closing marker alone.
proof fn lemma_nearest_opener_alike(a: Seq<Token>, b: Seq<Token>, s: Token, t: Token)
    requires
        alike(a, b),
        s@ == t@,
    ensures
        nearest_opener(a, s) == nearest_opener(b, t),
    decreases a.len(),
{
    lemma_alike_pointwise(a, b);
    if a.len() > 0 {
        assert(a.last()@ == b.last()@);
        assert(opens_for(a.last(), s) == opens_for(b.last(), t));
        lemma_alike_parts(a, b, a.len() - 1);
        lemma_nearest_opener_alike(a.drop_last(), b.drop_last(), s, t);
    }
}

/// One step of the conversion depends on the contents of the stack and of
/// the arriving token alone.
proof fn lemma_step_alike(a: Seq<Token>, b: Seq<Token>, s: Token, t: Token)
    requires
        alike(a, b),
        s@ == t@,
    ensures
        alike(emitted_by(a, s), emitted_by(b, t)),
        alike(pending_after(a, s), pending_after(b, t)),
{
    lemma_alike_pointwise(a, b);
    lemma_tier_floor_alike(a, b, s.token_type.priority);
    lemma_nearest_opener_alike(a, b, s, t);
    lemma_nearest_opener(a, s);
    lemma_emit_from_in_range(a, s);
    if a.len() > 0 {
        assert(a.last()@ == b.last()@);
    }
    assert(emit_from(a, s) == emit_from(b, t));
    let from = emit_from(a, s);
    lemma_alike_parts(a, b, from);
    if is_operand(s) {
        lemma_pointwise_alike(seq![s], seq![t]);
    } else if s.token_type.is_context {
        let opener = nearest_opener(a, s);
        if opener < 0 {
            lemma_pointwise_alike(Seq::<Token>::empty(), Seq::<Token>::empty());
        } else {
            lemma_alike_parts(a, b, opener);
        }
    } else {
        lemma_alike_pointwise(a.take(from), b.take(from));
        lemma_pointwise_alike(a.take(from).push(s), b.take(from).push(t));
    }
}

/// A run of the conversion depends on the contents of its input alone.
proof fn lemma_run_alike(a: Seq<Token>, b: Seq<Token>)
    requires
        alike(a, b),
    ensures
        alike(run(a).output, run(b).output),
        alike(run(a).pending, run(b).pending),
    decreases a.len(),
{
    lemma_alike_pointwise(a, b);
    if a.len() == 0 {
        lemma_pointwise_alike(run(a).output, run(b).output);
        lemma_pointwise_alike(run(a).pending, run(b).pending);
    } else {
        lemma_alike_parts(a, b, a.len() - 1);
        lemma_run_alike(a.drop_last(), b.drop_last());
        lemma_run_closed_form(a);
        lemma_run_closed_form(b);
        assert(a.last()@ == b.last()@);
        lemma_step_alike(run(a.drop_last()).pending, run(b.drop_last()).pending, a.last(), b.last());
        lemma_alike_concat(
            run(a.drop_last()).output,
            run(b.drop_last()).output,
            emitted_by(run(a.drop_last()).pending, a.last()),
            emitted_by(run(b.drop_last()).pending, b.last()),
        );
    }
}

/// The postfix form depends on the contents of the input alone.
pub proof fn lemma_rpn_respects_contents(a: Seq<Token>, b: Seq<Token>)
    requires
        alike(a, b),
    ensures
        alike(rpn_of(a), rpn_of(b)),
{
    lemma_run_alike(a, b);
    lemma_rpn_closed_form(a);
    lemma_rpn_closed_form(b);
    lemma_alike_parts(run(a).pending, run(b).pending, 0);
    assert(run(a).pending.skip(0) =~= run(a).pending);
    assert(run(b).pending.skip(0) =~= run(b).pending);
    lemma_alike_concat(
        run(a).output,
        run(b).output,
        run(a).pending.reverse(),
        run(b).pending.reverse(),
    );
}

/// The contents of a node stack.
pub open spec fn forest_views(forest: Seq<AST>) -> Seq<TreeView> {
    forest.map_values(|tree: AST| tree@)
}

/// The contents of what the tree builder hands back.
pub open spec fn outcome_view(outcome: Result<AST, SyntaxError>) -> Result<TreeView, SyntaxError> {
    match outcome {
        Ok(tree) => Ok(tree@),
        Err(e) => Err(e),
    }
}

/// The contents of a node stack, or the error in its place.
pub open spec fn forest_outcome_view(outcome: Result<Seq<AST>, SyntaxError>) -> Result<
    Seq<TreeView>,
    SyntaxError,
> {
    match outcome {
        Ok(forest) => Ok(forest_views(forest)),
        Err(e) => Err(e),
    }
}

/// One step of the tree builder depends on the contents of the stack and of
/// the token alone.
proof fn lemma_grow_alike(f: Seq<AST>, g: Seq<AST>, s: Token, t: Token)
    requires
        forest_views(f) == forest_views(g),
        s@ == t@,
    ensures
        forest_outcome_view(grow(f, s)) == forest_outcome_view(grow(g, t)),
{
    assert(forest_views(f).len() == f.len());
    assert(forest_views(g).len() == g.len());
    assert forall|i: int| 0 <= i < f.len() implies (#[trigger] f[i])@ == g[i]@ by {
        assert(forest_views(f)[i] == f[i]@);
        assert(forest_views(g)[i] == g[i]@);
    }
    if s.token_type.priority == 0 {
        assert(forest_views(f.push(AST::Token(s))) =~= forest_views(g.push(AST::Token(t))));
    } else if f.len() >= 2 {
        let n = f.len() as int;
        let grown_f = AST::ASTNode((s, Box::new(f[n - 1]), Box::new(f[n - 2])));
        let grown_g = AST::ASTNode((t, Box::new(g[n - 1]), Box::new(g[n - 2])));
        assert(grown_f@ == grown_g@);
        assert(forest_views(f.take(n - 2).push(grown_f)) =~= forest_views(
            g.take(n - 2).push(grown_g),
        ));
    }
}

/// The node stack depends on the contents of the input alone.
proof fn lemma_forest_alike(a: Seq<Token>, b: Seq<Token>)
    requires
        alike(a, b),
    ensures
        forest_outcome_view(forest_of(a)) == forest_outcome_view(forest_of(b)),
    decreases a.len(),
{
    lemma_alike_pointwise(a, b);
    if a.len() == 0 {
        assert(forest_views(Seq::<AST>::empty()) =~= Seq::<TreeView>::empty());
    } else {
        lemma_alike_parts(a, b, a.len() - 1);
        lemma_forest_alike(a.drop_last(), b.drop_last());
        assert(a.last()@ == b.last()@);
        match (forest_of(a.drop_last()), forest_of(b.drop_last())) {
            (Ok(f), Ok(g)) => {
                lemma_grow_alike(f, g, a.last(), b.last());
            },
            _ => {},
        }
    }
}

/// The tree of a postfix sequence depends on the contents of the sequence
/// alone.
pub proof fn lemma_tree_respects_contents(a: Seq<Token>, b: Seq<Token>)
    requires
        alike(a, b),
    ensures
        outcome_view(tree_of(a)) == outcome_view(tree_of(b)),
{
    lemma_forest_alike(a, b);
    match (forest_of(a), forest_of(b)) {
        (Ok(f), Ok(g)) => {
            assert(forest_views(f).len() == f.len());
            assert(forest_views(g).len() == g.len());
            if f.len() == 1 {
                assert(forest_views(f)[0] == f[0]@);
                assert(forest_views(g)[0] == g[0]@);
            }
        },
        _ => {},
    }
}

/// Two scans of one text with one table find tokens with the same contents,
/// which convert to postfix sequences with the same contents, which build
/// trees with the same contents or fail alike.
pub proof fn lemma_pipeline_is_deterministic(
    table: Seq<TokenType>,
    text: Seq<char>,
    first: Seq<Token>,
    second: Seq<Token>,
)
    requires
        is_stable_ordering(views(first), found_in(table, text), view_start()),
        is_stable_ordering(views(second), found_in(table, text), view_start()),
    ensures
        alike(first, second),
        alike(rpn_of(first), rpn_of(second)),
        outcome_view(tree_of(rpn_of(first))) == outcome_view(tree_of(rpn_of(second))),
{
    lemma_stable_ordering_unique(views(first), views(second), found_in(table, text), view_start());
    lemma_rpn_respects_contents(first, second);
    lemma_tree_respects_contents(rpn_of(first), rpn_of(second));
}

/// What a scan of `text` with `table` may hand back: tokens whose contents
/// are what is found in the text, ordered by their start, where every
/// pattern compiles, and a failure where one does not.
pub open spec fn is_scan_outcome(
    table: Seq<TokenType>,
    text: Seq<char>,
    outcome: Result<Seq<Token>, ScanError>,
) -> bool {
    match outcome {
        Ok(tokens) => all_compile(table) && is_stable_ordering(
            views(tokens),
            found_in(table, text),
            view_start(),
        ),
        Err(_) => !all_compile(table),
    }
}

/// Two scans of one text with one table both succeed, with tokens of the
/// same contents, or both fail with the same error.
pub proof fn lemma_scan_is_deterministic(
    table: Seq<TokenType>,
    text: Seq<char>,
    first: Result<Seq<Token>, ScanError>,
    second: Result<Seq<Token>, ScanError>,
)
    requires
        is_scan_outcome(table, text, first),
        is_scan_outcome(table, text, second),
    ensures
        match (first, second) {
            (Ok(a), Ok(b)) => alike(a, b),
            (Err(e), Err(f)) => e == f,
            _ => false,
        },
{
    if let (Ok(a), Ok(b)) = (first, second) {
        lemma_stable_ordering_unique(views(a), views(b), found_in(table, text), view_start());
    }
}

} // verus!
