//! The scanner: every occurrence of every category, ordered by position.
use crate::order::{
    has_key, is_stable_ordering, lemma_ordering_member, ordered_by, sort_by_start, token_start,
    view_start,
};
use crate::pattern::{find_spans, match_spans, pattern_compiles};
use crate::token::{
    covered_text, span_is_valid, Span, Token, TokenType, TokenTypeView, TokenView,
};
use vstd::prelude::*;
use vstd::string::StringExecFns;
use vstd::utf8::encode_utf8;

verus! {

/// Why a formula could not be scanned.
#[derive(Debug, Clone, Copy, PartialEq, Eq, Structural)]
pub enum ScanError {
    /// The pattern of a category is no regular expression that compiles.
    InvalidPattern,
}

/// The token of `category` that covers `span` in `formula`.
pub open spec fn occurrence(category: TokenTypeView, formula: Seq<char>, span: Span) -> TokenView {
    TokenView {
        token_type: category,
        index: (span.start as int, span.end as int),
        text: covered_text(formula, span),
    }
}

/// The tokens of `category` that cover `spans` in `formula`, one per span.
pub open spec fn occurrences(
    category: TokenTypeView,
    formula: Seq<char>,
    spans: Seq<Span>,
) -> Seq<TokenView> {
    Seq::new(spans.len(), |i: int| occurrence(category, formula, spans[i]))
}

/// Each token ends no later than the next one starts, and starts no later
/// than it ends: the tokens stand in the order of the text and do not
/// overlap.
pub open spec fn in_source_order(tokens: Seq<Token>) -> bool {
    &&& forall|i: int| 0 <= i < tokens.len() ==> (#[trigger] tokens[i]).index.0 <= tokens[i].index.1
    &&& forall|i: int, j: int|
        0 <= i < j < tokens.len() ==> (#[trigger] tokens[i]).index.1 <= (
        #[trigger] tokens[j]).index.0
}

/// The pattern of every category of `table` compiles.
pub open spec fn all_compile(table: Seq<TokenType>) -> bool {
    forall|i: int| 0 <= i < table.len() ==> pattern_compiles((#[trigger] table[i]).pattern@)
}

/// The contents of a token sequence.
pub open spec fn views(tokens: Seq<Token>) -> Seq<TokenView> {
    tokens.map_values(|t: Token| t@)
}

/// Every occurrence of every category of `table` in `text`: the occurrences
/// of the first category from left to right, then those of the second, and
/// so on.
pub open spec fn found_in(table: Seq<TokenType>, text: Seq<char>) -> Seq<TokenView>
    decreases table.len(),
{
    if table.len() == 0 {
        Seq::empty()
    } else {
        found_in(table.drop_last(), text) + occurrences(
            table.last()@,
            text,
            match_spans(table.last().pattern@, text),
        )
    }
}

/// Selecting tokens by their start and reading their contents commute.
proof fn lemma_views_of_filter(tokens: Seq<Token>, k: int)
    ensures
        views(tokens.filter(has_key(token_start(), k))) == views(tokens).filter(
            has_key(view_start(), k),
        ),
    decreases tokens.len(),
{
    reveal(Seq::filter);
    if tokens.len() == 0 {
        assert(views(tokens) =~= Seq::<TokenView>::empty());
        assert(views(tokens.filter(has_key(token_start(), k))) =~= Seq::<TokenView>::empty());
    } else {
        let rest = tokens.drop_last();
        lemma_views_of_filter(rest, k);
        assert(views(rest) =~= views(tokens).drop_last());
        assert(views(tokens).last() == tokens.last()@);
        let kept = rest.filter(has_key(token_start(), k));
        assert(views(kept.push(tokens.last())) =~= views(kept).push(tokens.last()@));
    }
}

/// Tokens in stable order of their starts have their contents in stable
/// order of their starts.
pub proof fn lemma_ordering_of_views(sorted: Seq<Token>, tokens: Seq<Token>)
    requires
        is_stable_ordering(sorted, tokens, token_start()),
    ensures
        is_stable_ordering(views(sorted), views(tokens), view_start()),
{
    assert(ordered_by(views(sorted), view_start())) by {
        assert forall|i: int, j: int| 0 <= i <= j < views(sorted).len() implies view_start()(
            #[trigger] views(sorted)[i],
        ) <= view_start()(#[trigger] views(sorted)[j]) by {
            assert(token_start()(sorted[i]) <= token_start()(sorted[j]));
        }
    }
    assert forall|k: int| #[trigger]
        views(sorted).filter(has_key(view_start(), k)) == views(tokens).filter(
            has_key(view_start(), k),
        ) by {
        lemma_views_of_filter(sorted, k);
        lemma_views_of_filter(tokens, k);
        assert(sorted.filter(has_key(token_start(), k)) == tokens.filter(
            has_key(token_start(), k),
        ));
    }
}

/// The tokens of `groups`, group after group.
pub open spec fn joined(groups: Seq<Vec<Token>>) -> Seq<Token>
    decreases groups.len(),
{
    if groups.len() == 0 {
        Seq::empty()
    } else {
        joined(groups.drop_last()) + groups.last()@
    }
}

/// Merges the tokens of several categories into one sequence, ordered by
/// the offset at which they start. Tokens that start at the same offset
/// stand in the order of their groups, and within a group in its order.
pub fn merge(groups: Vec<Vec<Token>>) -> (merged: Vec<Token>)
    ensures
        is_stable_ordering(merged@, joined(groups@), token_start()),
{
    let mut all: Vec<Token> = Vec::new();
    let ghost input = groups@;
    proof {
        assert(input.take(0) =~= Seq::<Vec<Token>>::empty());
    }
    for group in it: groups
        invariant
            it.seq() == input,
            all@ == joined(input.take(it.index() as int)),
    {
        proof {
            assert(input.take(it.index() + 1).drop_last() =~= input.take(it.index() as int));
        }
        let mut group = group;
        all.append(&mut group);
    }
    proof {
        assert(input.take(input.len() as int) =~= input);
    }
    sort_by_start(all)
}

/// The contents of the tokens of `groups` are the occurrences of the
/// categories of `table` in `text`, group by group.
pub open spec fn groups_hold(groups: Seq<Vec<Token>>, table: Seq<TokenType>, text: Seq<char>) -> bool {
    &&& groups.len() == table.len()
    &&& forall|i: int|
        0 <= i < groups.len() ==> views((#[trigger] groups[i])@) == occurrences(
            table[i]@,
            text,
            match_spans(table[i].pattern@, text),
        )
}

/// Groups that hold the occurrences of a table hold, joined, what is found
/// in the text.
proof fn lemma_joined_groups(groups: Seq<Vec<Token>>, table: Seq<TokenType>, text: Seq<char>)
    requires
        groups_hold(groups, table, text),
    ensures
        views(joined(groups)) == found_in(table, text),
    decreases groups.len(),
{
    if groups.len() == 0 {
        assert(views(joined(groups)) =~= found_in(table, text));
    } else {
        assert(groups_hold(groups.drop_last(), table.drop_last(), text)) by {
            assert forall|i: int| 0 <= i < groups.drop_last().len() implies views(
                (#[trigger] groups.drop_last()[i])@,
            ) == occurrences(
                table.drop_last()[i]@,
                text,
                match_spans(table.drop_last()[i].pattern@, text),
            ) by {
                assert(groups.drop_last()[i] == groups[i]);
            }
        }
        lemma_joined_groups(groups.drop_last(), table.drop_last(), text);
        assert(views(groups[groups.len() - 1]@) == occurrences(
            table.last()@,
            text,
            match_spans(table.last().pattern@, text),
        ));
        assert(views(joined(groups.drop_last()) + groups.last()@) =~= views(
            joined(groups.drop_last()),
        ) + views(groups.last()@));
    }
}

/// Every token of the join of `groups` is a token of one of the groups.
proof fn lemma_joined_member(groups: Seq<Vec<Token>>, t: Token)
    requires
        joined(groups).contains(t),
    ensures
        exists|i: int| 0 <= i < groups.len() && (#[trigger] groups[i])@.contains(t),
    decreases groups.len(),
{
    if groups.len() > 0 {
        let front = joined(groups.drop_last());
        let k = choose|k: int| 0 <= k < joined(groups).len() && joined(groups)[k] == t;
        if k < front.len() {
            assert(front[k] == t);
            lemma_joined_member(groups.drop_last(), t);
            let i = choose|i: int|
                0 <= i < groups.drop_last().len() && (#[trigger] groups.drop_last()[i])@.contains(
                    t,
                );
            assert(groups[i]@.contains(t));
        } else {
            assert(groups.last()@[k - front.len()] == t);
            assert(groups[groups.len() - 1]@.contains(t));
        }
    }
}

/// Finds every occurrence of every category of `table` in `text` and orders
/// the tokens by the offset at which they start. Tokens of different
/// categories that start at the same offset stand in the order of `table`.
///
/// Each category is matched on its own, so the tokens of different
/// categories may overlap. Every token has the text that it covers. Fails
/// exactly when the pattern of some category does not compile.
pub fn scan(table: &Vec<TokenType>, text: &str) -> (found: Result<Vec<Token>, ScanError>)
    ensures
        found matches Ok(tokens) ==> is_stable_ordering(
            views(tokens@),
            found_in(table@, text@),
            view_start(),
        ),
        found matches Ok(tokens) ==> forall|i: int|
            0 <= i < tokens@.len() ==> (#[trigger] tokens@[i]).text is Ok,
        found is Ok <==> all_compile(table@),
{
    let mut groups: Vec<Vec<Token>> = Vec::new();
    let mut i: usize = 0;
    while i < table.len()
        invariant
            i <= table.len(),
            groups_hold(groups@, table@.take(i as int), text@),
            all_compile(table@.take(i as int)),
            forall|g: int, k: int|
                0 <= g < groups@.len() && 0 <= k < groups@[g]@.len() ==> (
                #[trigger] groups@[g]@[k]).text is Ok,
        decreases table.len() - i,
    {
        match Token::resolver(table[i].clone(), String::from_str(text)) {
            Ok(tokens) => {
                groups.push(tokens);
            },
            Err(e) => {
                assert(!pattern_compiles(table@[i as int].pattern@));
                return Err(e);
            },
        }
        assert(all_compile(table@.take(i + 1))) by {
            assert forall|k: int| 0 <= k < i + 1 implies pattern_compiles(
                (#[trigger] table@.take(i + 1)[k]).pattern@,
            ) by {
                if k < i {
                    assert(table@.take(i as int)[k] == table@.take(i + 1)[k]);
                }
            }
        }
        i += 1;
    }
    let ghost unsorted = joined(groups@);
    proof {
        assert(table@.take(table@.len() as int) =~= table@);
        lemma_joined_groups(groups@, table@, text@);
    }
    let merged = merge(groups);
    proof {
        lemma_ordering_of_views(merged@, unsorted);
        assert forall|i: int| 0 <= i < merged@.len() implies (#[trigger] merged@[i]).text is Ok by {
            lemma_ordering_member(merged@, unsorted, token_start(), i);
            lemma_joined_member(groups@, merged@[i]);
        }
    }
    Ok(merged)
}

/// Tokens that cover valid spans of a formula have a text, and tokens that
/// cover successive spans stand in the order of the formula.
proof fn lemma_tokens_of_matches(
    category: TokenTypeView,
    formula: Seq<char>,
    spans: Seq<Span>,
    tokens: Seq<Token>,
)
    requires
        views(tokens) == occurrences(category, formula, spans),
        forall|i: int|
            0 <= i < spans.len() ==> span_is_valid(
                encode_utf8(formula),
                #[trigger] spans[i].start as int,
                spans[i].end as int,
            ),
        forall|i: int, j: int|
            0 <= i < j < spans.len() ==> (#[trigger] spans[i]).end <= (#[trigger] spans[j]).start,
    ensures
        forall|i: int| 0 <= i < tokens.len() ==> (#[trigger] tokens[i]).text is Ok,
        in_source_order(tokens),
{
    assert(views(tokens).len() == tokens.len());
    assert(occurrences(category, formula, spans).len() == spans.len());
    assert forall|i: int| 0 <= i < tokens.len() implies (#[trigger] tokens[i]).text is Ok
        && tokens[i].index.0 == spans[i].start && tokens[i].index.1 == spans[i].end
        && tokens[i].index.0 <= tokens[i].index.1 by {
        assert(views(tokens)[i] == tokens[i]@);
        assert(occurrences(category, formula, spans)[i] == occurrence(
            category,
            formula,
            spans[i],
        ));
        assert(span_is_valid(encode_utf8(formula), spans[i].start as int, spans[i].end as int));
    }
    assert forall|i: int, j: int| 0 <= i < j < tokens.len() implies (#[trigger] tokens[i]).index.1
        <= (#[trigger] tokens[j]).index.0 by {
        assert(tokens[i].index.1 == spans[i].end);
        assert(tokens[j].index.0 == spans[j].start);
    }
}

impl Token {
    /// Builds one token of category `token_type` for each span of `spans`,
    /// in the order of `spans`.
    pub fn from_spans(token_type: &TokenType, formula: &String, spans: &Vec<Span>) -> (tokens: Vec<
        Token,
    >)
        ensures
            views(tokens@) == occurrences(token_type@, formula@, spans@),
    {
        let mut tokens: Vec<Token> = Vec::new();
        let mut i: usize = 0;
        while i < spans.len()
            invariant
                i <= spans.len(),
                tokens@.len() == i,
                forall|k: int|
                    0 <= k < i ==> (#[trigger] tokens@[k])@ == occurrence(
                        token_type@,
                        formula@,
                        spans@[k],
                    ),
            decreases spans.len() - i,
        {
            let token = Token::new(token_type.clone(), formula.clone(), spans[i]);
            tokens.push(token);
            i += 1;
        }
        assert(views(tokens@) =~= occurrences(token_type@, formula@, spans@));
        tokens
    }

    /// Finds the occurrences of category `token_type` in `formula`: one
    /// token for each successive non-overlapping match of the category's
    /// pattern, from left to right, each with the text that it covers.
    ///
    /// Fails exactly when the pattern does not compile.
    pub fn resolver(token_type: TokenType, formula: String) -> (found: Result<
        Vec<Token>,
        ScanError,
    >)
        ensures
            found is Ok <==> pattern_compiles(token_type.pattern@),
            found matches Ok(tokens) ==> in_source_order(tokens@),
            found matches Ok(tokens) ==> views(tokens@) == occurrences(
                token_type@,
                formula@,
                match_spans(token_type.pattern@, formula@),
            ),
            found matches Ok(tokens) ==> forall|i: int|
                0 <= i < tokens@.len() ==> (#[trigger] tokens@[i]).text is Ok,
    {
        let found = find_spans(token_type.pattern.as_str(), formula.as_str());
        let ghost searched = found;
        let tokens = Token::from_search(&token_type, &formula, found);
        proof {
            if searched is Ok {
                lemma_tokens_of_matches(
                    token_type@,
                    formula@,
                    searched->Ok_0@,
                    tokens->Ok_0@,
                );
            }
        }
        tokens
    }

    /// Turns the outcome of a search for the pattern of `token_type` in
    /// `formula` into tokens: one token for each span that was found, in the
    /// order of the spans, or `InvalidPattern` where the search failed.
    pub fn from_search(
        token_type: &TokenType,
        formula: &String,
        found: Result<Vec<Span>, regex::Error>,
    ) -> (tokens: Result<Vec<Token>, ScanError>)
        ensures
            match found {
                Ok(spans) => tokens matches Ok(built) && views(built@) == occurrences(
                    token_type@,
                    formula@,
                    spans@,
                ),
                Err(_) => tokens == Err::<Vec<Token>, ScanError>(ScanError::InvalidPattern),
            },
    {
        match found {
            Ok(spans) => Ok(Token::from_spans(token_type, formula, &spans)),
            Err(_) => Err(ScanError::InvalidPattern),
        }
    }
}

} // verus!
