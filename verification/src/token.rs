//! Lexical categories and the tokens that belong to them.
use vstd::prelude::*;
use vstd::string::{StringExecFns, StringSliceAdditionalSpecFns};
use vstd::utf8::{
    decode_utf8, encode_utf8, encode_utf8_decode_utf8, encode_utf8_valid_utf8, is_char_boundary,
    is_char_boundary_iff_not_is_continuation_byte, is_char_boundary_start_end_of_seq,
};

verus! {

/// One lexical category of a grammar.
///
/// `priority` classifies the category: `0` is an operand, `1` a grouping
/// marker, and `2` or more a binary operator that binds tighter the larger
/// the value is.
#[derive(Debug)]
pub struct TokenType {
    /// Name of the category, unique within a table.
    pub typename: String,
    /// Regular expression that finds the occurrences of the category.
    pub pattern: String,
    pub priority: i32,
    /// Set on a closing marker, which pops back to its opening marker.
    pub is_context: bool,
    /// Set on a prefix call.
    pub is_function: bool,
    /// Category names of the operands that a prefix call expects.
    pub params: Vec<String>,
    /// For a closing marker, the name of the category that opens its group.
    pub context_match: String,
    /// Breaks ties between operators of equal priority to the right.
    pub assoc_right: bool,
}

/// The mathematical content of a [`TokenType`].
pub struct TokenTypeView {
    pub typename: Seq<char>,
    pub pattern: Seq<char>,
    pub priority: int,
    pub is_context: bool,
    pub is_function: bool,
    pub params: Seq<Seq<char>>,
    pub context_match: Seq<char>,
    pub assoc_right: bool,
}

impl View for TokenType {
    type V = TokenTypeView;

    open spec fn view(&self) -> TokenTypeView {
        TokenTypeView {
            typename: self.typename@,
            pattern: self.pattern@,
            priority: self.priority as int,
            is_context: self.is_context,
            is_function: self.is_function,
            params: self.params@.map_values(|p: String| p@),
            context_match: self.context_match@,
            assoc_right: self.assoc_right,
        }
    }
}

/// The name that a closing category pairs with when the caller names none.
pub open spec fn default_context_match() -> Seq<char> {
    seq!['0']
}

impl TokenType {
    /// Builds a category from its parts. A missing `context_match` becomes
    /// the name `"0"`, a missing `params` the empty list.
    pub fn new(
        typename: String,
        pattern: String,
        priority: i32,
        assoc_right: bool,
        is_context: bool,
        context_match: Option<String>,
        is_function: bool,
        params: Option<Vec<String>>,
    ) -> (category: TokenType)
        ensures
            category.typename == typename,
            category.pattern == pattern,
            category.priority == priority,
            category.assoc_right == assoc_right,
            category.is_context == is_context,
            category.is_function == is_function,
            match params {
                Some(p) => category.params == p,
                None => category.params@ == Seq::<String>::empty(),
            },
            match context_match {
                Some(name) => category.context_match == name,
                None => category.context_match@ == default_context_match(),
            },
    {
        let params: Vec<String> = match params {
            Some(p) => p,
            None => Vec::new(),
        };
        let context_match: String = match context_match {
            Some(name) => name,
            None => {
                proof {
                    reveal_strlit("0");
                }
                assert("0"@ =~= default_context_match());
                String::from_str("0")
            },
        };
        TokenType {
            typename,
            pattern,
            priority,
            is_context,
            is_function,
            params,
            context_match,
            assoc_right,
        }
    }
}

impl Clone for TokenType {
    fn clone(&self) -> (copy: TokenType)
        ensures
            copy@ == self@,
    {
        let mut params: Vec<String> = Vec::new();
        let mut i: usize = 0;
        while i < self.params.len()
            invariant
                i <= self.params.len(),
                params@.len() == i,
                forall|k: int| 0 <= k < i ==> params@[k]@ == self.params@[k]@,
            decreases self.params.len() - i,
        {
            params.push(self.params[i].clone());
            i += 1;
        }
        assert(params@.map_values(|p: String| p@) =~= self.params@.map_values(|p: String| p@));
        TokenType {
            typename: self.typename.clone(),
            pattern: self.pattern.clone(),
            priority: self.priority,
            is_context: self.is_context,
            is_function: self.is_function,
            params,
            context_match: self.context_match.clone(),
            assoc_right: self.assoc_right,
        }
    }
}

/// A half-open range `[start, end)` of byte offsets into a formula.
#[derive(Debug, Clone, Copy, PartialEq, Eq, Structural)]
pub struct Span {
    pub start: usize,
    pub end: usize,
}

/// One occurrence of a category in a formula.
#[derive(Debug)]
pub struct Token {
    pub token_type: TokenType,
    /// Byte offsets `(start, end)` of the occurrence.
    pub index: (usize, usize),
    /// The text that the offsets cover, or the reason why none could be taken.
    pub text: Result<String, String>,
}

/// The mathematical content of a [`Token`].
pub struct TokenView {
    pub token_type: TokenTypeView,
    pub index: (int, int),
    pub text: Result<Seq<char>, Seq<char>>,
}

impl View for Token {
    type V = TokenView;

    open spec fn view(&self) -> TokenView {
        TokenView {
            token_type: self.token_type@,
            index: (self.index.0 as int, self.index.1 as int),
            text: match self.text {
                Ok(s) => Ok(s@),
                Err(e) => Err(e@),
            },
        }
    }
}

impl Clone for Token {
    fn clone(&self) -> (copy: Token)
        ensures
            copy@ == self@,
    {
        let text: Result<String, String> = match &self.text {
            Ok(s) => Ok(s.clone()),
            Err(e) => Err(e.clone()),
        };
        Token { token_type: self.token_type.clone(), index: (self.index.0, self.index.1), text }
    }
}

/// The offsets `start` and `end` cut a piece out of the UTF-8 text `bytes`
/// without splitting a character.
pub open spec fn span_is_valid(bytes: Seq<u8>, start: int, end: int) -> bool {
    &&& 0 <= start <= end <= bytes.len()
    &&& is_char_boundary(bytes, start)
    &&& is_char_boundary(bytes, end)
}

/// What stands in place of the text of a span that cannot be cut out.
pub open spec fn extraction_failure() -> Seq<char> {
    seq!['E', 'r', 'r', 'o', 'r']
}

/// The text of `formula` between the byte offsets of `span`, or the failure
/// marker where the offsets do not cut out a piece of text.
pub open spec fn covered_text(formula: Seq<char>, span: Span) -> Result<Seq<char>, Seq<char>> {
    let bytes = encode_utf8(formula);
    if span_is_valid(bytes, span.start as int, span.end as int) {
        Ok(decode_utf8(bytes.subrange(span.start as int, span.end as int)))
    } else {
        Err(extraction_failure())
    }
}

/// A boundary of a text is a boundary of each prefix that reaches it.
proof fn lemma_boundary_in_prefix(bytes: Seq<u8>, prefix: Seq<u8>, start: int, end: int)
    requires
        vstd::utf8::valid_utf8(bytes),
        vstd::utf8::valid_utf8(prefix),
        span_is_valid(bytes, start, end),
        prefix == bytes.subrange(0, end),
    ensures
        is_char_boundary(prefix, start),
{
    if start == end {
        is_char_boundary_start_end_of_seq(prefix);
    } else {
        is_char_boundary_iff_not_is_continuation_byte(bytes, start);
        is_char_boundary_iff_not_is_continuation_byte(prefix, start);
    }
}

impl Token {
    /// Builds the token of category `token_type` that covers `m` in
    /// `formula`. Offsets that do not cut out a piece of `formula` give a
    /// token whose text is the failure marker.
    pub fn new(token_type: TokenType, formula: String, m: Span) -> (token: Token)
        ensures
            token.token_type == token_type,
            token.index == (m.start, m.end),
            token@.text == covered_text(formula@, m),
    {
        let start: usize = m.start;
        let end: usize = m.end;
        let source: &str = formula.as_str();
        let ghost bytes = encode_utf8(formula@);
        proof {
            encode_utf8_valid_utf8(formula@);
        }
        let length: usize = source.as_bytes().len();
        let text: Result<String, String> = if start <= end && end <= length
            && source.is_char_boundary(start) && source.is_char_boundary(end) {
            let (head, _) = source.split_at(end);
            proof {
                encode_utf8_valid_utf8(head@);
                lemma_boundary_in_prefix(bytes, head.spec_bytes(), start as int, end as int);
            }
            let (_, piece) = head.split_at(start);
            proof {
                assert(piece.spec_bytes() =~= bytes.subrange(start as int, end as int));
                encode_utf8_decode_utf8(piece@);
            }
            Ok(String::from_str(piece))
        } else {
            proof {
                reveal_strlit("Error");
            }
            assert("Error"@ =~= extraction_failure());
            Err(String::from_str("Error"))
        };
        Token { token_type, index: (start, end), text }
    }

    pub fn get_priority(&self) -> (priority: i32)
        ensures
            priority == self.token_type.priority,
    {
        self.token_type.priority
    }

    pub fn is_right_assoc(&self) -> (right: bool)
        ensures
            right == self.token_type.assoc_right,
    {
        self.token_type.assoc_right
    }
}

} // verus!
