//! Expression trees and their construction from a postfix sequence.
use crate::token::{Token, TokenView};
use vstd::prelude::*;
use vstd::string::StringExecFns;

verus! {

/// Why a postfix sequence is not a formula.
#[derive(Debug, Clone, Copy, PartialEq, Eq, Structural)]
pub enum SyntaxError {
    /// The sequence does not reduce to exactly one tree.
    InvalidFormula,
    /// An operator has fewer than two operands before it.
    InvalidFormulaBranch,
}

impl SyntaxError {
    /// The wording of the error.
    pub open spec fn wording(self) -> Seq<char> {
        match self {
            SyntaxError::InvalidFormula => "Invalid formula"@,
            SyntaxError::InvalidFormulaBranch => "Invalid formula branch"@,
        }
    }

    /// The error in words.
    pub fn message(&self) -> (message: String)
        ensures
            message@ == self.wording(),
    {
        match self {
            SyntaxError::InvalidFormula => String::from_str("Invalid formula"),
            SyntaxError::InvalidFormulaBranch => String::from_str("Invalid formula branch"),
        }
    }
}

/// An operator with its two operands: the operator, then the right operand,
/// then the left one.
pub type ASTNode = (Token, Box<AST>, Box<AST>);

/// A binary expression tree.
#[derive(Debug)]
pub enum AST {
    ASTNode(ASTNode),
    Token(Token),
}

/// The mathematical content of an [`AST`].
pub enum TreeView {
    /// An operator with its right and its left operand.
    Node(TokenView, Box<TreeView>, Box<TreeView>),
    Leaf(TokenView),
}

impl View for AST {
    type V = TreeView;

    open spec fn view(&self) -> TreeView
        decreases self,
    {
        match self {
            AST::ASTNode(node) => TreeView::Node(
                node.0@,
                Box::new((*node.1)@),
                Box::new((*node.2)@),
            ),
            AST::Token(t) => TreeView::Leaf(t@),
        }
    }
}

/// The node stack after one more postfix token: an operand becomes a leaf,
/// any other token takes the two topmost trees as its right and left operand.
pub open spec fn grow(stack: Seq<AST>, t: Token) -> Result<Seq<AST>, SyntaxError> {
    if t.token_type.priority == 0 {
        Ok(stack.push(AST::Token(t)))
    } else if stack.len() < 2 {
        Err(SyntaxError::InvalidFormulaBranch)
    } else {
        let right = stack[stack.len() - 1];
        let left = stack[stack.len() - 2];
        Ok(stack.take(stack.len() - 2).push(AST::ASTNode((t, Box::new(right), Box::new(left)))))
    }
}

/// The node stack after the tokens of `tokens`, taken from left to right, or
/// the error of the first token that finds too few operands.
pub open spec fn forest_of(tokens: Seq<Token>) -> Result<Seq<AST>, SyntaxError>
    decreases tokens.len(),
{
    if tokens.len() == 0 {
        Ok(Seq::empty())
    } else {
        match forest_of(tokens.drop_last()) {
            Ok(stack) => grow(stack, tokens.last()),
            Err(e) => Err(e),
        }
    }
}

/// The tree that a postfix sequence denotes: the one tree that is left when
/// every token has been taken.
pub open spec fn tree_of(tokens: Seq<Token>) -> Result<AST, SyntaxError> {
    match forest_of(tokens) {
        Ok(stack) => if stack.len() == 1 {
            Ok(stack[0])
        } else {
            Err(SyntaxError::InvalidFormula)
        },
        Err(e) => Err(e),
    }
}

/// The text of a token, where it has one.
pub open spec fn text_of(t: Token) -> Seq<char> {
    match t.text {
        Ok(s) => s@,
        Err(_) => Seq::empty(),
    }
}

/// The texts of `tokens`, one after the other with nothing between them.
pub open spec fn joined_text(tokens: Seq<Token>) -> Seq<char>
    decreases tokens.len(),
{
    if tokens.len() == 0 {
        Seq::empty()
    } else {
        joined_text(tokens.drop_last()) + text_of(tokens.last())
    }
}

impl AST {
    /// Renders a token sequence by writing the text of each token in turn.
    pub fn to_string(tokens: &Vec<Token>) -> (rendered: String)
        requires
            forall|i: int| 0 <= i < tokens@.len() ==> (#[trigger] tokens@[i]).text is Ok,
        ensures
            rendered@ == joined_text(tokens@),
    {
        let mut rendered = String::new();
        let mut i: usize = 0;
        while i < tokens.len()
            invariant
                i <= tokens.len(),
                rendered@ == joined_text(tokens@.take(i as int)),
                forall|k: int| 0 <= k < tokens@.len() ==> (#[trigger] tokens@[k]).text is Ok,
            decreases tokens.len() - i,
        {
            proof {
                assert(tokens@.take(i + 1).drop_last() =~= tokens@.take(i as int));
            }
            if let Ok(text) = &tokens[i].text {
                rendered.append(text.as_str());
            }
            i += 1;
        }
        proof {
            assert(tokens@.take(tokens@.len() as int) =~= tokens@);
        }
        rendered
    }

    /// Builds the expression tree of a postfix token sequence.
    ///
    /// Every token that is no operand takes exactly two operands, whatever
    /// `params` its category declares. Fails with `InvalidFormulaBranch` at
    /// the first token that is no operand and has fewer than two trees
    /// before it, and with `InvalidFormula` when the sequence is empty or
    /// leaves more than one tree.
    pub fn to_ast(tokens: Vec<Token>) -> (tree: Result<AST, SyntaxError>)
        ensures
            tree == tree_of(tokens@),
    {
        let mut stack: Vec<AST> = Vec::new();
        let ghost input = tokens@;

        for token in it: tokens
            invariant
                it.seq() == input,
                forest_of(input.take(it.index() as int)) == Ok::<Seq<AST>, SyntaxError>(stack@),
        {
            proof {
                assert(input.take(it.index() + 1).drop_last() =~= input.take(it.index() as int));
            }
            if token.token_type.priority == 0 {
                stack.push(AST::Token(token));
            } else {
                if stack.len() < 2 {
                    proof {
                        lemma_error_is_final(input, it.index() + 1);
                    }
                    return Err(SyntaxError::InvalidFormulaBranch);
                }
                let ghost before = stack@;
                let right = stack.pop().unwrap();
                let left = stack.pop().unwrap();
                assert(stack@ =~= before.take(before.len() - 2));
                stack.push(AST::ASTNode((token, Box::new(right), Box::new(left))));
            }
        }

        proof {
            assert(input.take(input.len() as int) =~= input);
        }
        if stack.len() != 1 {
            return Err(SyntaxError::InvalidFormula);
        }
        Ok(stack.pop().unwrap())
    }
}

/// Once a prefix of a sequence fails, the whole sequence fails the same way.
pub proof fn lemma_error_is_final(tokens: Seq<Token>, n: int)
    requires
        0 <= n <= tokens.len(),
        forest_of(tokens.take(n)) is Err,
    ensures
        forest_of(tokens) == forest_of(tokens.take(n)),
    decreases tokens.len(),
{
    if n == tokens.len() {
        assert(tokens.take(n) =~= tokens);
    } else {
        assert(tokens.drop_last().take(n) =~= tokens.take(n));
        lemma_error_is_final(tokens.drop_last(), n);
    }
}

} // verus!
