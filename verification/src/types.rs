use vstd::prelude::*;
use crate::variables::Variables;

verus! {

/// A token of a template: either a tag, written `{{name}}`, or literal text.
#[derive(Debug, Clone, PartialEq, Eq, Hash)]
pub enum Token {
    /// A template tag, e.g., `{{name}}`, holding the tag's name.
    Tag(String),
    /// A piece of literal text.
    Literal(String),
}

/// The mathematical value of a [`Token`]: its variant and its text as characters.
pub enum SpecToken {
    Tag(Seq<char>),
    Literal(Seq<char>),
}

impl View for Token {
    type V = SpecToken;

    open spec fn view(&self) -> SpecToken {
        match self {
            Token::Tag(name) => SpecToken::Tag(name@),
            Token::Literal(text) => SpecToken::Literal(text@),
        }
    }
}

/// A template: a sequence of tokens.
#[derive(Debug, Clone, PartialEq, Eq)]
pub struct Template {
    /// The tokens of the template, in document order.
    pub content: Vec<Token>,
}

/// The views of a sequence of tokens.
pub open spec fn tokens_view(tokens: Seq<Token>) -> Seq<SpecToken> {
    tokens.map_values(|t: Token| t@)
}

impl View for Template {
    type V = Seq<SpecToken>;

    open spec fn view(&self) -> Seq<SpecToken> {
        tokens_view(self.content@)
    }
}

/// A context: the variables that processing fills tags with.
#[derive(Debug, Clone, PartialEq, Eq)]
pub struct Context {
    /// The variables, each a name with its value.
    pub variables: Variables,
}

impl View for Context {
    type V = Map<Seq<char>, Seq<char>>;

    open spec fn view(&self) -> Map<Seq<char>, Seq<char>> {
        self.variables@
    }
}

/// The result of a partial processing operation.
#[derive(Debug, Clone, PartialEq, Eq)]
pub enum ProcessResult {
    /// The processing is complete, and the result is a string.
    Final(String),
    /// The processing is partial, and the result is a new template and context.
    Partial { template: Template, context: Context },
}

/// A copy of a token with the same value.
pub(crate) fn copy_token(token: &Token) -> (r: Token)
    ensures
        r@ == token@,
{
    match token {
        Token::Tag(name) => Token::Tag(name.clone()),
        Token::Literal(text) => Token::Literal(text.clone()),
    }
}

/// Whether two tokens have the same variant and the same text.
pub(crate) fn same_token(a: &Token, b: &Token) -> (r: bool)
    ensures
        r == (a@ == b@),
{
    match a {
        Token::Tag(x) => match b {
            Token::Tag(y) => *x == *y,
            Token::Literal(_) => false,
        },
        Token::Literal(x) => match b {
            Token::Literal(y) => *x == *y,
            Token::Tag(_) => false,
        },
    }
}

} // verus!
