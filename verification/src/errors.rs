//! Errors of the scripting language.

use vstd::prelude::*;
use crate::lexer::{Token, TokenModel};

verus! {

/// What is wrong with the syntax of a program.
#[derive(Debug, PartialEq, Eq)]
pub enum SyntaxError {
    /// A token other than what was expected, with a description of what
    /// was expected.
    UnexpectedToken(Option<Token>, String),
    UnimplementedToken(Token),
    UnexpectedEof,
}

/// The kinds of error.
#[derive(Debug, PartialEq, Eq)]
pub enum ErrorTypes {
    LexicalError(String),
    SyntaxError(SyntaxError),
    RuntimeError(String),
}

/// An error with the place in the program where it was found.
#[derive(Debug, PartialEq, Eq)]
pub struct Error {
    pub line: u32,
    pub column: u32,
    pub error_type: ErrorTypes,
}

/// What is wrong with the syntax, with text as sequences of characters.
pub ghost enum SyntaxErrorModel {
    UnexpectedToken(Option<TokenModel>, Seq<char>),
    UnimplementedToken(TokenModel),
    UnexpectedEof,
}

/// The kinds of error, with text as sequences of characters.
pub ghost enum ErrorTypesModel {
    LexicalError(Seq<char>),
    SyntaxError(SyntaxErrorModel),
    RuntimeError(Seq<char>),
}

/// An error, with text as sequences of characters.
pub ghost struct ErrorModel {
    pub line: u32,
    pub column: u32,
    pub error_type: ErrorTypesModel,
}

impl View for SyntaxError {
    type V = SyntaxErrorModel;

    open spec fn view(&self) -> SyntaxErrorModel {
        match self {
            SyntaxError::UnexpectedToken(token, expected) => SyntaxErrorModel::UnexpectedToken(
                match token {
                    Some(t) => Some(t@),
                    None => None,
                },
                expected@,
            ),
            SyntaxError::UnimplementedToken(token) => SyntaxErrorModel::UnimplementedToken(token@),
            SyntaxError::UnexpectedEof => SyntaxErrorModel::UnexpectedEof,
        }
    }
}

impl View for ErrorTypes {
    type V = ErrorTypesModel;

    open spec fn view(&self) -> ErrorTypesModel {
        match self {
            ErrorTypes::LexicalError(message) => ErrorTypesModel::LexicalError(message@),
            ErrorTypes::SyntaxError(error) => ErrorTypesModel::SyntaxError(error@),
            ErrorTypes::RuntimeError(message) => ErrorTypesModel::RuntimeError(message@),
        }
    }
}

impl View for Error {
    type V = ErrorModel;

    open spec fn view(&self) -> ErrorModel {
        ErrorModel { line: self.line, column: self.column, error_type: self.error_type@ }
    }
}

/// The text that introduces the description of a token that the parser
/// cannot handle.
pub open spec fn unimplemented_prefix() -> Seq<char> {
    "Unimplemented token: "@
}

/// The debug rendering of a token, as the standard library formats it.
#[verifier::external_body]
fn describe(token: &Token) -> (text: String)
{
    format!("{:?}", token)
}

/// The debug rendering of a syntax error, as the standard library formats
/// it.
#[verifier::external_body]
fn describe_syntax(error: &SyntaxError) -> (text: String)
{
    format!("{:?}", error)
}

/// The text that introduces an error of each kind.
pub open spec fn kind_prefix(error_type: ErrorTypesModel) -> Seq<char> {
    match error_type {
        ErrorTypesModel::LexicalError(_) => "Lexical error: "@,
        ErrorTypesModel::SyntaxError(_) => "Syntax error: "@,
        ErrorTypesModel::RuntimeError(_) => "Runtime error: "@,
    }
}

/// The text that introduces the place of an error.
pub open spec fn place_prefix(line: u32, column: u32) -> Seq<char> {
    "Error at line "@ + crate::text::decimal(line as nat) + ", column "@ + crate::text::decimal(
        column as nat,
    ) + ": "@
}

impl ErrorTypes {
    /// The error as a line of text: the kind, then the message. For a
    /// syntax error the message is a description of the error.
    pub fn to_text(&self) -> (text: String)
        ensures
            kind_prefix(self@).is_prefix_of(text@),
            match self@ {
                ErrorTypesModel::LexicalError(message) => text@ == kind_prefix(self@) + message,
                ErrorTypesModel::RuntimeError(message) => text@ == kind_prefix(self@) + message,
                ErrorTypesModel::SyntaxError(_) => true,
            },
    {
        let text = match self {
            ErrorTypes::LexicalError(message) => crate::text::join2(
                "Lexical error: ",
                message.as_str(),
            ),
            ErrorTypes::SyntaxError(error) => crate::text::join2(
                "Syntax error: ",
                describe_syntax(error).as_str(),
            ),
            ErrorTypes::RuntimeError(message) => crate::text::join2(
                "Runtime error: ",
                message.as_str(),
            ),
        };
        assert(text@.subrange(0, kind_prefix(self@).len() as int) =~= kind_prefix(self@));
        text
    }
}

impl Error {
    /// The error as a line of text: the place, then the kind and the
    /// message.
    pub fn to_text(&self) -> (text: String)
        ensures
            (place_prefix(self.line, self.column) + kind_prefix(self.error_type@)).is_prefix_of(
                text@,
            ),
            match self.error_type@ {
                ErrorTypesModel::LexicalError(message) => text@ == place_prefix(
                    self.line,
                    self.column,
                ) + kind_prefix(self.error_type@) + message,
                ErrorTypesModel::RuntimeError(message) => text@ == place_prefix(
                    self.line,
                    self.column,
                ) + kind_prefix(self.error_type@) + message,
                ErrorTypesModel::SyntaxError(_) => true,
            },
    {
        let line = crate::text::count_string(self.line as usize);
        let column = crate::text::count_string(self.column as usize);
        let head = crate::text::join3("Error at line ", line.as_str(), ", column ");
        let place = crate::text::join3(head.as_str(), column.as_str(), ": ");
        let kind = self.error_type.to_text();
        let text = crate::text::join2(place.as_str(), kind.as_str());
        proof {
            let prefix = place_prefix(self.line, self.column) + kind_prefix(self.error_type@);
            assert(place@ == place_prefix(self.line, self.column));
            assert(kind@.subrange(0, kind_prefix(self.error_type@).len() as int) == kind_prefix(
                self.error_type@,
            ));
            assert(text@.subrange(0, prefix.len() as int) =~= prefix);
            match self.error_type@ {
                ErrorTypesModel::LexicalError(message) => {
                    assert(text@ =~= place_prefix(self.line, self.column) + kind_prefix(
                        self.error_type@,
                    ) + message);
                },
                ErrorTypesModel::RuntimeError(message) => {
                    assert(text@ =~= place_prefix(self.line, self.column) + kind_prefix(
                        self.error_type@,
                    ) + message);
                },
                ErrorTypesModel::SyntaxError(_) => {},
            }
        }
        text
    }

    /// An error of the given kind at the given place.
    pub fn new(line: u32, column: u32, error_type: ErrorTypes) -> (e: Self)
        ensures
            e.line == line,
            e.column == column,
            e.error_type == error_type,
    {
        Error { line, column, error_type }
    }

    /// The error for a token that the parser cannot handle: a lexical
    /// error at the place of the token, whose message is
    /// `Unimplemented token: ` followed by a description of the token.
    pub fn unimplemented_token(token: &Token) -> (e: Self)
        ensures
            e.line == token.line,
            e.column == token.column,
            e@.error_type is LexicalError,
            unimplemented_prefix().is_prefix_of(e@.error_type->LexicalError_0),
    {
        let text = describe(token);
        let message = crate::text::join2("Unimplemented token: ", text.as_str());
        assert(message@.subrange(0, unimplemented_prefix().len() as int)
            =~= unimplemented_prefix());
        Error {
            line: token.line,
            column: token.column,
            error_type: ErrorTypes::LexicalError(message),
        }
    }

    /// The error for a token other than the expected one: a syntax error
    /// at the place of the token that names the token and what was
    /// expected.
    pub fn syntax_error(token: &Token, expected: &str) -> (e: Self)
        ensures
            e@ == (ErrorModel {
                line: token.line,
                column: token.column,
                error_type: ErrorTypesModel::SyntaxError(
                    SyntaxErrorModel::UnexpectedToken(Some(token@), expected@),
                ),
            }),
    {
        Error {
            line: token.line,
            column: token.column,
            error_type: ErrorTypes::SyntaxError(
                SyntaxError::UnexpectedToken(Some(token.clone()), expected.to_owned()),
            ),
        }
    }

    /// The error for a program that ends too early: a syntax error at line
    /// 0, column 0.
    pub fn unexpected_eof() -> (e: Self)
        ensures
            e@ == (ErrorModel {
                line: 0,
                column: 0,
                error_type: ErrorTypesModel::SyntaxError(SyntaxErrorModel::UnexpectedEof),
            }),
    {
        Error {
            line: 0,
            column: 0,
            error_type: ErrorTypes::SyntaxError(SyntaxError::UnexpectedEof),
        }
    }
}

} // verus!
