//! The parser: from the tokens of a script to its statements.
//!
//! ```text
//! script      := (statement ';')*
//! statement   := input? body output?
//! input       := '.' Name
//! output      := '->' '.' Name
//! body        := union | difference | query | recurse | 'out' | (nothing, after an input)
//! union       := '(' (statement ';')* ')'
//! difference  := '(' statement ';' '-' statement ';' ')'
//! query       := ('node'|'way'|'relation'|'derived'|'area'|'nwr') filter*
//! filter      := '(' Number ')'
//!              | '(' Number ',' Number ',' Number ',' Number ')'
//!              | '.' Name
//!              | '[' tagFilter ']'
//! tagFilter   := '!' tagSpec | '!~' regex | tagSpec
//!              | tagSpec '=' tagSpec | tagSpec '!=' tagSpec
//!              | tagSpec '!~' regex | tagSpec '!' '~' regex
//! tagSpec     := Name | '~' regex
//! regex       := Name (',' 'i')?
//! recurse     := '<' | '<<' | '>' | '>>'
//! ```

use vstd::prelude::*;
use crate::ql::number::Decimal;
use crate::ql::statement::{
    default_name, Filter, FilterView, QueryType, RecurseType, RegexError, SetName, Statement,
    StatementSpec, StatementSpecView, StatementView, TagSpec, TagSpecView, filters_view,
    names_view, script_view, statement_view,
};
use crate::ql::tokens::{LexError, Token, TokenView, tokenize, tokens_from, tokens_view};
use crate::pattern::compiled;

verus! {

/// Why the tokens of a script are no script.
#[derive(Debug, Clone, Copy, PartialEq, Eq, Structural)]
pub enum ParseErrorKind {
    /// A token that cannot stand where it stands.
    UnexpectedToken,
    /// The script ends inside parentheses or brackets.
    UnterminatedGroup,
    /// A statement is not followed by a semicolon.
    MissingSemicolon,
}

/// A syntax error with the position of the offending token, or the length
/// of the script where the script ends too early.
#[derive(Debug, Clone, Copy, PartialEq, Eq, Structural)]
pub struct ParseError {
    pub position: usize,
    pub kind: ParseErrorKind,
}

/// Why a text is no script.
#[derive(Debug, PartialEq, Eq)]
pub enum ScriptError {
    Lex(LexError),
    Parse(ParseError),
    Regex(RegexError),
}

/// An error of a script as a mathematical value. Of a pattern that does not
/// compile it keeps the pattern.
pub enum ScriptErrorView {
    Lex(LexError),
    Parse(ParseError),
    Regex { source: Seq<char> },
}

impl View for ScriptError {
    type V = ScriptErrorView;

    open spec fn view(&self) -> ScriptErrorView {
        match *self {
            ScriptError::Lex(e) => ScriptErrorView::Lex(e),
            ScriptError::Parse(e) => ScriptErrorView::Parse(e),
            ScriptError::Regex(e) => ScriptErrorView::Regex { source: e.source@ },
        }
    }
}

/// Tokens with their positions.
pub type Tokens = Seq<(usize, TokenView)>;

/// What a production yields: a value and the index of the token behind it,
/// or an error.
pub type Parsed<T> = Result<(T, int), ScriptErrorView>;

/// The token at index `pos`, if there is one.
pub open spec fn kind_at(tokens: Tokens, pos: int) -> Option<TokenView> {
    if 0 <= pos < tokens.len() {
        Some(tokens[pos].1)
    } else {
        None
    }
}

/// The name at index `pos`, if a string literal or a bare identifier
/// stands there.
pub open spec fn name_at(tokens: Tokens, pos: int) -> Option<Seq<char>> {
    match kind_at(tokens, pos) {
        Some(TokenView::StringLiteral(s)) => Some(s),
        _ => None,
    }
}

/// The number at index `pos`, if one stands there.
pub open spec fn number_token_at(tokens: Tokens, pos: int) -> Option<Decimal> {
    match kind_at(tokens, pos) {
        Some(TokenView::Number(n)) => Some(n),
        _ => None,
    }
}

/// The error for the token at index `pos`, which cannot stand there. Where
/// the tokens end there, `end` is the position and the kind says whether
/// the script ends inside a group.
pub open spec fn unexpected(tokens: Tokens, pos: int, end: usize, in_group: bool) -> ScriptErrorView {
    if 0 <= pos < tokens.len() {
        ScriptErrorView::Parse(
            ParseError { position: tokens[pos].0, kind: ParseErrorKind::UnexpectedToken },
        )
    } else if in_group {
        ScriptErrorView::Parse(
            ParseError { position: end, kind: ParseErrorKind::UnterminatedGroup },
        )
    } else {
        ScriptErrorView::Parse(ParseError { position: end, kind: ParseErrorKind::MissingSemicolon })
    }
}

/// The error where a semicolon should stand at index `pos` and does not.
pub open spec fn missing_semicolon(tokens: Tokens, pos: int, end: usize, in_group: bool) -> ScriptErrorView {
    if 0 <= pos < tokens.len() {
        ScriptErrorView::Parse(
            ParseError { position: tokens[pos].0, kind: ParseErrorKind::MissingSemicolon },
        )
    } else {
        unexpected(tokens, pos, end, in_group)
    }
}

/// `(',' 'i')?`: whether the flag for case-insensitivity stands at index
/// `pos`, and the index behind it.
pub open spec fn case_flag_at(tokens: Tokens, pos: int) -> (bool, int) {
    if kind_at(tokens, pos) == Some(TokenView::Comma) && name_at(tokens, pos + 1) == Some("i"@) {
        (true, pos + 2)
    } else {
        (false, pos)
    }
}

/// A name at index `pos`, taken as an exact string, or as a regular
/// expression with its optional flag.
pub open spec fn tag_spec_at(tokens: Tokens, pos: int, end: usize, regex: bool) -> Parsed<
    TagSpecView,
> {
    match name_at(tokens, pos) {
        None => Err(unexpected(tokens, pos, end, true)),
        Some(name) => if regex {
            let (case_insensitive, next) = case_flag_at(tokens, pos + 1);
            if compiled(name, case_insensitive) is Some {
                Ok((TagSpecView::Regex(name, case_insensitive), next))
            } else {
                Err(ScriptErrorView::Regex { source: name })
            }
        } else {
            Ok((TagSpecView::String(name), pos + 1))
        },
    }
}

/// `tagSpec := Name | '~' regex`
pub open spec fn any_tag_spec_at(tokens: Tokens, pos: int, end: usize) -> Parsed<TagSpecView> {
    if kind_at(tokens, pos) == Some(TokenView::Matches) {
        tag_spec_at(tokens, pos + 1, end, true)
    } else {
        tag_spec_at(tokens, pos, end, false)
    }
}

/// The closing bracket at index `pos`, which ends the filter.
pub open spec fn close_bracket_at(tokens: Tokens, pos: int, end: usize, filter: FilterView) -> Parsed<
    FilterView,
> {
    if kind_at(tokens, pos) == Some(TokenView::BracketClose) {
        Ok((filter, pos + 1))
    } else {
        Err(unexpected(tokens, pos, end, true))
    }
}

/// What follows the key of a tag filter from index `pos` on.
pub open spec fn tag_filter_tail_at(tokens: Tokens, pos: int, end: usize, k: TagSpecView) -> Parsed<
    FilterView,
> {
    match kind_at(tokens, pos) {
        Some(TokenView::BracketClose) => Ok((FilterView::TagExist { k }, pos + 1)),
        Some(TokenView::Equals) => match any_tag_spec_at(tokens, pos + 1, end) {
            Ok((v, next)) => close_bracket_at(tokens, next, end, FilterView::TagEqual { k, v }),
            Err(e) => Err(e),
        },
        Some(TokenView::EqualsNot) => match any_tag_spec_at(tokens, pos + 1, end) {
            Ok((v, next)) => close_bracket_at(tokens, next, end, FilterView::TagNotEqual { k, v }),
            Err(e) => Err(e),
        },
        Some(TokenView::MatchesNot) => match tag_spec_at(tokens, pos + 1, end, true) {
            Ok((v, next)) => close_bracket_at(tokens, next, end, FilterView::TagNotEqual { k, v }),
            Err(e) => Err(e),
        },
        Some(TokenView::Not) => if kind_at(tokens, pos + 1) == Some(TokenView::Matches) {
            match tag_spec_at(tokens, pos + 2, end, true) {
                Ok((v, next)) => close_bracket_at(
                    tokens,
                    next,
                    end,
                    FilterView::TagNotEqual { k, v },
                ),
                Err(e) => Err(e),
            }
        } else {
            Err(unexpected(tokens, pos + 1, end, true))
        },
        _ => Err(unexpected(tokens, pos, end, true)),
    }
}

/// The tag filter from index `pos` on, which is behind the opening
/// bracket, up to and with the closing one.
pub open spec fn tag_filter_at(tokens: Tokens, pos: int, end: usize) -> Parsed<FilterView> {
    match kind_at(tokens, pos) {
        Some(TokenView::Not) => match any_tag_spec_at(tokens, pos + 1, end) {
            Ok((k, next)) => close_bracket_at(tokens, next, end, FilterView::TagNotExist { k }),
            Err(e) => Err(e),
        },
        Some(TokenView::MatchesNot) => match tag_spec_at(tokens, pos + 1, end, true) {
            Ok((k, next)) => close_bracket_at(tokens, next, end, FilterView::TagNotExist { k }),
            Err(e) => Err(e),
        },
        _ => match any_tag_spec_at(tokens, pos, end) {
            Ok((k, next)) => tag_filter_tail_at(tokens, next, end, k),
            Err(e) => Err(e),
        },
    }
}

/// The filter by id or by bounding box from index `pos` on, which is
/// behind the opening parenthesis, up to and with the closing one. Of an
/// id with a fraction the whole part counts.
pub open spec fn number_filter_at(tokens: Tokens, pos: int, end: usize) -> Parsed<FilterView> {
    match number_token_at(tokens, pos) {
        None => Err(unexpected(tokens, pos, end, true)),
        Some(a) => match kind_at(tokens, pos + 1) {
            Some(TokenView::ParenthesisClose) => Ok((FilterView::Id(a.units), pos + 2)),
            Some(TokenView::Comma) => {
                if number_token_at(tokens, pos + 2) is None {
                    Err(unexpected(tokens, pos + 2, end, true))
                } else if kind_at(tokens, pos + 3) != Some(TokenView::Comma) {
                    Err(unexpected(tokens, pos + 3, end, true))
                } else if number_token_at(tokens, pos + 4) is None {
                    Err(unexpected(tokens, pos + 4, end, true))
                } else if kind_at(tokens, pos + 5) != Some(TokenView::Comma) {
                    Err(unexpected(tokens, pos + 5, end, true))
                } else if number_token_at(tokens, pos + 6) is None {
                    Err(unexpected(tokens, pos + 6, end, true))
                } else if kind_at(tokens, pos + 7) != Some(TokenView::ParenthesisClose) {
                    Err(unexpected(tokens, pos + 7, end, true))
                } else {
                    Ok(
                        (
                            FilterView::BoundingBox {
                                s: a,
                                w: number_token_at(tokens, pos + 2)->0,
                                n: number_token_at(tokens, pos + 4)->0,
                                e: number_token_at(tokens, pos + 6)->0,
                            },
                            pos + 8,
                        ),
                    )
                }
            },
            _ => Err(unexpected(tokens, pos + 1, end, true)),
        },
    }
}

/// The filter that starts at index `pos`, if one starts there.
pub open spec fn filter_at(tokens: Tokens, pos: int, end: usize) -> Option<Parsed<FilterView>> {
    match kind_at(tokens, pos) {
        Some(TokenView::ParenthesisOpen) => Some(number_filter_at(tokens, pos + 1, end)),
        Some(TokenView::BracketOpen) => Some(tag_filter_at(tokens, pos + 1, end)),
        Some(TokenView::Period) => Some(
            match name_at(tokens, pos + 1) {
                Some(name) => Ok((FilterView::Intersection(name), pos + 2)),
                None => Err(unexpected(tokens, pos + 1, end, true)),
            },
        ),
        _ => None,
    }
}

/// `filter*`: the filters from index `pos` on.
pub open spec fn filters_at(tokens: Tokens, pos: int, end: usize) -> Parsed<Seq<FilterView>>
    decreases tokens.len() - pos,
{
    match filter_at(tokens, pos, end) {
        None => Ok((Seq::empty(), pos)),
        Some(Err(e)) => Err(e),
        Some(Ok((filter, next))) => if pos < next <= tokens.len() {
            match filters_at(tokens, next, end) {
                Ok((rest, last)) => Ok((seq![filter] + rest, last)),
                Err(e) => Err(e),
            }
        } else {
            Ok((seq![filter], next))
        },
    }
}

/// The kind of objects that a word asks for, if it is one of the words
/// that start a query.
pub open spec fn query_type_of(word: Seq<char>) -> Option<QueryType> {
    if word == "node"@ {
        Some(QueryType::Node)
    } else if word == "way"@ {
        Some(QueryType::Way)
    } else if word == "relation"@ {
        Some(QueryType::Relation)
    } else if word == "derived"@ {
        Some(QueryType::Derived)
    } else if word == "area"@ {
        Some(QueryType::Area)
    } else if word == "nwr"@ {
        Some(QueryType::NWR)
    } else {
        None
    }
}

/// The direction of a recursion that a token stands for.
pub open spec fn recurse_type_of(token: TokenView) -> Option<RecurseType> {
    match token {
        TokenView::RecurseUp => Some(RecurseType::Up),
        TokenView::RecurseUpRelations => Some(RecurseType::UpRelations),
        TokenView::RecurseDown => Some(RecurseType::Down),
        TokenView::RecurseDownRelations => Some(RecurseType::DownRelations),
        _ => None,
    }
}

/// `output := '->' '.' Name`, or the default set where no arrow stands at
/// index `pos`.
pub open spec fn output_at(tokens: Tokens, pos: int, end: usize, in_group: bool) -> Parsed<Seq<char>> {
    if kind_at(tokens, pos) == Some(TokenView::Arrow) {
        if kind_at(tokens, pos + 1) != Some(TokenView::Period) {
            Err(unexpected(tokens, pos + 1, end, in_group))
        } else {
            match name_at(tokens, pos + 2) {
                Some(name) => Ok((name, pos + 3)),
                None => Err(unexpected(tokens, pos + 2, end, in_group)),
            }
        }
    } else {
        Ok((default_name(), pos))
    }
}

/// `input := '.' Name`, or nothing where no period stands at index `pos`.
pub open spec fn input_at(tokens: Tokens, pos: int, end: usize, in_group: bool) -> Parsed<
    Option<Seq<char>>,
> {
    if kind_at(tokens, pos) == Some(TokenView::Period) {
        match name_at(tokens, pos + 1) {
            Some(name) => Ok((Some(name), pos + 2)),
            None => Err(unexpected(tokens, pos + 1, end, in_group)),
        }
    } else {
        Ok((None, pos))
    }
}

/// The sets that a statement reads: the one it names, or else the default
/// set for a recursion or an output and none for the others.
pub open spec fn inputs_of(input: Option<Seq<char>>, statement: StatementView) -> Seq<Seq<char>> {
    match input {
        Some(name) => seq![name],
        None => match statement {
            StatementView::Recurse(_) => seq![default_name()],
            StatementView::Output => seq![default_name()],
            _ => Seq::empty(),
        },
    }
}

/// The semicolon at index `pos`, which ends a statement.
pub open spec fn semicolon_at(tokens: Tokens, pos: int, end: usize, in_group: bool) -> Result<
    int,
    ScriptErrorView,
> {
    if kind_at(tokens, pos) == Some(TokenView::Semicolon) {
        Ok(pos + 1)
    } else {
        Err(missing_semicolon(tokens, pos, end, in_group))
    }
}

/// `statement := input? body output?`
pub open spec fn statement_at(tokens: Tokens, pos: int, end: usize, in_group: bool) -> Parsed<
    StatementSpecView,
>
    decreases tokens.len() - pos, 2int,
{
    match input_at(tokens, pos, end, in_group) {
        Err(e) => Err(e),
        Ok((input, start)) => if pos <= start {
            match body_at(tokens, start, end, in_group, input is Some) {
                Err(e) => Err(e),
                Ok((statement, next)) => match output_at(tokens, next, end, in_group) {
                    Err(e) => Err(e),
                    Ok((output, last)) => Ok(
                        (
                            StatementSpecView {
                                inputs: inputs_of(input, statement),
                                statement,
                                output,
                            },
                            last,
                        ),
                    ),
                },
            }
        } else {
            Err(unexpected(tokens, pos, end, in_group))
        },
    }
}

/// `body`: what a statement does, from index `pos` on. After an input the
/// body may be missing, which passes the input on.
pub open spec fn body_at(tokens: Tokens, pos: int, end: usize, in_group: bool, has_input: bool) -> Parsed<
    StatementView,
>
    decreases tokens.len() - pos, 1int,
{
    match kind_at(tokens, pos) {
        Some(TokenView::ParenthesisOpen) => group_at(tokens, pos + 1, end),
        Some(TokenView::StringLiteral(word)) => if query_type_of(word) is Some {
            match filters_at(tokens, pos + 1, end) {
                Ok((filters, next)) => Ok(
                    (
                        StatementView::Query {
                            filters: seq![FilterView::QueryType(query_type_of(word)->0)] + filters,
                        },
                        next,
                    ),
                ),
                Err(e) => Err(e),
            }
        } else if word == "out"@ {
            Ok((StatementView::Output, pos + 1))
        } else if has_input {
            Ok((StatementView::Item, pos))
        } else {
            Err(unexpected(tokens, pos, end, in_group))
        },
        Some(token) => if recurse_type_of(token) is Some {
            Ok((StatementView::Recurse(recurse_type_of(token)->0), pos + 1))
        } else if has_input {
            Ok((StatementView::Item, pos))
        } else {
            Err(unexpected(tokens, pos, end, in_group))
        },
        None => if has_input {
            Ok((StatementView::Item, pos))
        } else {
            Err(unexpected(tokens, pos, end, in_group))
        },
    }
}

/// A union or a difference from index `pos` on, which is behind the
/// opening parenthesis, up to and with the closing one.
pub open spec fn group_at(tokens: Tokens, pos: int, end: usize) -> Parsed<StatementView>
    decreases tokens.len() - pos, 4int,
{
    if kind_at(tokens, pos) == Some(TokenView::ParenthesisClose) {
        Ok((StatementView::Union { members: Seq::empty() }, pos + 1))
    } else if pos < 0 || pos >= tokens.len() {
        Err(unexpected(tokens, pos, end, true))
    } else {
        match statement_at(tokens, pos, end, true) {
            Err(e) => Err(e),
            Ok((first, next)) => match semicolon_at(tokens, next, end, true) {
                Err(e) => Err(e),
                Ok(after) => if !(pos < after <= tokens.len()) {
                    Err(unexpected(tokens, pos, end, true))
                } else if kind_at(tokens, after) == Some(TokenView::Difference) {
                    match statement_at(tokens, after + 1, end, true) {
                        Err(e) => Err(e),
                        Ok((second, next)) => match semicolon_at(tokens, next, end, true) {
                            Err(e) => Err(e),
                            Ok(last) => if kind_at(tokens, last) == Some(
                                TokenView::ParenthesisClose,
                            ) {
                                Ok(
                                    (
                                        StatementView::Difference {
                                            source: Box::new(first),
                                            remove: Box::new(second),
                                        },
                                        last + 1,
                                    ),
                                )
                            } else {
                                Err(unexpected(tokens, last, end, true))
                            },
                        },
                    }
                } else {
                    match members_at(tokens, after, end) {
                        Err(e) => Err(e),
                        Ok((rest, last)) => Ok(
                            (StatementView::Union { members: seq![first] + rest }, last),
                        ),
                    }
                },
            },
        }
    }
}

/// `(statement ';')* ')'`: the further members of a union from index `pos`
/// on, up to and with the closing parenthesis.
pub open spec fn members_at(tokens: Tokens, pos: int, end: usize) -> Parsed<Seq<StatementSpecView>>
    decreases tokens.len() - pos, 3int,
{
    if kind_at(tokens, pos) == Some(TokenView::ParenthesisClose) {
        Ok((Seq::empty(), pos + 1))
    } else if pos < 0 || pos >= tokens.len() {
        Err(unexpected(tokens, pos, end, true))
    } else {
        match statement_at(tokens, pos, end, true) {
            Err(e) => Err(e),
            Ok((first, next)) => match semicolon_at(tokens, next, end, true) {
                Err(e) => Err(e),
                Ok(after) => if pos < after <= tokens.len() {
                    match members_at(tokens, after, end) {
                        Err(e) => Err(e),
                        Ok((rest, last)) => Ok((seq![first] + rest, last)),
                    }
                } else {
                    Err(unexpected(tokens, pos, end, true))
                },
            },
        }
    }
}

/// `script := (statement ';')*`: the statements from index `pos` on.
pub open spec fn script_at(tokens: Tokens, pos: int, end: usize) -> Result<
    Seq<StatementSpecView>,
    ScriptErrorView,
>
    decreases tokens.len() - pos,
{
    if pos < 0 || pos >= tokens.len() {
        Ok(Seq::empty())
    } else {
        match statement_at(tokens, pos, end, false) {
            Err(e) => Err(e),
            Ok((first, next)) => match semicolon_at(tokens, next, end, false) {
                Err(e) => Err(e),
                Ok(after) => if pos < after <= tokens.len() {
                    match script_at(tokens, after, end) {
                        Err(e) => Err(e),
                        Ok(rest) => Ok(seq![first] + rest),
                    }
                } else {
                    Err(unexpected(tokens, pos, end, false))
                },
            },
        }
    }
}

/// The statements that a text is a script of, or why it is none.
pub open spec fn script_of(input: Seq<char>) -> Result<Seq<StatementSpecView>, ScriptErrorView> {
    match tokens_from(input, 0) {
        Err(e) => Err(ScriptErrorView::Lex(e)),
        Ok(tokens) => script_at(tokens, 0, input.len() as usize),
    }
}

/// The token at index `pos`, if there is one.
fn peek(tokens: &Vec<(usize, Token)>, pos: usize) -> (r: Option<&Token>)
    ensures
        tokens@.len() <= usize::MAX,
        match r {
            Some(token) => pos < tokens@.len() && kind_at(tokens_view(tokens@), pos as int)
                == Some(token@),
            None => pos >= tokens@.len() && kind_at(tokens_view(tokens@), pos as int) is None,
        },
{
    if pos < tokens.len() {
        Some(&tokens[pos].1)
    } else {
        None
    }
}

/// The name at index `pos`, if one stands there.
fn peek_name(tokens: &Vec<(usize, Token)>, pos: usize) -> (r: Option<&String>)
    ensures
        tokens@.len() <= usize::MAX,
        match r {
            Some(name) => pos < tokens@.len() && name_at(tokens_view(tokens@), pos as int)
                == Some(name@),
            None => name_at(tokens_view(tokens@), pos as int) is None,
        },
{
    match peek(tokens, pos) {
        Some(Token::StringLiteral(s)) => Some(s),
        _ => None,
    }
}

/// The number at index `pos`, if one stands there.
fn peek_number(tokens: &Vec<(usize, Token)>, pos: usize) -> (r: Option<Decimal>)
    ensures
        tokens@.len() <= usize::MAX,
        r == number_token_at(tokens_view(tokens@), pos as int),
        r is Some ==> pos < tokens@.len(),
{
    match peek(tokens, pos) {
        Some(Token::Number(n)) => Some(*n),
        _ => None,
    }
}

/// Whether a comma stands at index `pos`.
fn is_comma(tokens: &Vec<(usize, Token)>, pos: usize) -> (b: bool)
    ensures
        tokens@.len() <= usize::MAX,
        b == (kind_at(tokens_view(tokens@), pos as int) == Some(TokenView::Comma)),
        b ==> pos < tokens@.len(),
{
    match peek(tokens, pos) {
        Some(Token::Comma) => true,
        _ => false,
    }
}

/// The error for the token at index `pos`, which cannot stand there.
fn unexpected_error(tokens: &Vec<(usize, Token)>, pos: usize, end: usize, in_group: bool) -> (e:
    ScriptError)
    ensures
        e@ == unexpected(tokens_view(tokens@), pos as int, end, in_group),
{
    if pos < tokens.len() {
        ScriptError::Parse(
            ParseError { position: tokens[pos].0, kind: ParseErrorKind::UnexpectedToken },
        )
    } else if in_group {
        ScriptError::Parse(ParseError { position: end, kind: ParseErrorKind::UnterminatedGroup })
    } else {
        ScriptError::Parse(ParseError { position: end, kind: ParseErrorKind::MissingSemicolon })
    }
}

/// The index behind the semicolon at index `pos`, or the error where none
/// stands there.
fn parse_semicolon(tokens: &Vec<(usize, Token)>, pos: usize, end: usize, in_group: bool) -> (r:
    Result<usize, ScriptError>)
    ensures
        match r {
            Ok(next) => semicolon_at(tokens_view(tokens@), pos as int, end, in_group) == Ok::<
                int,
                ScriptErrorView,
            >(next as int) && next == pos + 1 && next <= tokens@.len(),
            Err(e) => semicolon_at(tokens_view(tokens@), pos as int, end, in_group) == Err::<
                int,
                ScriptErrorView,
            >(e@),
        },
{
    match peek(tokens, pos) {
        Some(Token::Semicolon) => Ok(pos + 1),
        Some(_) => Err(
            ScriptError::Parse(
                ParseError { position: tokens[pos].0, kind: ParseErrorKind::MissingSemicolon },
            ),
        ),
        None => Err(unexpected_error(tokens, pos, end, in_group)),
    }
}

/// The optional flag for case-insensitivity at index `pos`.
fn parse_case_flag(tokens: &Vec<(usize, Token)>, pos: usize) -> (r: (bool, usize))
    requires
        pos <= tokens@.len(),
    ensures
        case_flag_at(tokens_view(tokens@), pos as int) == (r.0, r.1 as int),
        pos <= r.1 <= tokens@.len(),
{
    if is_comma(tokens, pos) {
        match peek_name(tokens, pos + 1) {
            Some(name) => {
                if name.as_str().eq("i") {
                    return (true, pos + 2);
                }
            },
            None => {},
        }
    }
    (false, pos)
}

/// A name at index `pos`, taken as an exact string or as a regular
/// expression.
fn parse_tag_spec(tokens: &Vec<(usize, Token)>, pos: usize, end: usize, regex: bool) -> (r: Result<
    (TagSpec, usize),
    ScriptError,
>)
    requires
        pos <= tokens@.len(),
    ensures
        match r {
            Ok((spec, next)) => tag_spec_at(tokens_view(tokens@), pos as int, end, regex) == Ok::<
                (TagSpecView, int),
                ScriptErrorView,
            >((spec@, next as int)) && pos < next <= tokens@.len(),
            Err(e) => tag_spec_at(tokens_view(tokens@), pos as int, end, regex) == Err::<
                (TagSpecView, int),
                ScriptErrorView,
            >(e@),
        },
{
    match peek_name(tokens, pos) {
        None => Err(unexpected_error(tokens, pos, end, true)),
        Some(name) => {
            if regex {
                let (case_insensitive, next) = parse_case_flag(tokens, pos + 1);
                match TagSpec::from_regex(name.as_str(), case_insensitive) {
                    Ok(spec) => Ok((spec, next)),
                    Err(error) => Err(ScriptError::Regex(error)),
                }
            } else {
                Ok((TagSpec::from_string(name.as_str()), pos + 1))
            }
        },
    }
}

/// A name, or `~` and a regular expression, at index `pos`.
fn parse_any_tag_spec(tokens: &Vec<(usize, Token)>, pos: usize, end: usize) -> (r: Result<
    (TagSpec, usize),
    ScriptError,
>)
    requires
        pos <= tokens@.len(),
    ensures
        match r {
            Ok((spec, next)) => any_tag_spec_at(tokens_view(tokens@), pos as int, end) == Ok::<
                (TagSpecView, int),
                ScriptErrorView,
            >((spec@, next as int)) && pos < next <= tokens@.len(),
            Err(e) => any_tag_spec_at(tokens_view(tokens@), pos as int, end) == Err::<
                (TagSpecView, int),
                ScriptErrorView,
            >(e@),
        },
{
    match peek(tokens, pos) {
        Some(Token::Matches) => parse_tag_spec(tokens, pos + 1, end, true),
        _ => parse_tag_spec(tokens, pos, end, false),
    }
}

/// The closing bracket at index `pos`, which ends `filter`.
fn parse_close_bracket(tokens: &Vec<(usize, Token)>, pos: usize, end: usize, filter: Filter) -> (r:
    Result<(Filter, usize), ScriptError>)
    ensures
        match r {
            Ok((f, next)) => close_bracket_at(tokens_view(tokens@), pos as int, end, filter@)
                == Ok::<(FilterView, int), ScriptErrorView>((f@, next as int)) && pos < next
                <= tokens@.len(),
            Err(e) => close_bracket_at(tokens_view(tokens@), pos as int, end, filter@) == Err::<
                (FilterView, int),
                ScriptErrorView,
            >(e@),
        },
{
    match peek(tokens, pos) {
        Some(Token::BracketClose) => Ok((filter, pos + 1)),
        _ => Err(unexpected_error(tokens, pos, end, true)),
    }
}

/// What follows the key `k` of a tag filter from index `pos` on.
fn parse_tag_filter_tail(tokens: &Vec<(usize, Token)>, pos: usize, end: usize, k: TagSpec) -> (r:
    Result<(Filter, usize), ScriptError>)
    requires
        pos <= tokens@.len(),
    ensures
        match r {
            Ok((f, next)) => tag_filter_tail_at(tokens_view(tokens@), pos as int, end, k@) == Ok::<
                (FilterView, int),
                ScriptErrorView,
            >((f@, next as int)) && pos < next <= tokens@.len(),
            Err(e) => tag_filter_tail_at(tokens_view(tokens@), pos as int, end, k@) == Err::<
                (FilterView, int),
                ScriptErrorView,
            >(e@),
        },
{
    match peek(tokens, pos) {
        Some(Token::BracketClose) => Ok((Filter::TagExist { k }, pos + 1)),
        Some(Token::Equals) => match parse_any_tag_spec(tokens, pos + 1, end) {
            Ok((v, next)) => parse_close_bracket(tokens, next, end, Filter::TagEqual { k, v }),
            Err(e) => Err(e),
        },
        Some(Token::EqualsNot) => match parse_any_tag_spec(tokens, pos + 1, end) {
            Ok((v, next)) => parse_close_bracket(tokens, next, end, Filter::TagNotEqual { k, v }),
            Err(e) => Err(e),
        },
        Some(Token::MatchesNot) => match parse_tag_spec(tokens, pos + 1, end, true) {
            Ok((v, next)) => parse_close_bracket(tokens, next, end, Filter::TagNotEqual { k, v }),
            Err(e) => Err(e),
        },
        Some(Token::Not) => match peek(tokens, pos + 1) {
            Some(Token::Matches) => match parse_tag_spec(tokens, pos + 2, end, true) {
                Ok((v, next)) => parse_close_bracket(
                    tokens,
                    next,
                    end,
                    Filter::TagNotEqual { k, v },
                ),
                Err(e) => Err(e),
            },
            _ => Err(unexpected_error(tokens, pos + 1, end, true)),
        },
        _ => Err(unexpected_error(tokens, pos, end, true)),
    }
}

/// The tag filter from index `pos` on, which is behind the opening
/// bracket.
fn parse_tag_filter(tokens: &Vec<(usize, Token)>, pos: usize, end: usize) -> (r: Result<
    (Filter, usize),
    ScriptError,
>)
    requires
        pos <= tokens@.len(),
    ensures
        match r {
            Ok((f, next)) => tag_filter_at(tokens_view(tokens@), pos as int, end) == Ok::<
                (FilterView, int),
                ScriptErrorView,
            >((f@, next as int)) && pos < next <= tokens@.len(),
            Err(e) => tag_filter_at(tokens_view(tokens@), pos as int, end) == Err::<
                (FilterView, int),
                ScriptErrorView,
            >(e@),
        },
{
    match peek(tokens, pos) {
        Some(Token::Not) => match parse_any_tag_spec(tokens, pos + 1, end) {
            Ok((k, next)) => parse_close_bracket(tokens, next, end, Filter::TagNotExist { k }),
            Err(e) => Err(e),
        },
        Some(Token::MatchesNot) => match parse_tag_spec(tokens, pos + 1, end, true) {
            Ok((k, next)) => parse_close_bracket(tokens, next, end, Filter::TagNotExist { k }),
            Err(e) => Err(e),
        },
        _ => match parse_any_tag_spec(tokens, pos, end) {
            Ok((k, next)) => parse_tag_filter_tail(tokens, next, end, k),
            Err(e) => Err(e),
        },
    }
}

/// The filter by id or by bounding box from index `pos` on, which is
/// behind the opening parenthesis.
fn parse_number_filter(tokens: &Vec<(usize, Token)>, pos: usize, end: usize) -> (r: Result<
    (Filter, usize),
    ScriptError,
>)
    requires
        pos <= tokens@.len(),
    ensures
        match r {
            Ok((f, next)) => number_filter_at(tokens_view(tokens@), pos as int, end) == Ok::<
                (FilterView, int),
                ScriptErrorView,
            >((f@, next as int)) && pos < next <= tokens@.len(),
            Err(e) => number_filter_at(tokens_view(tokens@), pos as int, end) == Err::<
                (FilterView, int),
                ScriptErrorView,
            >(e@),
        },
{
    let a = match peek_number(tokens, pos) {
        Some(a) => a,
        None => {
            return Err(unexpected_error(tokens, pos, end, true));
        },
    };
    match peek(tokens, pos + 1) {
        Some(Token::ParenthesisClose) => Ok((Filter::Id(a.units), pos + 2)),
        Some(Token::Comma) => {
            let w = match peek_number(tokens, pos + 2) {
                Some(w) => w,
                None => {
                    return Err(unexpected_error(tokens, pos + 2, end, true));
                },
            };
            if !is_comma(tokens, pos + 3) {
                return Err(unexpected_error(tokens, pos + 3, end, true));
            }
            let n = match peek_number(tokens, pos + 4) {
                Some(n) => n,
                None => {
                    return Err(unexpected_error(tokens, pos + 4, end, true));
                },
            };
            if !is_comma(tokens, pos + 5) {
                return Err(unexpected_error(tokens, pos + 5, end, true));
            }
            let e = match peek_number(tokens, pos + 6) {
                Some(e) => e,
                None => {
                    return Err(unexpected_error(tokens, pos + 6, end, true));
                },
            };
            match peek(tokens, pos + 7) {
                Some(Token::ParenthesisClose) => Ok(
                    (Filter::BoundingBox { s: a, w, n, e }, pos + 8),
                ),
                _ => Err(unexpected_error(tokens, pos + 7, end, true)),
            }
        },
        _ => Err(unexpected_error(tokens, pos + 1, end, true)),
    }
}

/// The filter that starts at index `pos`, if one starts there.
fn parse_filter(tokens: &Vec<(usize, Token)>, pos: usize, end: usize) -> (r: Option<
    Result<(Filter, usize), ScriptError>,
>)
    requires
        pos <= tokens@.len(),
    ensures
        match r {
            Some(Ok((f, next))) => filter_at(tokens_view(tokens@), pos as int, end) == Some(
                Ok::<(FilterView, int), ScriptErrorView>((f@, next as int)),
            ) && pos < next <= tokens@.len(),
            Some(Err(e)) => filter_at(tokens_view(tokens@), pos as int, end) == Some(
                Err::<(FilterView, int), ScriptErrorView>(e@),
            ),
            None => filter_at(tokens_view(tokens@), pos as int, end) is None,
        },
{
    match peek(tokens, pos) {
        Some(Token::ParenthesisOpen) => Some(parse_number_filter(tokens, pos + 1, end)),
        Some(Token::BracketOpen) => Some(parse_tag_filter(tokens, pos + 1, end)),
        Some(Token::Period) => Some(
            match peek_name(tokens, pos + 1) {
                Some(name) => Ok((Filter::Intersection(SetName(name.clone())), pos + 2)),
                None => Err(unexpected_error(tokens, pos + 1, end, true)),
            },
        ),
        _ => None,
    }
}

/// The filters from index `pos` on, appended to `filters`.
fn parse_filters(tokens: &Vec<(usize, Token)>, pos: usize, end: usize, filters: Vec<Filter>) -> (r:
    Result<(Vec<Filter>, usize), ScriptError>)
    requires
        pos <= tokens@.len(),
    ensures
        match r {
            Ok((all, next)) => filters_at(tokens_view(tokens@), pos as int, end) matches Ok(
                (found, last),
            ) && filters_view(all@) == filters_view(filters@) + found && next == last && pos
                <= next <= tokens@.len(),
            Err(e) => filters_at(tokens_view(tokens@), pos as int, end) == Err::<
                (Seq<FilterView>, int),
                ScriptErrorView,
            >(e@),
        },
{
    let ghost tv = tokens_view(tokens@);
    let ghost given = filters_view(filters@);
    let mut all = filters;
    let mut at = pos;
    loop
        invariant
            pos <= at <= tokens@.len(),
            tv == tokens_view(tokens@),
            filters_at(tv, pos as int, end) == match filters_at(tv, at as int, end) {
                Ok((rest, last)) => Ok::<(Seq<FilterView>, int), ScriptErrorView>(
                    (filters_view(all@).subrange(given.len() as int, all@.len() as int)
                        + rest, last),
                ),
                Err(e) => Err(e),
            },
            given.len() <= all@.len(),
            given == filters_view(filters@),
            filters_view(all@).subrange(0, given.len() as int) == given,
        decreases tokens@.len() - at,
    {
        let ghost before = filters_view(all@);
        match parse_filter(tokens, at, end) {
            None => {
                proof {
                    let found = before.subrange(given.len() as int, before.len() as int);
                    assert(found + Seq::<FilterView>::empty() == found);
                    assert(before == given + found);
                }
                return Ok((all, at));
            },
            Some(Err(e)) => {
                return Err(e);
            },
            Some(Ok((filter, next))) => {
                let ghost f = filter@;
                all.push(filter);
                proof {
                    let after = filters_view(all@);
                    assert(after == before.push(f));
                    let found = before.subrange(given.len() as int, before.len() as int);
                    assert(after.subrange(given.len() as int, after.len() as int) == found.push(
                        f,
                    ));
                    assert(after.subrange(0, given.len() as int) == before.subrange(
                        0,
                        given.len() as int,
                    ));
                    match filters_at(tv, next as int, end) {
                        Ok((rest, last)) => {
                            assert(found + (seq![f] + rest) == found.push(f) + rest);
                        },
                        Err(_) => {},
                    }
                }
                at = next;
            },
        }
    }
}

/// The kind of objects that `word` asks for, if it starts a query.
fn query_type(word: &str) -> (r: Option<QueryType>)
    ensures
        r == query_type_of(word@),
{
    if word.eq("node") {
        Some(QueryType::Node)
    } else if word.eq("way") {
        Some(QueryType::Way)
    } else if word.eq("relation") {
        Some(QueryType::Relation)
    } else if word.eq("derived") {
        Some(QueryType::Derived)
    } else if word.eq("area") {
        Some(QueryType::Area)
    } else if word.eq("nwr") {
        Some(QueryType::NWR)
    } else {
        None
    }
}

/// The direction of a recursion that `token` stands for.
fn recurse_type(token: &Token) -> (r: Option<RecurseType>)
    ensures
        r == recurse_type_of(token@),
{
    match token {
        Token::RecurseUp => Some(RecurseType::Up),
        Token::RecurseUpRelations => Some(RecurseType::UpRelations),
        Token::RecurseDown => Some(RecurseType::Down),
        Token::RecurseDownRelations => Some(RecurseType::DownRelations),
        _ => None,
    }
}

/// The set that a statement writes, from index `pos` on.
fn parse_output(tokens: &Vec<(usize, Token)>, pos: usize, end: usize, in_group: bool) -> (r: Result<
    (SetName, usize),
    ScriptError,
>)
    requires
        pos <= tokens@.len(),
    ensures
        match r {
            Ok((name, next)) => output_at(tokens_view(tokens@), pos as int, end, in_group) == Ok::<
                (Seq<char>, int),
                ScriptErrorView,
            >((name@, next as int)) && pos <= next <= tokens@.len(),
            Err(e) => output_at(tokens_view(tokens@), pos as int, end, in_group) == Err::<
                (Seq<char>, int),
                ScriptErrorView,
            >(e@),
        },
{
    match peek(tokens, pos) {
        Some(Token::Arrow) => match peek(tokens, pos + 1) {
            Some(Token::Period) => match peek_name(tokens, pos + 2) {
                Some(name) => Ok((SetName(name.clone()), pos + 3)),
                None => Err(unexpected_error(tokens, pos + 2, end, in_group)),
            },
            _ => Err(unexpected_error(tokens, pos + 1, end, in_group)),
        },
        _ => Ok((SetName::default(), pos)),
    }
}

/// The set that a statement names as its input, from index `pos` on.
fn parse_input(tokens: &Vec<(usize, Token)>, pos: usize, end: usize, in_group: bool) -> (r: Result<
    (Option<SetName>, usize),
    ScriptError,
>)
    requires
        pos <= tokens@.len(),
    ensures
        match r {
            Ok((Some(name), next)) => input_at(tokens_view(tokens@), pos as int, end, in_group)
                == Ok::<(Option<Seq<char>>, int), ScriptErrorView>((Some(name@), next as int))
                && next == pos + 2 && next <= tokens@.len(),
            Ok((None, next)) => input_at(tokens_view(tokens@), pos as int, end, in_group) == Ok::<
                (Option<Seq<char>>, int),
                ScriptErrorView,
            >((None, next as int)) && next == pos,
            Err(e) => input_at(tokens_view(tokens@), pos as int, end, in_group) == Err::<
                (Option<Seq<char>>, int),
                ScriptErrorView,
            >(e@),
        },
{
    match peek(tokens, pos) {
        Some(Token::Period) => match peek_name(tokens, pos + 1) {
            Some(name) => Ok((Some(SetName(name.clone())), pos + 2)),
            None => Err(unexpected_error(tokens, pos + 1, end, in_group)),
        },
        _ => Ok((None, pos)),
    }
}

/// The members of a union are the members' mathematical values, in order.
pub proof fn lemma_union_view(members: Vec<StatementSpec>)
    ensures
        statement_view(Statement::Union { members }) == (StatementView::Union {
            members: script_view(members@),
        }),
{
    let view = statement_view(Statement::Union { members });
    assert(view is Union);
    assert(view->members =~= script_view(members@));
}

/// The sets that a statement reads.
fn inputs_for(input: Option<SetName>, statement: &Statement) -> (r: Vec<SetName>)
    ensures
        names_view(r@) == inputs_of(
            match input {
                Some(name) => Some(name@),
                None => None,
            },
            statement@,
        ),
{
    let mut inputs: Vec<SetName> = Vec::new();
    match input {
        Some(name) => {
            let ghost n = name@;
            inputs.push(name);
            assert(names_view(inputs@) =~= seq![n]);
        },
        None => match statement {
            Statement::Recurse(_) => {
                inputs.push(SetName::default());
                assert(names_view(inputs@) =~= seq![default_name()]);
            },
            Statement::Output => {
                inputs.push(SetName::default());
                assert(names_view(inputs@) =~= seq![default_name()]);
            },
            _ => {
                assert(names_view(inputs@) =~= Seq::<Seq<char>>::empty());
            },
        },
    }
    inputs
}

/// One statement from index `pos` on.
fn parse_statement(tokens: &Vec<(usize, Token)>, pos: usize, end: usize, in_group: bool) -> (r:
    Result<(StatementSpec, usize), ScriptError>)
    requires
        pos <= tokens@.len(),
    ensures
        match r {
            Ok((spec, next)) => statement_at(tokens_view(tokens@), pos as int, end, in_group)
                == Ok::<(StatementSpecView, int), ScriptErrorView>((spec@, next as int)) && pos
                < next <= tokens@.len(),
            Err(e) => statement_at(tokens_view(tokens@), pos as int, end, in_group) == Err::<
                (StatementSpecView, int),
                ScriptErrorView,
            >(e@),
        },
    decreases tokens@.len() - pos, 2int,
{
    let (input, start) = match parse_input(tokens, pos, end, in_group) {
        Ok(found) => found,
        Err(e) => {
            return Err(e);
        },
    };
    let has_input = input.is_some();
    let (statement, next) = match parse_body(tokens, start, end, in_group, has_input) {
        Ok(found) => found,
        Err(e) => {
            return Err(e);
        },
    };
    let (output, last) = match parse_output(tokens, next, end, in_group) {
        Ok(found) => found,
        Err(e) => {
            return Err(e);
        },
    };
    let inputs = inputs_for(input, &statement);
    Ok((StatementSpec { inputs, statement, output }, last))
}

/// What a statement does, from index `pos` on.
fn parse_body(
    tokens: &Vec<(usize, Token)>,
    pos: usize,
    end: usize,
    in_group: bool,
    has_input: bool,
) -> (r: Result<(Statement, usize), ScriptError>)
    requires
        pos <= tokens@.len(),
    ensures
        match r {
            Ok((statement, next)) => body_at(
                tokens_view(tokens@),
                pos as int,
                end,
                in_group,
                has_input,
            ) == Ok::<(StatementView, int), ScriptErrorView>((statement@, next as int)) && pos
                <= next <= tokens@.len() && (!has_input ==> pos < next),
            Err(e) => body_at(tokens_view(tokens@), pos as int, end, in_group, has_input) == Err::<
                (StatementView, int),
                ScriptErrorView,
            >(e@),
        },
    decreases tokens@.len() - pos, 1int,
{
    match peek(tokens, pos) {
        Some(Token::ParenthesisOpen) => parse_group(tokens, pos + 1, end),
        Some(Token::StringLiteral(word)) => {
            match query_type(word.as_str()) {
                Some(kind) => {
                    let mut filters: Vec<Filter> = Vec::new();
                    filters.push(Filter::QueryType(kind));
                    assert(filters_view(filters@) =~= seq![FilterView::QueryType(kind)]);
                    match parse_filters(tokens, pos + 1, end, filters) {
                        Ok((all, next)) => Ok((Statement::Query { filters: all }, next)),
                        Err(e) => Err(e),
                    }
                },
                None => {
                    if word.as_str().eq("out") {
                        Ok((Statement::Output, pos + 1))
                    } else if has_input {
                        Ok((Statement::Item, pos))
                    } else {
                        Err(unexpected_error(tokens, pos, end, in_group))
                    }
                },
            }
        },
        Some(token) => {
            match recurse_type(token) {
                Some(direction) => Ok((Statement::Recurse(direction), pos + 1)),
                None => {
                    if has_input {
                        Ok((Statement::Item, pos))
                    } else {
                        Err(unexpected_error(tokens, pos, end, in_group))
                    }
                },
            }
        },
        None => {
            if has_input {
                Ok((Statement::Item, pos))
            } else {
                Err(unexpected_error(tokens, pos, end, in_group))
            }
        },
    }
}

/// A union or a difference from index `pos` on, which is behind the
/// opening parenthesis.
fn parse_group(tokens: &Vec<(usize, Token)>, pos: usize, end: usize) -> (r: Result<
    (Statement, usize),
    ScriptError,
>)
    requires
        pos <= tokens@.len(),
    ensures
        match r {
            Ok((statement, next)) => group_at(tokens_view(tokens@), pos as int, end) == Ok::<
                (StatementView, int),
                ScriptErrorView,
            >((statement@, next as int)) && pos < next <= tokens@.len(),
            Err(e) => group_at(tokens_view(tokens@), pos as int, end) == Err::<
                (StatementView, int),
                ScriptErrorView,
            >(e@),
        },
    decreases tokens@.len() - pos, 4int,
{
    match peek(tokens, pos) {
        Some(Token::ParenthesisClose) => {
            let members: Vec<StatementSpec> = Vec::new();
            proof {
                lemma_union_view(members);
                assert(script_view(members@) =~= Seq::<StatementSpecView>::empty());
            }
            return Ok((Statement::Union { members }, pos + 1));
        },
        Some(_) => {},
        None => {
            return Err(unexpected_error(tokens, pos, end, true));
        },
    }
    let (first, next) = match parse_statement(tokens, pos, end, true) {
        Ok(found) => found,
        Err(e) => {
            return Err(e);
        },
    };
    let after = match parse_semicolon(tokens, next, end, true) {
        Ok(after) => after,
        Err(e) => {
            return Err(e);
        },
    };
    match peek(tokens, after) {
        Some(Token::Difference) => {
            let (second, next) = match parse_statement(tokens, after + 1, end, true) {
                Ok(found) => found,
                Err(e) => {
                    return Err(e);
                },
            };
            let last = match parse_semicolon(tokens, next, end, true) {
                Ok(last) => last,
                Err(e) => {
                    return Err(e);
                },
            };
            match peek(tokens, last) {
                Some(Token::ParenthesisClose) => Ok(
                    (
                        Statement::Difference { source: Box::new(first), remove: Box::new(second) },
                        last + 1,
                    ),
                ),
                _ => Err(unexpected_error(tokens, last, end, true)),
            }
        },
        _ => {
            let ghost head = first@;
            let mut members: Vec<StatementSpec> = Vec::new();
            members.push(first);
            assert(script_view(members@) =~= seq![head]);
            match parse_members(tokens, after, end, members) {
                Ok((all, last)) => {
                    proof {
                        lemma_union_view(all);
                    }
                    Ok((Statement::Union { members: all }, last))
                },
                Err(e) => Err(e),
            }
        },
    }
}

/// The further members of a union from index `pos` on, appended to
/// `members`, up to and with the closing parenthesis.
fn parse_members(
    tokens: &Vec<(usize, Token)>,
    pos: usize,
    end: usize,
    members: Vec<StatementSpec>,
) -> (r: Result<(Vec<StatementSpec>, usize), ScriptError>)
    requires
        pos <= tokens@.len(),
    ensures
        match r {
            Ok((all, next)) => members_at(tokens_view(tokens@), pos as int, end) matches Ok(
                (found, last),
            ) && script_view(all@) == script_view(members@) + found && next == last && pos < next
                <= tokens@.len(),
            Err(e) => members_at(tokens_view(tokens@), pos as int, end) == Err::<
                (Seq<StatementSpecView>, int),
                ScriptErrorView,
            >(e@),
        },
    decreases tokens@.len() - pos, 3int,
{
    let ghost tv = tokens_view(tokens@);
    let ghost given = script_view(members@);
    let mut all = members;
    let mut at = pos;
    loop
        invariant
            pos <= at <= tokens@.len(),
            tv == tokens_view(tokens@),
            members_at(tv, pos as int, end) == match members_at(tv, at as int, end) {
                Ok((rest, last)) => Ok::<(Seq<StatementSpecView>, int), ScriptErrorView>(
                    (script_view(all@).subrange(given.len() as int, all@.len() as int) + rest,
                        last),
                ),
                Err(e) => Err(e),
            },
            given.len() <= all@.len(),
            given == script_view(members@),
            script_view(all@).subrange(0, given.len() as int) == given,
        decreases tokens@.len() - at,
    {
        let ghost before = script_view(all@);
        match peek(tokens, at) {
            Some(Token::ParenthesisClose) => {
                proof {
                    let found = before.subrange(given.len() as int, before.len() as int);
                    assert(found + Seq::<StatementSpecView>::empty() == found);
                    assert(before == given + found);
                }
                return Ok((all, at + 1));
            },
            Some(_) => {},
            None => {
                return Err(unexpected_error(tokens, at, end, true));
            },
        }
        let (member, next) = match parse_statement(tokens, at, end, true) {
            Ok(found) => found,
            Err(e) => {
                return Err(e);
            },
        };
        let after = match parse_semicolon(tokens, next, end, true) {
            Ok(after) => after,
            Err(e) => {
                return Err(e);
            },
        };
        let ghost m = member@;
        all.push(member);
        proof {
            let now = script_view(all@);
            assert(now == before.push(m));
            let found = before.subrange(given.len() as int, before.len() as int);
            assert(now.subrange(given.len() as int, now.len() as int) == found.push(m));
            assert(now.subrange(0, given.len() as int) == before.subrange(0, given.len() as int));
            match members_at(tv, after as int, end) {
                Ok((rest, last)) => {
                    assert(found + (seq![m] + rest) == found.push(m) + rest);
                },
                Err(_) => {},
            }
        }
        at = after;
    }
}

/// The statements that the given tokens are a script of. `end` is the
/// length of the text that the tokens come from, the position of an error
/// at its end.
pub fn parse_tokens(tokens: &Vec<(usize, Token)>, end: usize) -> (r: Result<
    Vec<StatementSpec>,
    ScriptError,
>)
    ensures
        match r {
            Ok(script) => script_at(tokens_view(tokens@), 0, end) == Ok::<
                Seq<StatementSpecView>,
                ScriptErrorView,
            >(script_view(script@)),
            Err(e) => script_at(tokens_view(tokens@), 0, end) == Err::<
                Seq<StatementSpecView>,
                ScriptErrorView,
            >(e@),
        },
{
    let ghost tv = tokens_view(tokens@);
    let mut script: Vec<StatementSpec> = Vec::new();
    let mut at: usize = 0;
    while at < tokens.len()
        invariant
            at <= tokens@.len(),
            tv == tokens_view(tokens@),
            script_at(tv, 0, end) == match script_at(tv, at as int, end) {
                Ok(rest) => Ok::<Seq<StatementSpecView>, ScriptErrorView>(
                    script_view(script@) + rest,
                ),
                Err(e) => Err(e),
            },
        decreases tokens@.len() - at,
    {
        let ghost before = script_view(script@);
        let (statement, next) = match parse_statement(tokens, at, end, false) {
            Ok(found) => found,
            Err(e) => {
                return Err(e);
            },
        };
        let after = match parse_semicolon(tokens, next, end, false) {
            Ok(after) => after,
            Err(e) => {
                return Err(e);
            },
        };
        let ghost st = statement@;
        script.push(statement);
        proof {
            assert(script_view(script@) == before.push(st));
            match script_at(tv, after as int, end) {
                Ok(rest) => {
                    assert(before + (seq![st] + rest) == before.push(st) + rest);
                },
                Err(_) => {},
            }
        }
        at = after;
    }
    proof {
        assert(script_view(script@) + Seq::<StatementSpecView>::empty() == script_view(script@));
    }
    Ok(script)
}

/// The statements of a script, or why the text is none.
pub fn parse(input: &str) -> (r: Result<Vec<StatementSpec>, ScriptError>)
    ensures
        match r {
            Ok(script) => script_of(input@) == Ok::<Seq<StatementSpecView>, ScriptErrorView>(
                script_view(script@),
            ),
            Err(e) => script_of(input@) == Err::<Seq<StatementSpecView>, ScriptErrorView>(e@),
        },
{
    let end = input.unicode_len();
    match tokenize(input) {
        Ok(tokens) => parse_tokens(&tokens, end),
        Err(e) => Err(ScriptError::Lex(e)),
    }
}

} // verus!
