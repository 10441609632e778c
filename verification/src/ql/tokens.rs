//! The lexer: from the characters of a script to its tokens, each with the
//! position of its first character.

use vstd::prelude::*;
use crate::ql::number::Decimal;
use crate::text::{chars_of, is_alphabetic_char, is_whitespace_char};

verus! {

/// A token of the query language. A bare identifier is a string literal
/// too.
#[derive(PartialEq, Debug)]
pub enum Token {
    ParenthesisOpen,
    ParenthesisClose,
    BracketOpen,
    BracketClose,
    StringLiteral(String),
    Number(Decimal),
    Period,
    Comma,
    Arrow,
    DoubleColon,
    Colon,
    Semicolon,
    Difference,
    RecurseUpRelations,
    RecurseUp,
    RecurseDownRelations,
    RecurseDown,
    Equals,
    EqualsNot,
    Matches,
    MatchesNot,
    Not,
}

/// A token as a mathematical value.
pub enum TokenView {
    ParenthesisOpen,
    ParenthesisClose,
    BracketOpen,
    BracketClose,
    StringLiteral(Seq<char>),
    Number(Decimal),
    Period,
    Comma,
    Arrow,
    DoubleColon,
    Colon,
    Semicolon,
    Difference,
    RecurseUpRelations,
    RecurseUp,
    RecurseDownRelations,
    RecurseDown,
    Equals,
    EqualsNot,
    Matches,
    MatchesNot,
    Not,
}

impl View for Token {
    type V = TokenView;

    open spec fn view(&self) -> TokenView {
        match *self {
            Token::ParenthesisOpen => TokenView::ParenthesisOpen,
            Token::ParenthesisClose => TokenView::ParenthesisClose,
            Token::BracketOpen => TokenView::BracketOpen,
            Token::BracketClose => TokenView::BracketClose,
            Token::StringLiteral(s) => TokenView::StringLiteral(s@),
            Token::Number(n) => TokenView::Number(n),
            Token::Period => TokenView::Period,
            Token::Comma => TokenView::Comma,
            Token::Arrow => TokenView::Arrow,
            Token::DoubleColon => TokenView::DoubleColon,
            Token::Colon => TokenView::Colon,
            Token::Semicolon => TokenView::Semicolon,
            Token::Difference => TokenView::Difference,
            Token::RecurseUpRelations => TokenView::RecurseUpRelations,
            Token::RecurseUp => TokenView::RecurseUp,
            Token::RecurseDownRelations => TokenView::RecurseDownRelations,
            Token::RecurseDown => TokenView::RecurseDown,
            Token::Equals => TokenView::Equals,
            Token::EqualsNot => TokenView::EqualsNot,
            Token::Matches => TokenView::Matches,
            Token::MatchesNot => TokenView::MatchesNot,
            Token::Not => TokenView::Not,
        }
    }
}

/// Why a script has no tokens.
#[derive(Debug, Clone, Copy, PartialEq, Eq, Structural)]
pub enum LexErrorKind {
    /// A character with which no token starts.
    IllegalCharacter,
    /// A string literal whose closing delimiter is missing.
    UnterminatedString,
    /// A number whose whole part is too large.
    MalformedNumber,
}

/// A lexical error and the position of the character at which the token
/// that failed starts.
#[derive(Debug, Clone, Copy, PartialEq, Eq, Structural)]
pub struct LexError {
    pub position: usize,
    pub kind: LexErrorKind,
}

/// Whether `input` continues at `pos` with the characters of `other`.
pub open spec fn starts_with(input: Seq<char>, pos: int, other: Seq<char>) -> bool {
    0 <= pos && pos + other.len() <= input.len() && input.subrange(pos, pos + other.len())
        == other
}

/// The operator or bracket with which `input` continues at `pos`, and its
/// length. Of two that fit, the longer one is meant.
pub open spec fn literal_at(input: Seq<char>, pos: int) -> Option<(TokenView, int)> {
    if starts_with(input, pos, seq!['(']) {
        Some((TokenView::ParenthesisOpen, 1))
    } else if starts_with(input, pos, seq![')']) {
        Some((TokenView::ParenthesisClose, 1))
    } else if starts_with(input, pos, seq!['[']) {
        Some((TokenView::BracketOpen, 1))
    } else if starts_with(input, pos, seq![']']) {
        Some((TokenView::BracketClose, 1))
    } else if starts_with(input, pos, seq!['.']) {
        Some((TokenView::Period, 1))
    } else if starts_with(input, pos, seq![',']) {
        Some((TokenView::Comma, 1))
    } else if starts_with(input, pos, seq!['-', '>']) {
        Some((TokenView::Arrow, 2))
    } else if starts_with(input, pos, seq![':', ':']) {
        Some((TokenView::DoubleColon, 2))
    } else if starts_with(input, pos, seq![':']) {
        Some((TokenView::Colon, 1))
    } else if starts_with(input, pos, seq![';']) {
        Some((TokenView::Semicolon, 1))
    } else if starts_with(input, pos, seq!['-']) {
        Some((TokenView::Difference, 1))
    } else if starts_with(input, pos, seq!['<', '<']) {
        Some((TokenView::RecurseUpRelations, 2))
    } else if starts_with(input, pos, seq!['<']) {
        Some((TokenView::RecurseUp, 1))
    } else if starts_with(input, pos, seq!['>', '>']) {
        Some((TokenView::RecurseDownRelations, 2))
    } else if starts_with(input, pos, seq!['>']) {
        Some((TokenView::RecurseDown, 1))
    } else if starts_with(input, pos, seq!['=']) {
        Some((TokenView::Equals, 1))
    } else if starts_with(input, pos, seq!['!', '=']) {
        Some((TokenView::EqualsNot, 2))
    } else if starts_with(input, pos, seq!['~']) {
        Some((TokenView::Matches, 1))
    } else if starts_with(input, pos, seq!['!', '~']) {
        Some((TokenView::MatchesNot, 2))
    } else if starts_with(input, pos, seq!['!']) {
        Some((TokenView::Not, 1))
    } else {
        None
    }
}

/// The first position from `pos` on that holds no white space, or the end
/// of the input.
pub open spec fn skip_whitespace(input: Seq<char>, pos: int) -> int
    decreases input.len() - pos,
{
    if 0 <= pos < input.len() && is_whitespace_char(input[pos]) {
        skip_whitespace(input, pos + 1)
    } else {
        pos
    }
}

/// A decimal digit.
pub open spec fn is_digit_char(c: char) -> bool {
    '0' <= c <= '9'
}

/// A character of a bare identifier.
pub open spec fn is_word_char(c: char) -> bool {
    is_alphabetic_char(c) || is_digit_char(c) || c == '_'
}

/// The end of the run of digits that starts at `pos`.
pub open spec fn digits_end(input: Seq<char>, pos: int) -> int
    decreases input.len() - pos,
{
    if 0 <= pos < input.len() && is_digit_char(input[pos]) {
        digits_end(input, pos + 1)
    } else {
        pos
    }
}

/// The end of the run of identifier characters that starts at `pos`.
pub open spec fn word_end(input: Seq<char>, pos: int) -> int
    decreases input.len() - pos,
{
    if 0 <= pos < input.len() && is_word_char(input[pos]) {
        word_end(input, pos + 1)
    } else {
        pos
    }
}

/// The number that a digit stands for.
pub open spec fn digit_value(c: char) -> nat {
    (c as u32 - '0' as u32) as nat
}

/// The number that a run of digits writes in base ten.
pub open spec fn decimal_value(digits: Seq<char>) -> nat
    decreases digits.len(),
{
    if digits.len() == 0 {
        0
    } else {
        decimal_value(digits.drop_last()) * 10 + digit_value(digits.last())
    }
}

/// Ten to the power of `n`.
pub open spec fn pow10(n: nat) -> nat
    decreases n,
{
    if n == 0 {
        1
    } else {
        10 * pow10((n - 1) as nat)
    }
}

/// The digits after a decimal point as a count of steps of 10^-9: the
/// first nine digits count, what follows is dropped.
pub open spec fn fraction_nanos(digits: Seq<char>) -> nat {
    if digits.len() <= 9 {
        decimal_value(digits) * pow10((9 - digits.len()) as nat)
    } else {
        decimal_value(digits.subrange(0, 9))
    }
}

/// The number that starts at `pos`, with the position behind it: a run of
/// digits, then optionally a point and another run of digits, which may be
/// empty. There is none where no digit stands at `pos` or where the whole
/// part does not fit 64 bits.
pub open spec fn number_at(input: Seq<char>, pos: int) -> Option<(int, Decimal)> {
    let whole_end = digits_end(input, pos);
    let whole = decimal_value(input.subrange(pos, whole_end));
    if whole_end <= pos || whole > u64::MAX {
        None
    } else if whole_end < input.len() && input[whole_end] == '.' {
        let end = digits_end(input, whole_end + 1);
        Some(
            (
                end,
                Decimal {
                    units: whole as u64,
                    nanos: fraction_nanos(input.subrange(whole_end + 1, end)) as u32,
                },
            ),
        )
    } else {
        Some((whole_end, Decimal { units: whole as u64, nanos: 0 }))
    }
}

/// The bare identifier that starts at `pos`, with the position behind it.
pub open spec fn bare_literal_at(input: Seq<char>, pos: int) -> Option<(int, Seq<char>)> {
    let end = word_end(input, pos);
    if end <= pos {
        None
    } else {
        Some((end, input.subrange(pos, end)))
    }
}

/// The rest of a string literal from `pos`, which is behind the opening
/// delimiter, with the position behind the closing one. A backslash makes
/// the character after it an ordinary one. There is none where the closing
/// delimiter is missing.
pub open spec fn string_literal_at(delim: char, input: Seq<char>, pos: int) -> Option<
    (int, Seq<char>),
>
    decreases input.len() - pos,
{
    if pos < 0 || pos >= input.len() {
        None
    } else if input[pos] == delim {
        Some((pos + 1, Seq::empty()))
    } else if input[pos] == '\\' && pos + 1 < input.len() {
        match string_literal_at(delim, input, pos + 2) {
            Some((end, rest)) => Some((end, seq![input[pos + 1]] + rest)),
            None => None,
        }
    } else {
        match string_literal_at(delim, input, pos + 1) {
            Some((end, rest)) => Some((end, seq![input[pos]] + rest)),
            None => None,
        }
    }
}

/// What the lexer finds from a position on.
pub enum LexStep {
    /// Nothing but white space is left.
    End,
    /// A token that starts at `start` and ends before `next`.
    Token { start: int, token: TokenView, next: int },
    /// No token starts at the first character that is not white space.
    Error(LexError),
}

/// The token that starts at `start`, which holds no white space. Operators
/// and brackets come first, then string literals, numbers and bare
/// identifiers.
pub open spec fn token_at(input: Seq<char>, start: int) -> LexStep {
    if start < 0 || start >= input.len() {
        LexStep::End
    } else if let Some((token, length)) = literal_at(input, start) {
        LexStep::Token { start, token, next: start + length }
    } else if input[start] == '"' || input[start] == '\'' {
        match string_literal_at(input[start], input, start + 1) {
            Some((next, s)) => LexStep::Token { start, token: TokenView::StringLiteral(s), next },
            None => LexStep::Error(
                LexError { position: start as usize, kind: LexErrorKind::UnterminatedString },
            ),
        }
    } else if is_digit_char(input[start]) {
        match number_at(input, start) {
            Some((next, n)) => LexStep::Token { start, token: TokenView::Number(n), next },
            None => LexStep::Error(
                LexError { position: start as usize, kind: LexErrorKind::MalformedNumber },
            ),
        }
    } else {
        match bare_literal_at(input, start) {
            Some((next, s)) => LexStep::Token { start, token: TokenView::StringLiteral(s), next },
            None => LexStep::Error(
                LexError { position: start as usize, kind: LexErrorKind::IllegalCharacter },
            ),
        }
    }
}

/// The next token from `pos` on, after any white space.
pub open spec fn next_token(input: Seq<char>, pos: int) -> LexStep {
    token_at(input, skip_whitespace(input, pos))
}

/// All tokens from `pos` on with their positions, or the first lexical
/// error.
pub open spec fn tokens_from(input: Seq<char>, pos: int) -> Result<Seq<(usize, TokenView)>, LexError>
    decreases input.len() - pos,
{
    match next_token(input, pos) {
        LexStep::End => Ok(Seq::empty()),
        LexStep::Error(e) => Err(e),
        LexStep::Token { start, token, next } => {
            if pos < next <= input.len() {
                match tokens_from(input, next) {
                    Ok(rest) => Ok(seq![(start as usize, token)] + rest),
                    Err(e) => Err(e),
                }
            } else {
                Ok(Seq::empty())
            }
        },
    }
}

/// The tokens with their positions as mathematical values.
pub open spec fn tokens_view(tokens: Seq<(usize, Token)>) -> Seq<(usize, TokenView)> {
    tokens.map_values(|t: (usize, Token)| (t.0, t.1@))
}

/// Whether `input` starts with the characters of `other`.
pub fn input_starts_with(input: &[char], other: &str) -> (b: bool)
    ensures
        b == starts_with(input@, 0, other@),
{
    let n = other.unicode_len();
    if n > input.len() {
        return false;
    }
    let mut i: usize = 0;
    while i < n
        invariant
            i <= n,
            n == other@.len(),
            n <= input@.len(),
            input@.subrange(0, i as int) == other@.subrange(0, i as int),
        decreases n - i,
    {
        if input[i] != other.get_char(i) {
            assert(input@.subrange(0, n as int)[i as int] != other@[i as int]);
            return false;
        }
        i = i + 1;
        assert(input@.subrange(0, i as int) == input@.subrange(0, i - 1).push(input@[i - 1]));
        assert(other@.subrange(0, i as int) == other@.subrange(0, i - 1).push(other@[i - 1]));
    }
    assert(other@.subrange(0, n as int) == other@);
    true
}

/// The operator or bracket with which `input` continues at `position`, and
/// its length.
fn parse_literal_token(input: &[char], position: usize) -> (r: Option<(Token, usize)>)
    requires
        position <= input@.len(),
    ensures
        match r {
            Some((token, length)) => literal_at(input@, position as int) == Some(
                (token@, length as int),
            ) && position + length <= input@.len(),
            None => literal_at(input@, position as int) is None,
        },
{
    let rest = vstd::slice::slice_subrange(input, position, input.len());
    proof {
        assert forall|other: Seq<char>| #[trigger]
            starts_with(rest@, 0, other) == starts_with(input@, position as int, other) by {
            if other.len() <= rest@.len() {
                assert(rest@.subrange(0, other.len() as int) =~= input@.subrange(
                    position as int,
                    position + other.len(),
                ));
            }
        }
        reveal_strlit("(");
        assert("("@ =~= seq!['(']);
        reveal_strlit(")");
        assert(")"@ =~= seq![')']);
        reveal_strlit("[");
        assert("["@ =~= seq!['[']);
        reveal_strlit("]");
        assert("]"@ =~= seq![']']);
        reveal_strlit(".");
        assert("."@ =~= seq!['.']);
        reveal_strlit(",");
        assert(","@ =~= seq![',']);
        reveal_strlit("->");
        assert("->"@ =~= seq!['-', '>']);
        reveal_strlit("::");
        assert("::"@ =~= seq![':', ':']);
        reveal_strlit(":");
        assert(":"@ =~= seq![':']);
        reveal_strlit(";");
        assert(";"@ =~= seq![';']);
        reveal_strlit("-");
        assert("-"@ =~= seq!['-']);
        reveal_strlit("<<");
        assert("<<"@ =~= seq!['<', '<']);
        reveal_strlit("<");
        assert("<"@ =~= seq!['<']);
        reveal_strlit(">>");
        assert(">>"@ =~= seq!['>', '>']);
        reveal_strlit(">");
        assert(">"@ =~= seq!['>']);
        reveal_strlit("=");
        assert("="@ =~= seq!['=']);
        reveal_strlit("!=");
        assert("!="@ =~= seq!['!', '=']);
        reveal_strlit("~");
        assert("~"@ =~= seq!['~']);
        reveal_strlit("!~");
        assert("!~"@ =~= seq!['!', '~']);
        reveal_strlit("!");
        assert("!"@ =~= seq!['!']);
    }
    if input_starts_with(rest, "(") {
        Some((Token::ParenthesisOpen, 1))
    } else if input_starts_with(rest, ")") {
        Some((Token::ParenthesisClose, 1))
    } else if input_starts_with(rest, "[") {
        Some((Token::BracketOpen, 1))
    } else if input_starts_with(rest, "]") {
        Some((Token::BracketClose, 1))
    } else if input_starts_with(rest, ".") {
        Some((Token::Period, 1))
    } else if input_starts_with(rest, ",") {
        Some((Token::Comma, 1))
    } else if input_starts_with(rest, "->") {
        Some((Token::Arrow, 2))
    } else if input_starts_with(rest, "::") {
        Some((Token::DoubleColon, 2))
    } else if input_starts_with(rest, ":") {
        Some((Token::Colon, 1))
    } else if input_starts_with(rest, ";") {
        Some((Token::Semicolon, 1))
    } else if input_starts_with(rest, "-") {
        Some((Token::Difference, 1))
    } else if input_starts_with(rest, "<<") {
        Some((Token::RecurseUpRelations, 2))
    } else if input_starts_with(rest, "<") {
        Some((Token::RecurseUp, 1))
    } else if input_starts_with(rest, ">>") {
        Some((Token::RecurseDownRelations, 2))
    } else if input_starts_with(rest, ">") {
        Some((Token::RecurseDown, 1))
    } else if input_starts_with(rest, "=") {
        Some((Token::Equals, 1))
    } else if input_starts_with(rest, "!=") {
        Some((Token::EqualsNot, 2))
    } else if input_starts_with(rest, "~") {
        Some((Token::Matches, 1))
    } else if input_starts_with(rest, "!~") {
        Some((Token::MatchesNot, 2))
    } else if input_starts_with(rest, "!") {
        Some((Token::Not, 1))
    } else {
        None
    }
}

/// Whether `c` is a decimal digit.
fn is_digit(c: char) -> (b: bool)
    ensures
        b == is_digit_char(c),
{
    c >= '0' && c <= '9'
}

/// The number that the digit `c` stands for.
fn digit_of(c: char) -> (d: u8)
    requires
        is_digit_char(c),
    ensures
        d == digit_value(c),
        d <= 9,
{
    (c as u32 - '0' as u32) as u8
}

/// The number that starts at `position`, with the position behind it.
pub fn parse_number(input: &[char], position: usize) -> (r: Option<(usize, Decimal)>)
    ensures
        position <= input@.len() ==> match r {
            Some((end, n)) => number_at(input@, position as int) == Some((end as int, n)),
            None => number_at(input@, position as int) is None,
        },
        position > input@.len() ==> r is None,
        r matches Some((end, _)) ==> position < end <= input@.len(),
{
    if position >= input.len() || !is_digit(input[position]) {
        proof {
            reveal_with_fuel(digits_end, 1);
        }
        return None;
    }
    let mut at = position;
    let ghost start = at as int;
    let mut whole: u64 = 0;
    let mut overflow = false;
    while at < input.len() && is_digit(input[at])
        invariant
            0 <= start <= at <= input@.len(),
            digits_end(input@, start) == digits_end(input@, at as int),
            forall|j: int| start <= j < at ==> is_digit_char(input@[j]),
            !overflow ==> whole == decimal_value(input@.subrange(start, at as int)),
            overflow ==> decimal_value(input@.subrange(start, at as int)) > u64::MAX,
        decreases input@.len() - at,
    {
        let d = digit_of(input[at]);
        proof {
            assert(input@.subrange(start, at + 1).drop_last() == input@.subrange(
                start,
                at as int,
            ));
        }
        if !overflow {
            if whole > (u64::MAX - d as u64) / 10 {
                overflow = true;
            } else {
                whole = whole * 10 + d as u64;
            }
        }
        at = at + 1;
    }
    let ghost whole_end = at as int;
    assert(digits_end(input@, start) == whole_end);
    let mut nanos: u32 = 0;
    if at < input.len() && input[at] == '.' {
        at = at + 1;
        let ghost frac_start = at as int;
        let mut count: u8 = 0;
        while at < input.len() && is_digit(input[at])
            invariant
                0 <= frac_start <= at <= input@.len(),
                digits_end(input@, frac_start) == digits_end(input@, at as int),
                count <= 9,
                at - frac_start <= 9 ==> count == at - frac_start,
                at - frac_start > 9 ==> count == 9,
                nanos == decimal_value(input@.subrange(frac_start, frac_start + count)),
                nanos < pow10(count as nat),
            decreases input@.len() - at,
        {
            let d = digit_of(input[at]);
            if count < 9 {
                proof {
                    assert(input@.subrange(frac_start, at + 1).drop_last()
                        == input@.subrange(frac_start, at as int));
                    lemma_pow10_values();
                    assert(pow10((count + 1) as nat) == 10 * pow10(count as nat));
                }
                nanos = nanos * 10 + d as u32;
                count = count + 1;
            }
            at = at + 1;
        }
        let ghost end = at as int;
        let ghost digits = input@.subrange(frac_start, end);
        proof {
            lemma_pow10_values();
            if end - frac_start <= 9 {
                assert(input@.subrange(frac_start, frac_start + count) == digits);
                assert(decimal_value(digits) * 1 == decimal_value(digits));
            }
        }
        while count < 9
            invariant
                count <= 9,
                0 <= frac_start <= end <= input@.len(),
                digits == input@.subrange(frac_start, end),
                end - frac_start > 9 ==> count == 9 && nanos == decimal_value(
                    input@.subrange(frac_start, frac_start + 9),
                ),
                end - frac_start <= 9 ==> end - frac_start <= count && nanos == decimal_value(
                    digits,
                ) * pow10((count - (end - frac_start)) as nat),
                nanos < pow10(count as nat),
            decreases 9 - count,
        {
            proof {
                lemma_pow10_values();
                assert(pow10((count + 1) as nat) == 10 * pow10(count as nat));
                assert(pow10((count + 1 - (end - frac_start)) as nat) == 10 * pow10(
                    (count - (end - frac_start)) as nat,
                ));
                assert(decimal_value(digits) * (10 * pow10((count - (end - frac_start)) as nat))
                    == 10 * (decimal_value(digits) * pow10(
                    (count - (end - frac_start)) as nat,
                ))) by (nonlinear_arith);
            }
            nanos = nanos * 10;
            count = count + 1;
        }
        proof {
            if end - frac_start > 9 {
                assert(digits.subrange(0, 9) == input@.subrange(frac_start, frac_start + 9));
            }
            assert(nanos == fraction_nanos(digits));
        }
    }
    if overflow {
        None
    } else {
        Some((at, Decimal { units: whole, nanos }))
    }
}

/// The first powers of ten.
proof fn lemma_pow10_values()
    ensures
        pow10(0) == 1,
        pow10(1) == 10,
        pow10(2) == 100,
        pow10(3) == 1_000,
        pow10(4) == 10_000,
        pow10(5) == 100_000,
        pow10(6) == 1_000_000,
        pow10(7) == 10_000_000,
        pow10(8) == 100_000_000,
        pow10(9) == 1_000_000_000,
{
    reveal_with_fuel(pow10, 11);
}

/// Whether `c` may stand in a bare identifier.
fn is_word(c: char) -> (b: bool)
    ensures
        b == is_word_char(c),
{
    c.is_alphabetic() || is_digit(c) || c == '_'
}

/// The bare identifier that starts at `position`, with the position behind
/// it.
pub fn parse_bare_literal(input: &[char], position: usize) -> (r: Option<(usize, String)>)
    ensures
        position <= input@.len() ==> match r {
            Some((end, s)) => bare_literal_at(input@, position as int) == Some((end as int, s@)),
            None => bare_literal_at(input@, position as int) is None,
        },
        position > input@.len() ==> r is None,
        r matches Some((end, _)) ==> position < end <= input@.len(),
{
    if position > input.len() {
        return None;
    }
    let ghost start = position as int;
    let mut at = position;
    let mut result = String::new();
    while at < input.len() && is_word(input[at])
        invariant
            0 <= start <= at <= input@.len(),
            word_end(input@, start) == word_end(input@, at as int),
            result@ == input@.subrange(start, at as int),
        decreases input@.len() - at,
    {
        result.push(input[at]);
        at = at + 1;
        assert(input@.subrange(start, at as int) == input@.subrange(start, at - 1).push(
            input@[at - 1],
        ));
    }
    if result.as_str().unicode_len() > 0 {
        Some((at, result))
    } else {
        None
    }
}

/// The rest of a string literal from `position`, which is behind the
/// opening delimiter, with the position behind the closing one.
pub fn parse_string_literal(delim: char, input: &[char], position: usize) -> (r: Option<
    (usize, String),
>)
    ensures
        match r {
            Some((end, s)) => string_literal_at(delim, input@, position as int) == Some(
                (end as int, s@),
            ) && position < end <= input@.len(),
            None => string_literal_at(delim, input@, position as int) is None,
        },
{
    let ghost start = position as int;
    let mut at = position;
    let mut result = String::new();
    while at < input.len()
        invariant
            0 <= start <= at,
            start == position,
            string_literal_at(delim, input@, start) == match string_literal_at(
                delim,
                input@,
                at as int,
            ) {
                Some((end, rest)) => Some((end, result@ + rest)),
                None => None,
            },
        decreases input@.len() - at,
    {
        let c = input[at];
        let ghost before = result@;
        let ghost here = at as int;
        if c == delim {
            assert(result@ + Seq::<char>::empty() == result@);
            return Some((at + 1, result));
        } else if c == '\\' && at + 1 < input.len() {
            at = at + 1;
            let c = input[at];
            result.push(c);
            proof {
                match string_literal_at(delim, input@, here + 2) {
                    Some((end, rest)) => {
                        assert(before + (seq![c] + rest) == before.push(c) + rest);
                    },
                    None => {},
                }
            }
        } else {
            result.push(c);
            proof {
                match string_literal_at(delim, input@, here + 1) {
                    Some((end, rest)) => {
                        assert(before + (seq![c] + rest) == before.push(c) + rest);
                    },
                    None => {},
                }
            }
        }
        at = at + 1;
    }
    // Runaway literal
    None
}

/// Yields the tokens of a script one after the other.
pub struct Tokenizer {
    input: Vec<char>,
    position: usize,
}

impl Tokenizer {
    /// The characters of the script.
    pub closed spec fn input(self) -> Seq<char> {
        self.input@
    }

    /// The position from which the next token is looked for.
    pub closed spec fn position(self) -> int {
        self.position as int
    }

    /// A tokenizer at the start of `input`.
    pub fn new(input: &str) -> (tokenizer: Self)
        ensures
            tokenizer.input() == input@,
            tokenizer.position() == 0,
    {
        Tokenizer { input: chars_of(input), position: 0 }
    }

    /// The number of characters of the script.
    pub fn input_len(&self) -> (n: usize)
        ensures
            n == self.input().len(),
    {
        self.input.len()
    }

    /// The next token with the position at which it starts; nothing at the
    /// end of the script; the error where no token starts at the next
    /// character that is not white space. After an error the tokenizer
    /// stays where it is.
    pub fn next(&mut self) -> (r: Option<Result<(usize, Token), LexError>>)
        ensures
            final(self).input() == old(self).input(),
            match next_token(old(self).input(), old(self).position()) {
                LexStep::End => r is None && final(self).position() == old(self).input().len(),
                LexStep::Token { start, token, next } => r matches Some(Ok((at, found)))
                    && at == start && found@ == token && final(self).position() == next
                    && old(self).position() <= start < next <= old(self).input().len(),
                LexStep::Error(error) => r == Some(Err::<(usize, Token), LexError>(error))
                    && final(self).position() == old(self).position(),
            },
    {
        if self.position > self.input.len() {
            proof {
                reveal_with_fuel(skip_whitespace, 1);
            }
            self.position = self.input.len();
            return None;
        }
        // Skip whitespace
        let mut start = self.position;
        while start < self.input.len() && self.input[start].is_whitespace()
            invariant
                self.position <= start <= self.input@.len(),
                skip_whitespace(self.input@, self.position as int) == skip_whitespace(
                    self.input@,
                    start as int,
                ),
            decreases self.input@.len() - start,
        {
            start = start + 1;
        }
        if start >= self.input.len() {
            // EOF
            self.position = start;
            return None;
        }
        match parse_literal_token(self.input.as_slice(), start) {
            Some((token, length)) => {
                self.position = start + length;
                return Some(Ok((start, token)));
            },
            None => {},
        }
        let c = self.input[start];
        if c == '"' || c == '\'' {
            return match parse_string_literal(c, self.input.as_slice(), start + 1) {
                Some((position, s)) => {
                    self.position = position;
                    Some(Ok((start, Token::StringLiteral(s))))
                },
                None => Some(
                    Err(LexError { position: start, kind: LexErrorKind::UnterminatedString }),
                ),
            };
        }
        if is_digit(c) {
            return match parse_number(self.input.as_slice(), start) {
                Some((position, n)) => {
                    self.position = position;
                    Some(Ok((start, Token::Number(n))))
                },
                None => Some(
                    Err(LexError { position: start, kind: LexErrorKind::MalformedNumber }),
                ),
            };
        }
        match parse_bare_literal(self.input.as_slice(), start) {
            Some((position, s)) => {
                self.position = position;
                Some(Ok((start, Token::StringLiteral(s))))
            },
            None => Some(Err(LexError { position: start, kind: LexErrorKind::IllegalCharacter })),
        }
    }
}

/// The tokens of a script with their positions, or the first lexical
/// error.
pub fn tokenize(input: &str) -> (r: Result<Vec<(usize, Token)>, LexError>)
    ensures
        match r {
            Ok(tokens) => tokens_from(input@, 0) == Ok::<Seq<(usize, TokenView)>, LexError>(
                tokens_view(tokens@),
            ),
            Err(error) => tokens_from(input@, 0) == Err::<Seq<(usize, TokenView)>, LexError>(
                error,
            ),
        },
{
    let mut tokenizer = Tokenizer::new(input);
    let mut tokens: Vec<(usize, Token)> = Vec::new();
    loop
        invariant
            tokenizer.input() == input@,
            0 <= tokenizer.position() <= input@.len(),
            tokens_from(input@, 0) == match tokens_from(input@, tokenizer.position()) {
                Ok(rest) => Ok::<Seq<(usize, TokenView)>, LexError>(tokens_view(tokens@) + rest),
                Err(error) => Err(error),
            },
        decreases input@.len() - tokenizer.position(),
    {
        let ghost before = tokens_view(tokens@);
        match tokenizer.next() {
            None => {
                assert(before + Seq::<(usize, TokenView)>::empty() == before);
                return Ok(tokens);
            },
            Some(Err(error)) => {
                return Err(error);
            },
            Some(Ok((start, token))) => {
                let ghost found = token@;
                tokens.push((start, token));
                proof {
                    assert(tokens_view(tokens@) == before.push((start, found)));
                    match tokens_from(input@, tokenizer.position()) {
                        Ok(rest) => {
                            assert(before + (seq![(start, found)] + rest) == before.push(
                                (start, found),
                            ) + rest);
                        },
                        Err(_) => {},
                    }
                }
            },
        }
    }
}

} // verus!
