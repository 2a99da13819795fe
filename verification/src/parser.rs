//! The grammar of expressions, and the parser for it.
//!
//! From the loosest binding to the tightest:
//!
//! ```text
//! or      = xor  { ("|" | "+") xor }
//! xor     = and  { "^" and }
//! and     = not  { ("&" | "*") not }
//! not     = "!" not | primary { "'" }
//! primary = name | "(" or ")"
//! name    = letter { letter | digit | "_" }
//! ```
//!
//! Blanks may stand between tokens. The binary operators associate to the
//! left. Each negation mark, in front or behind, wraps its operand once.

use vstd::prelude::*;
use vstd::std_specs::iter::IteratorSpec;
use vstd::string::StrSliceExecFns;
use crate::expr::{Connective, Expr, Formula};

verus! {

/// Why a text is no expression.
#[derive(Clone, Copy, Debug, PartialEq, Eq, Structural)]
pub enum ParseError {
    /// The text holds no token.
    Empty,
    /// The character at this place belongs to no token.
    UnrecognizedCharacter(usize),
    /// The parenthesis at this place has no partner.
    UnmatchedParenthesis(usize),
    /// The token that starts at this place cannot stand there.
    UnexpectedToken(usize),
    /// The text ends where an operand is due.
    Incomplete,
}

/// The kinds of tokens.
#[derive(Clone, Copy, Debug, PartialEq, Eq, Structural)]
pub enum TokenKind {
    Name,
    /// The negation mark in front of an operand.
    Not,
    /// The negation mark behind an operand.
    Tick,
    And,
    Or,
    Xor,
    Open,
    Close,
}

/// A token: its kind, and the places of its first character and of the
/// character behind its last.
#[derive(Clone, Copy, Debug)]
pub struct Token {
    pub kind: TokenKind,
    pub start: usize,
    pub end: usize,
}

/// A blank separates tokens and belongs to none.
pub open spec fn is_blank(c: char) -> bool {
    c == ' ' || c == '\t' || c == '\n' || c == '\r'
}

/// A name starts with a letter.
pub open spec fn is_letter(c: char) -> bool {
    ('a' <= c && c <= 'z') || ('A' <= c && c <= 'Z')
}

/// A name goes on with letters, digits and underscores.
pub open spec fn is_name_char(c: char) -> bool {
    is_letter(c) || ('0' <= c && c <= '9') || c == '_'
}

/// The kind of the token that the character `c` is by itself.
pub open spec fn symbol(c: char) -> Option<TokenKind> {
    if c == '!' {
        Some(TokenKind::Not)
    } else if c == '\'' {
        Some(TokenKind::Tick)
    } else if c == '&' || c == '*' {
        Some(TokenKind::And)
    } else if c == '|' || c == '+' {
        Some(TokenKind::Or)
    } else if c == '^' {
        Some(TokenKind::Xor)
    } else if c == '(' {
        Some(TokenKind::Open)
    } else if c == ')' {
        Some(TokenKind::Close)
    } else {
        None
    }
}

/// The first place from `i` on that holds no character of a name.
pub open spec fn name_end(s: Seq<char>, i: int) -> int
    decreases s.len() - i,
{
    if 0 <= i < s.len() && is_name_char(s[i]) {
        name_end(s, i + 1)
    } else {
        i
    }
}

/// A name ends behind its start and within the text.
pub proof fn lemma_name_end(s: Seq<char>, i: int)
    requires
        0 <= i <= s.len(),
    ensures
        i <= name_end(s, i) <= s.len(),
    decreases s.len() - i,
{
    if i < s.len() && is_name_char(s[i]) {
        lemma_name_end(s, i + 1);
    }
}

/// The tokens of `s` from place `i` on, or the first character from there on
/// that belongs to none.
pub open spec fn tokens(s: Seq<char>, i: int) -> Result<Seq<Token>, ParseError>
    decreases s.len() - i,
{
    if i < 0 || i >= s.len() {
        Ok(Seq::empty())
    } else if is_blank(s[i]) {
        tokens(s, i + 1)
    } else if symbol(s[i]) is Some {
        let token = Token { kind: symbol(s[i])->0, start: i as usize, end: (i + 1) as usize };
        match tokens(s, i + 1) {
            Ok(rest) => Ok(seq![token] + rest),
            Err(e) => Err(e),
        }
    } else if is_letter(s[i]) {
        let end = name_end(s, i + 1);
        let token = Token { kind: TokenKind::Name, start: i as usize, end: end as usize };
        proof {
            lemma_name_end(s, i + 1);
        }
        match tokens(s, end) {
            Ok(rest) => Ok(seq![token] + rest),
            Err(e) => Err(e),
        }
    } else {
        Err(ParseError::UnrecognizedCharacter(i as usize))
    }
}

/// The token of the binary operator of a level: 1 for AND, 2 for XOR, 3 for
/// OR.
pub open spec fn operator(level: nat) -> TokenKind {
    if level == 1 {
        TokenKind::And
    } else if level == 2 {
        TokenKind::Xor
    } else {
        TokenKind::Or
    }
}

/// The connective of a level.
pub open spec fn connective(level: nat) -> Connective {
    if level == 1 {
        Connective::And
    } else if level == 2 {
        Connective::Xor
    } else {
        Connective::Or
    }
}

/// `f` wrapped in one negation for each negation mark that follows from
/// token `i` on, with the place of the first token that is no such mark.
pub open spec fn marked(ts: Seq<Token>, i: int, f: Formula) -> (Formula, int)
    decreases ts.len() - i,
{
    if 0 <= i < ts.len() && ts[i].kind == TokenKind::Tick {
        marked(ts, i + 1, Formula::negation(f))
    } else {
        (f, i)
    }
}

/// A primary from token `i` on: a name, or an expression in parentheses.
pub open spec fn primary(s: Seq<char>, ts: Seq<Token>, i: int) -> Result<(Formula, int), ParseError>
    decreases ts.len() - i, 0nat,
{
    if i < 0 || i >= ts.len() {
        Err(ParseError::Incomplete)
    } else if ts[i].kind == TokenKind::Name {
        Ok((Formula::Var(s.subrange(ts[i].start as int, ts[i].end as int)), i + 1))
    } else if ts[i].kind == TokenKind::Open {
        match operand(s, ts, i + 1, 3) {
            Err(e) => Err(e),
            Ok((f, j)) => if j < 0 || j >= ts.len() {
                Err(ParseError::UnmatchedParenthesis(ts[i].start))
            } else if ts[j].kind == TokenKind::Close {
                Ok((f, j + 1))
            } else {
                Err(ParseError::UnexpectedToken(ts[j].start))
            },
        }
    } else {
        Err(ParseError::UnexpectedToken(ts[i].start))
    }
}

/// A negation from token `i` on: negation marks, a primary, negation marks.
pub open spec fn unary(s: Seq<char>, ts: Seq<Token>, i: int) -> Result<(Formula, int), ParseError>
    decreases ts.len() - i, 1nat,
{
    if 0 <= i < ts.len() && ts[i].kind == TokenKind::Not {
        match unary(s, ts, i + 1) {
            Err(e) => Err(e),
            Ok((f, j)) => Ok((Formula::negation(f), j)),
        }
    } else {
        match primary(s, ts, i) {
            Err(e) => Err(e),
            Ok((f, j)) => Ok(marked(ts, j, f)),
        }
    }
}

/// An expression of the given level from token `i` on, with the place of the
/// first token behind it. Level 0 is a negation; a higher level is a chain of
/// expressions of the level below, joined by the operator of the level.
pub open spec fn operand(s: Seq<char>, ts: Seq<Token>, i: int, level: nat) -> Result<
    (Formula, int),
    ParseError,
>
    decreases ts.len() - i, 2 * level + 3,
{
    if level == 0 {
        unary(s, ts, i)
    } else {
        match operand(s, ts, i, (level - 1) as nat) {
            Err(e) => Err(e),
            Ok((left, j)) => if i <= j <= ts.len() {
                chain(s, ts, j, level, left)
            } else {
                Err(ParseError::Incomplete)
            },
        }
    }
}

/// The chain of a level continued from token `i` on, where `left` is what
/// the chain holds so far. An operand spans a token at least, so the chain
/// goes on behind it.
pub open spec fn chain(s: Seq<char>, ts: Seq<Token>, i: int, level: nat, left: Formula) -> Result<
    (Formula, int),
    ParseError,
>
    decreases ts.len() - i, 2 * level + 2,
{
    if level >= 1 && 0 <= i < ts.len() && ts[i].kind == operator(level) {
        match operand(s, ts, i + 1, (level - 1) as nat) {
            Err(e) => Err(e),
            Ok((right, j)) => if i < j <= ts.len() {
                chain(s, ts, j, level, Formula::binary(connective(level), left, right))
            } else {
                Err(ParseError::Incomplete)
            },
        }
    } else {
        Ok((left, i))
    }
}

/// The formula that the text `s` stands for, or why it stands for none.
pub open spec fn parsed(s: Seq<char>) -> Result<Formula, ParseError> {
    match tokens(s, 0) {
        Err(e) => Err(e),
        Ok(ts) => if ts.len() == 0 {
            Err(ParseError::Empty)
        } else {
            match operand(s, ts, 0, 3) {
                Err(e) => Err(e),
                Ok((f, j)) => if j >= ts.len() || j < 0 {
                    Ok(f)
                } else if ts[j].kind == TokenKind::Close {
                    Err(ParseError::UnmatchedParenthesis(ts[j].start))
                } else {
                    Err(ParseError::UnexpectedToken(ts[j].start))
                },
            }
        },
    }
}

/// Every token spans at least one character of a text of `len` characters.
pub open spec fn spanning(ts: Seq<Token>, len: int) -> bool {
    forall|k: int| 0 <= k < ts.len() ==> (#[trigger] ts[k]).start < ts[k].end <= len
}

/// `front` put before the tokens of a lexing result.
spec fn after(front: Seq<Token>, rest: Result<Seq<Token>, ParseError>) -> Result<
    Seq<Token>,
    ParseError,
> {
    match rest {
        Ok(more) => Ok(front + more),
        Err(e) => Err(e),
    }
}

/// The result `got` of a parsing step is the `expected` one, and the step
/// went on from token `i` by a token at least.
spec fn agrees(
    got: Result<(Expr, usize), ParseError>,
    expected: Result<(Formula, int), ParseError>,
    i: int,
    len: int,
) -> bool {
    match expected {
        Ok((f, j)) => got is Ok && got->Ok_0.0@ == f && got->Ok_0.1 == j && i < j <= len,
        Err(e) => got is Err && got->Err_0 == e,
    }
}

/// The characters of `s`.
fn chars_of(s: &str) -> (chars: Vec<char>)
    ensures
        chars@ == s@,
{
    let mut chars: Vec<char> = Vec::new();
    for c in it: s.chars()
        invariant
            chars@ == it.seq().take(it.index()),
            it.seq() == s@,
    {
        chars.push(c);
    }
    chars
}

fn blank(c: char) -> (yes: bool)
    ensures
        yes == is_blank(c),
{
    c == ' ' || c == '\t' || c == '\n' || c == '\r'
}

fn letter(c: char) -> (yes: bool)
    ensures
        yes == is_letter(c),
{
    ('a' <= c && c <= 'z') || ('A' <= c && c <= 'Z')
}

fn name_char(c: char) -> (yes: bool)
    ensures
        yes == is_name_char(c),
{
    letter(c) || ('0' <= c && c <= '9') || c == '_'
}

fn symbol_of(c: char) -> (kind: Option<TokenKind>)
    ensures
        kind == symbol(c),
{
    if c == '!' {
        Some(TokenKind::Not)
    } else if c == '\'' {
        Some(TokenKind::Tick)
    } else if c == '&' || c == '*' {
        Some(TokenKind::And)
    } else if c == '|' || c == '+' {
        Some(TokenKind::Or)
    } else if c == '^' {
        Some(TokenKind::Xor)
    } else if c == '(' {
        Some(TokenKind::Open)
    } else if c == ')' {
        Some(TokenKind::Close)
    } else {
        None
    }
}

/// Splits `input` into tokens.
pub fn tokenize(input: &str) -> (result: Result<Vec<Token>, ParseError>)
    ensures
        match tokens(input@, 0) {
            Ok(ts) => result is Ok && result->Ok_0@ == ts && spanning(ts, input@.len() as int),
            Err(e) => result is Err && result->Err_0 == e,
        },
{
    let chars = chars_of(input);
    let n = chars.len();
    let ghost s = input@;
    let mut out: Vec<Token> = Vec::new();
    let mut i: usize = 0;
    assert forall|r: Result<Seq<Token>, ParseError>| after(Seq::<Token>::empty(), r) == r by {
        if let Ok(more) = r {
            assert(Seq::<Token>::empty() + more =~= more);
        }
    }
    while i < n
        invariant
            chars@ == s,
            s == input@,
            n == s.len(),
            i <= n,
            spanning(out@, i as int),
            tokens(s, 0) == after(out@, tokens(s, i as int)),
        decreases n - i,
    {
        let c = chars[i];
        let ghost before = out@;
        if blank(c) {
            i += 1;
        } else if let Some(kind) = symbol_of(c) {
            let token = Token { kind, start: i, end: i + 1 };
            out.push(token);
            proof {
                lemma_after_push(before, token, tokens(s, i + 1));
            }
            i += 1;
        } else if letter(c) {
            let mut j: usize = i + 1;
            while j < n && name_char(chars[j])
                invariant
                    chars@ == s,
                    n == s.len(),
                    i < j <= n,
                    name_end(s, i + 1) == name_end(s, j as int),
                decreases n - j,
            {
                j += 1;
            }
            let token = Token { kind: TokenKind::Name, start: i, end: j };
            out.push(token);
            proof {
                lemma_after_push(before, token, tokens(s, j as int));
            }
            i = j;
        } else {
            return Err(ParseError::UnrecognizedCharacter(i));
        }
    }
    proof {
        assert(out@ + Seq::<Token>::empty() =~= out@);
    }
    Ok(out)
}

proof fn lemma_after_push(front: Seq<Token>, token: Token, rest: Result<Seq<Token>, ParseError>)
    ensures
        after(front, after(seq![token], rest)) == after(front.push(token), rest),
{
    if let Ok(more) = rest {
        assert(front + (seq![token] + more) =~= front.push(token) + more);
    }
}

fn operator_of(level: u8) -> (kind: TokenKind)
    ensures
        kind == operator(level as nat),
{
    if level == 1 {
        TokenKind::And
    } else if level == 2 {
        TokenKind::Xor
    } else {
        TokenKind::Or
    }
}

/// Joins two operands by the connective of a level.
fn join(level: u8, left: Expr, right: Expr) -> (joined: Expr)
    ensures
        joined@ == Formula::binary(connective(level as nat), left@, right@),
{
    if level == 1 {
        Expr::And(Box::new(left), Box::new(right))
    } else if level == 2 {
        Expr::Xor(Box::new(left), Box::new(right))
    } else {
        Expr::Or(Box::new(left), Box::new(right))
    }
}

/// Parses a primary from token `i` on.
fn parse_primary(input: &str, ts: &Vec<Token>, i: usize) -> (result: Result<
    (Expr, usize),
    ParseError,
>)
    requires
        spanning(ts@, input@.len() as int),
        i <= ts@.len(),
    ensures
        agrees(result, primary(input@, ts@, i as int), i as int, ts@.len() as int),
    decreases ts@.len() - i, 0nat,
{
    if i >= ts.len() {
        return Err(ParseError::Incomplete);
    }
    let token = ts[i];
    if token.kind == TokenKind::Name {
        let name = input.substring_char(token.start, token.end);
        Ok((Expr::Var(name.to_owned()), i + 1))
    } else if token.kind == TokenKind::Open {
        match parse_operand(input, ts, i + 1, 3) {
            Err(e) => Err(e),
            Ok((inner, j)) => {
                if j >= ts.len() {
                    Err(ParseError::UnmatchedParenthesis(token.start))
                } else if ts[j].kind == TokenKind::Close {
                    Ok((inner, j + 1))
                } else {
                    Err(ParseError::UnexpectedToken(ts[j].start))
                }
            },
        }
    } else {
        Err(ParseError::UnexpectedToken(token.start))
    }
}

/// Parses a negation from token `i` on.
fn parse_unary(input: &str, ts: &Vec<Token>, i: usize) -> (result: Result<
    (Expr, usize),
    ParseError,
>)
    requires
        spanning(ts@, input@.len() as int),
        i <= ts@.len(),
    ensures
        agrees(result, unary(input@, ts@, i as int), i as int, ts@.len() as int),
    decreases ts@.len() - i, 1nat,
{
    if i < ts.len() && ts[i].kind == TokenKind::Not {
        match parse_unary(input, ts, i + 1) {
            Err(e) => Err(e),
            Ok((inner, j)) => Ok((Expr::Not(Box::new(inner)), j)),
        }
    } else {
        match parse_primary(input, ts, i) {
            Err(e) => Err(e),
            Ok((inner, start)) => {
                let mut expr = inner;
                let mut j = start;
                while j < ts.len() && ts[j].kind == TokenKind::Tick
                    invariant
                        i < j <= ts@.len(),
                        marked(ts@, j as int, expr@) == marked(ts@, start as int, inner@),
                    decreases ts@.len() - j,
                {
                    expr = Expr::Not(Box::new(expr));
                    j += 1;
                }
                Ok((expr, j))
            },
        }
    }
}

/// Parses an expression of the given level from token `i` on.
fn parse_operand(input: &str, ts: &Vec<Token>, i: usize, level: u8) -> (result: Result<
    (Expr, usize),
    ParseError,
>)
    requires
        spanning(ts@, input@.len() as int),
        i <= ts@.len(),
        level <= 3,
    ensures
        agrees(result, operand(input@, ts@, i as int, level as nat), i as int, ts@.len() as int),
    decreases ts@.len() - i, 2 * level + 3,
{
    if level == 0 {
        return parse_unary(input, ts, i);
    }
    let ghost target = operand(input@, ts@, i as int, level as nat);
    let op = operator_of(level);
    match parse_operand(input, ts, i, level - 1) {
        Err(e) => Err(e),
        Ok((first, start)) => {
            let mut left = first;
            let mut j = start;
            while j < ts.len() && ts[j].kind == op
                invariant
                    spanning(ts@, input@.len() as int),
                    1 <= level <= 3,
                    op == operator(level as nat),
                    i < j <= ts@.len(),
                    target == operand(input@, ts@, i as int, level as nat),
                    chain(input@, ts@, j as int, level as nat, left@) == target,
                decreases ts@.len() - j,
            {
                match parse_operand(input, ts, j + 1, level - 1) {
                    Err(e) => {
                        return Err(e);
                    },
                    Ok((right, next)) => {
                        left = join(level, left, right);
                        j = next;
                    },
                }
            }
            Ok((left, j))
        },
    }
}

/// The parser of the grammar.
pub struct BooleanParser;

impl BooleanParser {
    /// Parses `input` as an expression.
    pub fn parse(input: &str) -> (result: Result<Expr, ParseError>)
        ensures
            match parsed(input@) {
                Ok(f) => result is Ok && result->Ok_0@ == f,
                Err(e) => result is Err && result->Err_0 == e,
            },
    {
        let ts = match tokenize(input) {
            Ok(ts) => ts,
            Err(e) => {
                return Err(e);
            },
        };
        if ts.len() == 0 {
            return Err(ParseError::Empty);
        }
        match parse_operand(input, &ts, 0, 3) {
            Err(e) => Err(e),
            Ok((expr, j)) => {
                if j >= ts.len() {
                    Ok(expr)
                } else if ts[j].kind == TokenKind::Close {
                    Err(ParseError::UnmatchedParenthesis(ts[j].start))
                } else {
                    Err(ParseError::UnexpectedToken(ts[j].start))
                }
            },
        }
    }
}

/// Parses `input` as an expression.
pub fn parse_expr(input: &str) -> (result: Result<Expr, ParseError>)
    ensures
        match parsed(input@) {
            Ok(f) => result is Ok && result->Ok_0@ == f,
            Err(e) => result is Err && result->Err_0 == e,
        },
{
    BooleanParser::parse(input)
}

/// `f` is built from names, negations and the connectives that the grammar
/// has: AND, OR and XOR.
pub open spec fn plain(f: Formula) -> bool
    decreases f,
{
    match f {
        Formula::Var(_) => true,
        Formula::Not(a) => plain(*a),
        Formula::Binary(op, a, b) => (op is And || op is Or || op is Xor) && plain(*a) && plain(*b),
    }
}

proof fn lemma_marked(ts: Seq<Token>, i: int, f: Formula)
    requires
        0 <= i <= ts.len(),
        plain(f),
    ensures
        i <= marked(ts, i, f).1 <= ts.len(),
        plain(marked(ts, i, f).0),
    decreases ts.len() - i,
{
    if i < ts.len() && ts[i].kind == TokenKind::Tick {
        lemma_marked(ts, i + 1, Formula::negation(f));
    }
}

proof fn lemma_primary(s: Seq<char>, ts: Seq<Token>, i: int)
    requires
        0 <= i <= ts.len(),
    ensures
        primary(s, ts, i) matches Ok(found) ==> i < found.1 <= ts.len() && plain(found.0),
    decreases ts.len() - i, 0nat,
{
    if i < ts.len() && ts[i].kind == TokenKind::Open {
        lemma_operand(s, ts, i + 1, 3);
    }
}

proof fn lemma_unary(s: Seq<char>, ts: Seq<Token>, i: int)
    requires
        0 <= i <= ts.len(),
    ensures
        unary(s, ts, i) matches Ok(found) ==> i < found.1 <= ts.len() && plain(found.0),
    decreases ts.len() - i, 1nat,
{
    if i < ts.len() && ts[i].kind == TokenKind::Not {
        lemma_unary(s, ts, i + 1);
    } else {
        lemma_primary(s, ts, i);
        if let Ok((f, j)) = primary(s, ts, i) {
            lemma_marked(ts, j, f);
        }
    }
}

/// An expression spans at least one token and ends within the tokens, so
/// every chain goes on behind its operand; and it is plain.
pub proof fn lemma_operand(s: Seq<char>, ts: Seq<Token>, i: int, level: nat)
    requires
        0 <= i <= ts.len(),
    ensures
        operand(s, ts, i, level) matches Ok(found) ==> i < found.1 <= ts.len() && plain(found.0),
    decreases ts.len() - i, 2 * level + 3,
{
    if level == 0 {
        lemma_unary(s, ts, i);
    } else {
        lemma_operand(s, ts, i, (level - 1) as nat);
        if let Ok((left, j)) = operand(s, ts, i, (level - 1) as nat) {
            lemma_chain(s, ts, j, level, left);
        }
    }
}

proof fn lemma_chain(s: Seq<char>, ts: Seq<Token>, i: int, level: nat, left: Formula)
    requires
        0 <= i <= ts.len(),
        plain(left),
    ensures
        chain(s, ts, i, level, left) matches Ok(found) ==> i <= found.1 <= ts.len() && plain(
            found.0,
        ),
    decreases ts.len() - i, 2 * level + 2,
{
    if level >= 1 && i < ts.len() && ts[i].kind == operator(level) {
        lemma_operand(s, ts, i + 1, (level - 1) as nat);
        if let Ok((right, j)) = operand(s, ts, i + 1, (level - 1) as nat) {
            lemma_chain(s, ts, j, level, Formula::binary(connective(level), left, right));
        }
    }
}

/// What a text stands for is plain: the grammar yields no NAND, NOR or XNOR.
pub proof fn lemma_parsed_is_plain(s: Seq<char>)
    ensures
        parsed(s) matches Ok(f) ==> plain(f),
{
    if let Ok(ts) = tokens(s, 0) {
        lemma_operand(s, ts, 0, 3);
    }
}

} // verus!
