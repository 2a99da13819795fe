//! The written form of a formula, and that the parser reads it back.

use vstd::prelude::*;
use crate::expr::{Connective, Formula};
use crate::parser::{
    chain, connective, is_letter, is_name_char, marked, name_end, operand, operator, parsed,
    primary, symbol, tokens, unary, ParseError, Token, TokenKind,
};

verus! {

/// `name` is a name of the grammar: a letter, then letters, digits and
/// underscores.
pub open spec fn is_name(name: Seq<char>) -> bool {
    &&& name.len() >= 1
    &&& is_letter(name[0])
    &&& forall|k: int| 0 <= k < name.len() ==> is_name_char(#[trigger] name[k])
}

/// `f` can be written in the grammar: its names are names of the grammar,
/// and its connectives are AND, OR and XOR.
pub open spec fn writable(f: Formula) -> bool
    decreases f,
{
    match f {
        Formula::Var(name) => is_name(name),
        Formula::Not(a) => writable(*a),
        Formula::Binary(op, a, b) => (op is And || op is Or || op is Xor) && writable(*a)
            && writable(*b),
    }
}

/// The sign of a connective of the grammar.
pub open spec fn sign(op: Connective) -> char {
    match op {
        Connective::Or => '|',
        Connective::Xor => '^',
        _ => '&',
    }
}

/// The token of a connective of the grammar.
spec fn sign_token(op: Connective) -> TokenKind {
    match op {
        Connective::Or => TokenKind::Or,
        Connective::Xor => TokenKind::Xor,
        _ => TokenKind::And,
    }
}

/// The written form of a formula, every operand in parentheses: a name
/// stands for itself, a negation is `!(a)`, a binary node is `(a)&(b)` with
/// the sign of its connective.
pub open spec fn written(f: Formula) -> Seq<char>
    decreases f,
{
    match f {
        Formula::Var(name) => name,
        Formula::Not(a) => seq!['!', '('] + written(*a) + seq![')'],
        Formula::Binary(op, a, b) => seq!['('] + written(*a) + seq![')', sign(op), '('] + written(
            *b,
        ) + seq![')'],
    }
}

/// One token of one character at place `at`.
spec fn mark(kind: TokenKind, at: int) -> Token {
    Token { kind, start: at as usize, end: (at + 1) as usize }
}

/// The tokens of the written form of `f`, where it starts at place `p` of a
/// text, followed by the tokens `rest`.
spec fn written_tokens(f: Formula, p: int, rest: Seq<Token>) -> Seq<Token>
    decreases f,
{
    match f {
        Formula::Var(name) => seq![
            Token { kind: TokenKind::Name, start: p as usize, end: (p + name.len()) as usize },
        ] + rest,
        Formula::Not(a) => {
            let close = p + 2 + written(*a).len();
            seq![mark(TokenKind::Not, p)] + (seq![mark(TokenKind::Open, p + 1)] + written_tokens(
                *a,
                p + 2,
                seq![mark(TokenKind::Close, close)] + rest,
            ))
        },
        Formula::Binary(op, a, b) => {
            let close = p + 1 + written(*a).len();
            let last = close + 3 + written(*b).len();
            seq![mark(TokenKind::Open, p)] + written_tokens(
                *a,
                p + 1,
                seq![mark(TokenKind::Close, close)] + (seq![mark(sign_token(op), close + 1)] + (
                seq![mark(TokenKind::Open, close + 2)] + written_tokens(
                    *b,
                    close + 3,
                    seq![mark(TokenKind::Close, last)] + rest,
                ))),
            )
        },
    }
}

/// The number of tokens of the written form of `f`.
spec fn token_count(f: Formula) -> int
    decreases f,
{
    match f {
        Formula::Var(_) => 1,
        Formula::Not(a) => token_count(*a) + 3,
        Formula::Binary(_, a, b) => token_count(*a) + token_count(*b) + 5,
    }
}

/// No name goes on at place `q` of `s`.
spec fn name_stops(s: Seq<char>, q: int) -> bool {
    q >= s.len() || !is_name_char(s[q])
}

/// No chain and no row of negation marks goes on with the tokens `rest`.
spec fn operand_stops(rest: Seq<Token>) -> bool {
    rest.len() == 0 || rest[0].kind == TokenKind::Close
}

proof fn lemma_token_count(f: Formula, p: int, rest: Seq<Token>)
    ensures
        token_count(f) >= 1,
        written_tokens(f, p, rest).len() == token_count(f) + rest.len(),
        written_tokens(f, p, rest).skip(token_count(f)) == rest,
    decreases f,
{
    let wt = written_tokens(f, p, rest);
    match f {
        Formula::Var(_) => {
            assert(wt.skip(1) =~= rest);
        },
        Formula::Not(a) => {
            let close = p + 2 + written(*a).len();
            let behind = seq![mark(TokenKind::Close, close)] + rest;
            let inner = written_tokens(*a, p + 2, behind);
            lemma_token_count(*a, p + 2, behind);
            assert(wt == seq![mark(TokenKind::Not, p)] + (seq![mark(TokenKind::Open, p + 1)] + inner));
            assert(wt.skip(2) =~= inner);
            assert(behind.skip(1) =~= rest);
            lemma_skip(wt, 2, inner, token_count(*a), behind);
            lemma_skip(wt, 2 + token_count(*a), behind, 1, rest);
        },
        Formula::Binary(op, a, b) => {
            let close = p + 1 + written(*a).len();
            let last = close + 3 + written(*b).len();
            let behind = seq![mark(TokenKind::Close, last)] + rest;
            let right = written_tokens(*b, close + 3, behind);
            let r2 = seq![mark(TokenKind::Open, close + 2)] + right;
            let r1 = seq![mark(sign_token(op), close + 1)] + r2;
            let r0 = seq![mark(TokenKind::Close, close)] + r1;
            let left = written_tokens(*a, p + 1, r0);
            lemma_token_count(*b, close + 3, behind);
            lemma_token_count(*a, p + 1, r0);
            assert(wt == seq![mark(TokenKind::Open, p)] + left);
            assert(wt.skip(1) =~= left);
            assert(r0.skip(3) =~= right);
            assert(behind.skip(1) =~= rest);
            lemma_skip(wt, 1, left, token_count(*a), r0);
            lemma_skip(wt, 1 + token_count(*a), r0, 3, right);
            lemma_skip(wt, 4 + token_count(*a), right, token_count(*b), behind);
            lemma_skip(wt, 4 + token_count(*a) + token_count(*b), behind, 1, rest);
        },
    }
}

/// To skip in what is left after skipping is to skip the sum.
proof fn lemma_skip(ts: Seq<Token>, i: int, left: Seq<Token>, n: int, rest: Seq<Token>)
    requires
        0 <= i <= ts.len(),
        ts.skip(i) == left,
        0 <= n <= left.len(),
        left.skip(n) == rest,
    ensures
        ts.skip(i + n) == rest,
        forall|k: int| 0 <= k < n ==> ts[i + k] == left[k],
{
    assert forall|k: int| 0 <= k < rest.len() implies ts.skip(i + n)[k] == rest[k] by {
        assert(left.skip(n)[k] == left[n + k]);
        assert(ts.skip(i)[n + k] == ts[i + n + k]);
    }
    assert(ts.skip(i + n) =~= rest);
    assert forall|k: int| 0 <= k < n implies ts[i + k] == left[k] by {
        assert(ts.skip(i)[k] == ts[i + k]);
    }
}

proof fn lemma_written_len(f: Formula)
    requires
        writable(f),
    ensures
        written(f).len() >= 1,
    decreases f,
{
    match f {
        Formula::Var(_) => {},
        Formula::Not(a) => {
            lemma_written_len(*a);
        },
        Formula::Binary(_, a, b) => {
            lemma_written_len(*a);
            lemma_written_len(*b);
        },
    }
}

/// A part of a text that stands in a text stands in that text.
proof fn lemma_part(s: Seq<char>, p: int, w: Seq<char>, from: int, part: Seq<char>)
    requires
        0 <= p,
        p + w.len() <= s.len(),
        s.subrange(p, p + w.len()) == w,
        0 <= from,
        from + part.len() <= w.len(),
        w.subrange(from, from + part.len()) == part,
    ensures
        s.subrange(p + from, p + from + part.len()) == part,
{
    assert forall|k: int| 0 <= k < part.len() implies s[p + from + k] == part[k] by {
        assert(s.subrange(p, p + w.len())[from + k] == w[from + k]);
        assert(w.subrange(from, from + part.len())[k] == part[k]);
    }
    assert(s.subrange(p + from, p + from + part.len()) =~= part);
}

proof fn lemma_lex_mark(s: Seq<char>, p: int, kind: TokenKind, rest: Seq<Token>)
    requires
        0 <= p < s.len(),
        symbol(s[p]) == Some(kind),
        tokens(s, p + 1) == Ok::<Seq<Token>, ParseError>(rest),
    ensures
        tokens(s, p) == Ok::<Seq<Token>, ParseError>(seq![mark(kind, p)] + rest),
{
}

proof fn lemma_name_run(s: Seq<char>, p: int, name: Seq<char>, k: int)
    requires
        0 <= p,
        0 <= k <= name.len(),
        p + name.len() <= s.len(),
        s.subrange(p, p + name.len()) == name,
        forall|j: int| 0 <= j < name.len() ==> is_name_char(#[trigger] name[j]),
        name_stops(s, p + name.len()),
    ensures
        name_end(s, p + k) == p + name.len(),
    decreases name.len() - k,
{
    if k < name.len() {
        assert(s[p + k] == s.subrange(p, p + name.len())[k]);
        assert(is_name_char(name[k]));
        lemma_name_run(s, p, name, k + 1);
    }
}

proof fn lemma_lex_name(s: Seq<char>, p: int, name: Seq<char>, rest: Seq<Token>)
    requires
        is_name(name),
        0 <= p,
        p + name.len() <= s.len(),
        s.subrange(p, p + name.len()) == name,
        name_stops(s, p + name.len()),
        tokens(s, p + name.len()) == Ok::<Seq<Token>, ParseError>(rest),
    ensures
        tokens(s, p) == Ok::<Seq<Token>, ParseError>(
            seq![
                Token { kind: TokenKind::Name, start: p as usize, end: (p + name.len()) as usize },
            ] + rest,
        ),
{
    assert(s[p] == s.subrange(p, p + name.len())[0]);
    lemma_name_run(s, p, name, 1);
}

/// The parts of the written form of a negation.
proof fn lemma_parts_of_negation(a: Formula)
    ensures
        ({
            let w = written(Formula::negation(a));
            let wa = written(a);
            let n = wa.len() as int;
            &&& w.len() == n + 3
            &&& w[0] == '!'
            &&& w[1] == '('
            &&& w[2 + n] == ')'
            &&& w.subrange(2, 2 + n) == wa
        }),
{
    let w = written(Formula::negation(a));
    let wa = written(a);
    assert(w.subrange(2, 2 + wa.len() as int) =~= wa);
}

/// The parts of the written form of a binary node.
proof fn lemma_parts_of_binary(op: Connective, a: Formula, b: Formula)
    ensures
        ({
            let w = written(Formula::binary(op, a, b));
            let wa = written(a);
            let wb = written(b);
            let close = 1 + wa.len() as int;
            let m = wb.len() as int;
            &&& w.len() == close + m + 4
            &&& w[0] == '('
            &&& w[close] == ')'
            &&& w[close + 1] == sign(op)
            &&& w[close + 2] == '('
            &&& w[close + 3 + m] == ')'
            &&& w.subrange(1, close) == wa
            &&& w.subrange(close + 3, close + 3 + m) == wb
        }),
{
    let w = written(Formula::binary(op, a, b));
    let wa = written(a);
    let wb = written(b);
    let close = 1 + wa.len() as int;
    assert(w.subrange(1, close) =~= wa);
    assert(w.subrange(close + 3, close + 3 + wb.len() as int) =~= wb);
}

/// The lexer finds the tokens of a written form wherever it stands in a
/// text, if no name goes on behind it.
proof fn lemma_lex(s: Seq<char>, p: int, f: Formula, rest: Seq<Token>)
    requires
        writable(f),
        0 <= p,
        p + written(f).len() <= s.len(),
        s.subrange(p, p + written(f).len()) == written(f),
        name_stops(s, p + written(f).len()),
        tokens(s, p + written(f).len()) == Ok::<Seq<Token>, ParseError>(rest),
    ensures
        tokens(s, p) == Ok::<Seq<Token>, ParseError>(written_tokens(f, p, rest)),
    decreases f,
{
    let w = written(f);
    match f {
        Formula::Var(name) => {
            lemma_lex_name(s, p, name, rest);
        },
        Formula::Not(a) => {
            let wa = written(*a);
            let close = p + 2 + wa.len();
            lemma_parts_of_negation(*a);
            assert(s[p] == s.subrange(p, p + w.len())[0]);
            assert(s[p + 1] == s.subrange(p, p + w.len())[1]);
            assert(s[close] == s.subrange(p, p + w.len())[close - p]);
            lemma_part(s, p, w, 2, wa);
            let behind = seq![mark(TokenKind::Close, close)] + rest;
            lemma_lex_mark(s, close, TokenKind::Close, rest);
            lemma_lex(s, p + 2, *a, behind);
            let inner = written_tokens(*a, p + 2, behind);
            lemma_lex_mark(s, p + 1, TokenKind::Open, inner);
            lemma_lex_mark(s, p, TokenKind::Not, seq![mark(TokenKind::Open, p + 1)] + inner);
        },
        Formula::Binary(op, a, b) => {
            let wa = written(*a);
            let wb = written(*b);
            let close = p + 1 + wa.len();
            let last = close + 3 + wb.len();
            lemma_parts_of_binary(op, *a, *b);
            assert(s[p] == s.subrange(p, p + w.len())[0]);
            assert(s[close] == s.subrange(p, p + w.len())[close - p]);
            assert(s[close + 1] == s.subrange(p, p + w.len())[close + 1 - p]);
            assert(s[close + 2] == s.subrange(p, p + w.len())[close + 2 - p]);
            assert(s[last] == s.subrange(p, p + w.len())[last - p]);
            lemma_part(s, p, w, 1, wa);
            lemma_part(s, p, w, close + 3 - p, wb);
            let behind = seq![mark(TokenKind::Close, last)] + rest;
            lemma_lex_mark(s, last, TokenKind::Close, rest);
            lemma_lex(s, close + 3, *b, behind);
            let right = written_tokens(*b, close + 3, behind);
            lemma_lex_mark(s, close + 2, TokenKind::Open, right);
            let r2 = seq![mark(TokenKind::Open, close + 2)] + right;
            lemma_lex_mark(s, close + 1, sign_token(op), r2);
            let r1 = seq![mark(sign_token(op), close + 1)] + r2;
            lemma_lex_mark(s, close, TokenKind::Close, r1);
            let r0 = seq![mark(TokenKind::Close, close)] + r1;
            lemma_lex(s, p + 1, *a, r0);
            lemma_lex_mark(s, p, TokenKind::Open, written_tokens(*a, p + 1, r0));
        },
    }
}

/// What is an expression of some level is one of every higher level, where
/// no chain goes on behind it.
proof fn lemma_above(s: Seq<char>, ts: Seq<Token>, i: int, level: nat, top: nat, f: Formula, y: int)
    requires
        0 <= i < y <= ts.len(),
        level <= top,
        operand(s, ts, i, level) == Ok::<(Formula, int), ParseError>((f, y)),
        y == ts.len() || ts[y].kind == TokenKind::Close,
    ensures
        operand(s, ts, i, top) == Ok::<(Formula, int), ParseError>((f, y)),
    decreases top,
{
    if top > level {
        lemma_above(s, ts, i, level, (top - 1) as nat, f, y);
        assert(chain(s, ts, y, top, f) == Ok::<(Formula, int), ParseError>((f, y)));
    }
}

/// An expression of level 0 that the operator of a level follows is one of
/// every level below that.
proof fn lemma_below(s: Seq<char>, ts: Seq<Token>, i: int, level: nat, f: Formula, x: int)
    requires
        0 <= i < x < ts.len(),
        level <= 2,
        operand(s, ts, i, 0) == Ok::<(Formula, int), ParseError>((f, x)),
        ts[x].kind == operator(level + 1),
    ensures
        operand(s, ts, i, level) == Ok::<(Formula, int), ParseError>((f, x)),
{
    if level >= 1 {
        assert(ts[x].kind != operator(1));
        assert(chain(s, ts, x, 1, f) == Ok::<(Formula, int), ParseError>((f, x)));
        assert(operand(s, ts, i, 1) == Ok::<(Formula, int), ParseError>((f, x)));
    }
    if level >= 2 {
        assert(ts[x].kind != operator(2));
        assert(chain(s, ts, x, 2, f) == Ok::<(Formula, int), ParseError>((f, x)));
    }
}

/// What stands in parentheses from token `i` on is an expression of level 0,
/// where no negation mark follows.
proof fn lemma_in_parentheses(s: Seq<char>, ts: Seq<Token>, i: int, f: Formula, y: int)
    requires
        0 <= i,
        i + 1 < y < ts.len(),
        ts[i].kind == TokenKind::Open,
        operand(s, ts, i + 1, 3) == Ok::<(Formula, int), ParseError>((f, y)),
        ts[y].kind == TokenKind::Close,
        y + 1 == ts.len() || ts[y + 1].kind != TokenKind::Tick,
    ensures
        operand(s, ts, i, 0) == Ok::<(Formula, int), ParseError>((f, y + 1)),
{
    assert(primary(s, ts, i) == Ok::<(Formula, int), ParseError>((f, y + 1)));
    assert(marked(ts, y + 1, f) == (f, y + 1));
    assert(unary(s, ts, i) == Ok::<(Formula, int), ParseError>((f, y + 1)));
}

/// Two operands with the sign of a connective between them are the binary
/// node of that connective.
proof fn lemma_joined(
    s: Seq<char>,
    ts: Seq<Token>,
    i: int,
    x: int,
    y: int,
    op: Connective,
    a: Formula,
    b: Formula,
)
    requires
        0 <= i < x,
        x + 1 < y <= ts.len(),
        op is And || op is Or || op is Xor,
        ts[x].kind == sign_token(op),
        operand(s, ts, i, 0) == Ok::<(Formula, int), ParseError>((a, x)),
        operand(s, ts, x + 1, 0) == Ok::<(Formula, int), ParseError>((b, y)),
        y == ts.len() || ts[y].kind == TokenKind::Close,
    ensures
        operand(s, ts, i, 3) == Ok::<(Formula, int), ParseError>((Formula::binary(op, a, b), y)),
{
    let f = Formula::binary(op, a, b);
    let level: nat = if op is And {
        1
    } else if op is Xor {
        2
    } else {
        3
    };
    assert(operator(level) == sign_token(op));
    assert(connective(level) == op);
    lemma_below(s, ts, i, (level - 1) as nat, a, x);
    lemma_above(s, ts, x + 1, 0, (level - 1) as nat, b, y);
    assert(chain(s, ts, y, level, f) == Ok::<(Formula, int), ParseError>((f, y)));
    assert(chain(s, ts, x, level, a) == Ok::<(Formula, int), ParseError>((f, y)));
    assert(operand(s, ts, i, level) == Ok::<(Formula, int), ParseError>((f, y)));
    lemma_above(s, ts, i, level, 3, f, y);
}

/// The parser reads the tokens of a written form back, wherever they stand
/// among the tokens, if no chain goes on behind them.
proof fn lemma_read(s: Seq<char>, ts: Seq<Token>, i: int, f: Formula, p: int, rest: Seq<Token>)
    requires
        writable(f),
        0 <= i <= ts.len(),
        0 <= p,
        p + written(f).len() <= s.len() <= usize::MAX,
        s.subrange(p, p + written(f).len()) == written(f),
        ts.skip(i) == written_tokens(f, p, rest),
        operand_stops(rest),
    ensures
        operand(s, ts, i, 3) == Ok::<(Formula, int), ParseError>((f, i + token_count(f))),
        i + token_count(f) + rest.len() == ts.len(),
        ts.skip(i + token_count(f)) == rest,
    decreases f,
{
    let w = written(f);
    let wt = written_tokens(f, p, rest);
    let y = i + token_count(f);
    lemma_token_count(f, p, rest);
    lemma_written_len(f);
    lemma_skip(ts, i, wt, token_count(f), rest);
    if rest.len() > 0 {
        assert(ts[y] == ts.skip(y)[0]);
    }
    match f {
        Formula::Var(name) => {
            assert(ts[i] == wt[0]);
            assert(primary(s, ts, i) == Ok::<(Formula, int), ParseError>((f, i + 1)));
            assert(marked(ts, i + 1, f) == (f, i + 1));
            assert(unary(s, ts, i) == Ok::<(Formula, int), ParseError>((f, i + 1)));
            lemma_above(s, ts, i, 0, 3, f, y);
        },
        Formula::Not(a) => {
            let wa = written(*a);
            let close = p + 2 + wa.len();
            let behind = seq![mark(TokenKind::Close, close)] + rest;
            let inner = written_tokens(*a, p + 2, behind);
            lemma_parts_of_negation(*a);
            lemma_part(s, p, w, 2, wa);
            assert(wt == seq![mark(TokenKind::Not, p)] + (seq![mark(TokenKind::Open, p + 1)] + inner));
            assert(wt.skip(2) =~= inner);
            lemma_skip(ts, i, wt, 2, inner);
            assert(ts[i] == wt[0]);
            assert(ts[i + 1] == wt[1]);
            lemma_read(s, ts, i + 2, *a, p + 2, behind);
            assert(ts[y - 1] == ts.skip(y - 1)[0]);
            lemma_in_parentheses(s, ts, i + 1, *a, y - 1);
            assert(unary(s, ts, i + 1) == Ok::<(Formula, int), ParseError>((*a, y)));
            assert(unary(s, ts, i) == Ok::<(Formula, int), ParseError>((f, y)));
            lemma_above(s, ts, i, 0, 3, f, y);
        },
        Formula::Binary(op, a, b) => {
            let wa = written(*a);
            let wb = written(*b);
            let close = p + 1 + wa.len();
            let last = close + 3 + wb.len();
            let behind = seq![mark(TokenKind::Close, last)] + rest;
            let right = written_tokens(*b, close + 3, behind);
            let r2 = seq![mark(TokenKind::Open, close + 2)] + right;
            let r1 = seq![mark(sign_token(op), close + 1)] + r2;
            let r0 = seq![mark(TokenKind::Close, close)] + r1;
            let left = written_tokens(*a, p + 1, r0);
            lemma_parts_of_binary(op, *a, *b);
            lemma_part(s, p, w, 1, wa);
            lemma_part(s, p, w, close + 3 - p, wb);
            lemma_token_count(*a, p + 1, r0);
            lemma_token_count(*b, close + 3, behind);
            let x = i + 2 + token_count(*a);
            assert(wt == seq![mark(TokenKind::Open, p)] + left);
            assert(wt.skip(1) =~= left);
            lemma_skip(ts, i, wt, 1, left);
            assert(ts[i] == wt[0]);
            lemma_read(s, ts, i + 1, *a, p + 1, r0);
            assert(r0.skip(3) =~= right);
            lemma_skip(ts, x - 1, r0, 3, right);
            assert(ts[x - 1] == r0[0]);
            assert(ts[x] == r0[1]);
            assert(ts[x + 1] == r0[2]);
            lemma_read(s, ts, x + 2, *b, close + 3, behind);
            assert(ts[y - 1] == ts.skip(y - 1)[0]);
            lemma_in_parentheses(s, ts, i, *a, x - 1);
            lemma_in_parentheses(s, ts, x + 1, *b, y - 1);
            lemma_joined(s, ts, i, x, y, op, *a, *b);
        },
    }
}

/// The parser reads the written form of a formula back as that formula.
pub proof fn lemma_written_is_read(f: Formula)
    requires
        writable(f),
        written(f).len() <= usize::MAX,
    ensures
        parsed(written(f)) == Ok::<Formula, ParseError>(f),
{
    let s = written(f);
    let none = Seq::<Token>::empty();
    let ts = written_tokens(f, 0, none);
    assert(s.subrange(0, s.len() as int) =~= s);
    lemma_lex(s, 0, f, none);
    lemma_token_count(f, 0, none);
    assert(ts.skip(0) =~= ts);
    lemma_read(s, ts, 0, f, 0, none);
    lemma_written_len(f);
}

} // verus!
