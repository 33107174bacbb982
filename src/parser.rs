use vstd::prelude::*;
use vstd::string::StrSliceExecFns;

use crate::lexer::{
    lex_step, lemma_lex_step_progress, push_char, Associativity, LexError, Lexer, Operator, Token,
    TokenView,
};

verus! {

/// An entity of the postfix (reverse-Polish) form of a program.
#[derive(Clone, Debug, PartialEq)]
pub enum Expr {
    Integer(i32),
    /// A floating-point literal, kept as its text with separators removed.
    Float(String),
    Identifier(String),
    Operator(Operator),
    End,
}

/// A postfix entity with its text as a character sequence.
pub enum ExprView {
    Integer(i32),
    Float(Seq<char>),
    Identifier(Seq<char>),
    Operator(Operator),
    End,
}

impl View for Expr {
    type V = ExprView;

    open spec fn view(&self) -> ExprView {
        match self {
            Expr::Integer(n) => ExprView::Integer(*n),
            Expr::Float(s) => ExprView::Float(s@),
            Expr::Identifier(s) => ExprView::Identifier(s@),
            Expr::Operator(op) => ExprView::Operator(*op),
            Expr::End => ExprView::End,
        }
    }
}

/// Failure to turn a token sequence into postfix form. Token positions count
/// tokens from the start of the sequence.
#[derive(Clone, Copy, Debug, PartialEq, Eq, Structural)]
pub enum ParseError {
    /// The numeric literal at this position is not a valid number.
    InvalidNumericLiteral(usize),
    /// The token at this position may not appear in an expression.
    UnexpectedToken(usize),
    /// The source could not be split into tokens.
    Lex(LexError),
}

pub open spec fn is_digit(c: char) -> bool {
    '0' <= c && c <= '9'
}

/// The text with every '_' separator removed.
pub open spec fn strip_separators(t: Seq<char>) -> Seq<char>
    decreases t.len(),
{
    if t.len() == 0 {
        t
    } else if t.last() == '_' {
        strip_separators(t.drop_last())
    } else {
        strip_separators(t.drop_last()).push(t.last())
    }
}

/// How many '.' characters the text holds.
pub open spec fn dot_count(t: Seq<char>) -> nat
    decreases t.len(),
{
    if t.len() == 0 {
        0
    } else if t.last() == '.' {
        dot_count(t.drop_last()) + 1
    } else {
        dot_count(t.drop_last())
    }
}

/// The value of a string of decimal digits.
pub open spec fn digits_value(t: Seq<char>) -> int
    decreases t.len(),
{
    if t.len() == 0 {
        0
    } else {
        digits_value(t.drop_last()) * 10 + (t.last() as int - '0' as int)
    }
}

/// A floating-point literal: digits and exactly one '.', with at least one digit.
pub open spec fn is_float_text(d: Seq<char>) -> bool {
    &&& forall|j: int| 0 <= j < d.len() ==> is_digit(d[j]) || d[j] == '.'
    &&& dot_count(d) == 1
    &&& exists|j: int| 0 <= j < d.len() && is_digit(d[j])
}

/// An integer literal: a non-empty run of digits whose value fits in `i32`.
pub open spec fn is_int_text(d: Seq<char>) -> bool {
    &&& d.len() > 0
    &&& forall|j: int| 0 <= j < d.len() ==> is_digit(d[j])
    &&& digits_value(d) <= i32::MAX
}

/// The postfix entity a numeric literal's text denotes, if it is valid: with
/// the separators removed, a text holding '.' is a float, any other an integer.
pub open spec fn number_value(t: Seq<char>) -> Option<ExprView> {
    let d = strip_separators(t);
    if d.contains('.') {
        if is_float_text(d) {
            Some(ExprView::Float(d))
        } else {
            None
        }
    } else if is_int_text(d) {
        Some(ExprView::Integer(digits_value(d) as i32))
    } else {
        None
    }
}

pub open spec fn option_view(r: Option<Expr>) -> Option<ExprView> {
    match r {
        Some(e) => Some(e@),
        None => None,
    }
}

/// Removes the '_' separators of a numeric literal.
fn remove_separators(text: &str) -> (r: String)
    ensures
        r@ == strip_separators(text@),
{
    let n = text.unicode_len();
    let mut r = String::new();
    let mut i: usize = 0;
    while i < n
        invariant
            n == text@.len(),
            i <= n,
            r@ == strip_separators(text@.subrange(0, i as int)),
        decreases n - i,
    {
        let c = text.get_char(i);
        assert(text@.subrange(0, i + 1).drop_last() =~= text@.subrange(0, i as int));
        if c != '_' {
            push_char(&mut r, c);
        }
        i = i + 1;
    }
    assert(text@.subrange(0, n as int) =~= text@);
    r
}

proof fn lemma_contains_dot(d: Seq<char>)
    ensures
        d.contains('.') <==> dot_count(d) > 0,
    decreases d.len(),
{
    if d.len() > 0 {
        lemma_contains_dot(d.drop_last());
        if d.drop_last().contains('.') {
            let j = choose|j: int| 0 <= j < d.drop_last().len() && d.drop_last()[j] == '.';
            assert(d[j] == '.');
        }
        if d.contains('.') && d.last() != '.' {
            let j = choose|j: int| 0 <= j < d.len() && d[j] == '.';
            assert(d.drop_last()[j] == '.');
        }
    }
}

proof fn lemma_digits_value_nonneg(d: Seq<char>)
    requires
        forall|j: int| 0 <= j < d.len() ==> is_digit(d[j]),
    ensures
        digits_value(d) >= 0,
    decreases d.len(),
{
    if d.len() > 0 {
        lemma_digits_value_nonneg(d.drop_last());
    }
}

/// The value of a digit string is at least that of any of its prefixes.
proof fn lemma_digits_value_prefix(d: Seq<char>, i: int)
    requires
        0 <= i <= d.len(),
        forall|j: int| 0 <= j < d.len() ==> is_digit(d[j]),
    ensures
        digits_value(d.subrange(0, i)) <= digits_value(d),
    decreases d.len() - i,
{
    if i < d.len() {
        lemma_digits_value_prefix(d, i + 1);
        let p = d.subrange(0, i + 1);
        assert(p.drop_last() =~= d.subrange(0, i));
        lemma_digits_value_nonneg(p.drop_last());
    } else {
        assert(d.subrange(0, i) =~= d);
    }
}

/// Turns the raw text of a numeric literal into a postfix entity.
pub fn parse_number(text: &str) -> (r: Option<Expr>)
    ensures
        option_view(r) == number_value(text@),
{
    let d = remove_separators(text);
    let n = d.as_str().unicode_len();
    let mut dots: usize = 0;
    let mut digits: usize = 0;
    let mut others: usize = 0;
    let mut value: i64 = 0;
    let mut overflow = false;
    let mut i: usize = 0;
    while i < n
        invariant
            n == d@.len(),
            i <= n,
            dots == dot_count(d@.subrange(0, i as int)),
            dots <= i,
            digits <= i,
            others <= i,
            (others == 0) == (forall|j: int| 0 <= j < i ==> is_digit(d@[j]) || d@[j] == '.'),
            (digits > 0) == (exists|j: int| 0 <= j < i && is_digit(d@[j])),
            0 <= value <= i32::MAX,
            !overflow && others == 0 && dots == 0 ==> value == digits_value(
                d@.subrange(0, i as int),
            ),
            overflow ==> (exists|k: int| 0 <= k <= i && digits_value(d@.subrange(0, k)) > i32::MAX),
        decreases n - i,
    {
        let c = d.as_str().get_char(i);
        let ghost pre = d@.subrange(0, i as int);
        let ghost next = d@.subrange(0, i + 1);
        assert(next.drop_last() =~= pre);
        let was_digits = others == 0 && dots == 0;
        if c == '.' {
            dots = dots + 1;
        } else if '0' <= c && c <= '9' {
            digits = digits + 1;
        } else {
            others = others + 1;
        }
        if !overflow && was_digits && '0' <= c && c <= '9' {
            let dv = (c as u32 - '0' as u32) as i64;
            let nv = value * 10 + dv;
            assert(next.last() == c);
            if nv > i32::MAX as i64 {
                overflow = true;
                assert(digits_value(next) > i32::MAX);
            } else {
                value = nv;
            }
        }
        i = i + 1;
    }
    proof {
        assert(d@.subrange(0, n as int) =~= d@);
        lemma_contains_dot(d@);
    }
    let has_dot = dots > 0;
    if has_dot {
        if others == 0 && dots == 1 && digits > 0 {
            Some(Expr::Float(d))
        } else {
            None
        }
    } else if n > 0 && others == 0 && !overflow {
        Some(Expr::Integer(value as i32))
    } else {
        proof {
            if n > 0 && others == 0 && overflow {
                let k = choose|k: int| 0 <= k <= n && digits_value(d@.subrange(0, k)) > i32::MAX;
                assert forall|j: int| 0 <= j < d@.len() implies is_digit(d@[j]) by {
                    assert(d@[j] != '.');
                }
                lemma_digits_value_prefix(d@, k);
            }
        }
        None
    }
}

/// Whether `top`, already on the operator stack, is emitted before `op` is
/// pushed: it binds tighter, or equally tightly with `op` grouping to the left.
pub open spec fn yields_to(top: Operator, op: Operator) -> bool {
    top.precedence > op.precedence || (top.precedence == op.precedence && op.assoc
        == Associativity::Left)
}

/// Moves operators from the top of `stack` to `output` while they yield to `op`.
pub open spec fn pop_while(stack: Seq<Operator>, output: Seq<ExprView>, op: Operator) -> (
    Seq<Operator>,
    Seq<ExprView>,
)
    decreases stack.len(),
{
    if stack.len() > 0 && yields_to(stack.last(), op) {
        pop_while(stack.drop_last(), output.push(ExprView::Operator(stack.last())), op)
    } else {
        (stack, output)
    }
}

/// Moves every operator of `stack` to `output`, most recently pushed first.
pub open spec fn drain(stack: Seq<Operator>, output: Seq<ExprView>) -> Seq<ExprView>
    decreases stack.len(),
{
    if stack.len() > 0 {
        drain(stack.drop_last(), output.push(ExprView::Operator(stack.last())))
    } else {
        output
    }
}

/// The shunting-yard algorithm on `toks` from position `k`, with the given
/// operator stack and output so far. The end of input, or the end of the
/// sequence, drains the stack and appends the `End` marker.
pub open spec fn shunt_from(
    toks: Seq<TokenView>,
    k: nat,
    stack: Seq<Operator>,
    output: Seq<ExprView>,
) -> Result<Seq<ExprView>, ParseError>
    decreases toks.len() - k,
{
    if k >= toks.len() {
        Ok(drain(stack, output).push(ExprView::End))
    } else {
        match toks[k as int] {
            TokenView::LiteralNumeric(t) => match number_value(t) {
                Some(e) => shunt_from(toks, k + 1, stack, output.push(e)),
                None => Err(ParseError::InvalidNumericLiteral(k as usize)),
            },
            TokenView::Identifier(name) => shunt_from(
                toks,
                k + 1,
                stack,
                output.push(ExprView::Identifier(name)),
            ),
            TokenView::Operator(op) => {
                let (s2, o2) = pop_while(stack, output, op);
                shunt_from(toks, k + 1, s2.push(op), o2)
            },
            TokenView::EndOfFile => Ok(drain(stack, output).push(ExprView::End)),
            TokenView::LiteralString(_) => Err(ParseError::UnexpectedToken(k as usize)),
        }
    }
}

/// The postfix form of a token sequence.
pub open spec fn shunt(toks: Seq<TokenView>) -> Result<Seq<ExprView>, ParseError> {
    shunt_from(toks, 0, Seq::empty(), Seq::empty())
}

pub open spec fn exprs_view(v: Seq<Expr>) -> Seq<ExprView> {
    v.map_values(|e: Expr| e@)
}

pub open spec fn tokens_view(v: Seq<Token>) -> Seq<TokenView> {
    v.map_values(|t: Token| t@)
}

pub open spec fn postfix_result_view(r: Result<Vec<Expr>, ParseError>) -> Result<
    Seq<ExprView>,
    ParseError,
> {
    match r {
        Ok(v) => Ok(exprs_view(v@)),
        Err(e) => Err(e),
    }
}

fn yields(top: &Operator, op: &Operator) -> (r: bool)
    ensures
        r == yields_to(*top, *op),
{
    top.precedence > op.precedence || (top.precedence == op.precedence && match op.assoc {
        Associativity::Left => true,
        Associativity::Right => false,
    })
}

/// Drains the operator stack into the output and appends the `End` marker.
fn finish(stack: Vec<Operator>, output: Vec<Expr>) -> (r: Vec<Expr>)
    ensures
        exprs_view(r@) == drain(stack@, exprs_view(output@)).push(ExprView::End),
{
    let mut stack = stack;
    let mut output = output;
    let ghost goal = drain(stack@, exprs_view(output@));
    while stack.len() > 0
        invariant
            drain(stack@, exprs_view(output@)) == goal,
        decreases stack@.len(),
    {
        let ghost before = output@;
        let ghost top = stack@.last();
        match stack.pop() {
            Some(op) => {
                output.push(Expr::Operator(op));
                assert(exprs_view(output@) =~= exprs_view(before).push(ExprView::Operator(top)));
            },
            None => {},
        }
    }
    let ghost before = output@;
    output.push(Expr::End);
    assert(exprs_view(output@) =~= exprs_view(before).push(ExprView::End));
    output
}

/// Handles one operator: emits every stacked operator that yields to it,
/// then pushes it.
pub fn parse_operator(operator: Operator, stack: &mut Vec<Operator>, output: &mut Vec<Expr>)
    ensures
        ({
            let (s2, o2) = pop_while(old(stack)@, exprs_view(old(output)@), operator);
            &&& final(stack)@ == s2.push(operator)
            &&& exprs_view(final(output)@) == o2
        }),
{
    let ghost goal = pop_while(stack@, exprs_view(output@), operator);
    while stack.len() > 0 && yields(&stack[stack.len() - 1], &operator)
        invariant
            goal == pop_while(old(stack)@, exprs_view(old(output)@), operator),
            pop_while(stack@, exprs_view(output@), operator) == goal,
        decreases stack@.len(),
    {
        let ghost out = output@;
        let ghost top = stack@.last();
        match stack.pop() {
            Some(t) => {
                output.push(Expr::Operator(t));
                assert(exprs_view(output@) =~= exprs_view(out).push(ExprView::Operator(top)));
            },
            None => {},
        }
    }
    stack.push(operator);
}

/// Runs the shunting-yard algorithm over `tokens`, producing the postfix
/// sequence terminated by `End`.
pub fn parse_tokens(tokens: &Vec<Token>) -> (r: Result<Vec<Expr>, ParseError>)
    ensures
        postfix_result_view(r) == shunt(tokens_view(tokens@)),
{
    let ghost toks = tokens_view(tokens@);
    let mut stack: Vec<Operator> = Vec::new();
    let mut output: Vec<Expr> = Vec::new();
    let mut k: usize = 0;
    assert(exprs_view(output@) =~= Seq::empty());
    while k < tokens.len()
        invariant
            toks == tokens_view(tokens@),
            toks.len() == tokens@.len(),
            k <= tokens@.len(),
            shunt(toks) == shunt_from(toks, k as nat, stack@, exprs_view(output@)),
        decreases tokens@.len() - k,
    {
        assert(toks[k as int] == tokens@[k as int]@);
        let ghost before = output@;
        match &tokens[k] {
            Token::LiteralNumeric(text) => match parse_number(text.as_str()) {
                Some(e) => {
                    output.push(e);
                    assert(exprs_view(output@) =~= exprs_view(before).push(e@));
                },
                None => {
                    return Err(ParseError::InvalidNumericLiteral(k));
                },
            },
            Token::Identifier(name) => {
                output.push(Expr::Identifier(name.clone()));
                assert(exprs_view(output@) =~= exprs_view(before).push(
                    ExprView::Identifier(name@),
                ));
            },
            Token::Operator(op) => {
                parse_operator(*op, &mut stack, &mut output);
            },
            Token::EndOfFile => {
                return Ok(finish(stack, output));
            },
            Token::LiteralString(_) => {
                return Err(ParseError::UnexpectedToken(k));
            },
        }
        k = k + 1;
    }
    Ok(finish(stack, output))
}

/// The tokens of `s` from position `i` up to and including the end of
/// input, or the first lexical error.
pub open spec fn lex_all(s: Seq<char>, i: nat) -> Result<Seq<TokenView>, LexError>
    decreases s.len() - i,
{
    let (r, j) = lex_step(s, i);
    match r {
        Err(e) => Err(e),
        Ok(TokenView::EndOfFile) => Ok(seq![TokenView::EndOfFile]),
        Ok(t) => if i < j <= s.len() {
            match lex_all(s, j) {
                Ok(ts) => Ok(seq![t] + ts),
                Err(e) => Err(e),
            }
        } else {
            Ok(seq![t])
        },
    }
}

/// The postfix form of the source `s` read from position `i`.
pub open spec fn parse_source(s: Seq<char>, i: nat) -> Result<Seq<ExprView>, ParseError> {
    match lex_all(s, i) {
        Ok(toks) => shunt(toks),
        Err(e) => Err(ParseError::Lex(e)),
    }
}

/// Reads a whole source through a lexer and turns it into postfix form.
pub struct Parser {
    lexer: Lexer,
    output: Vec<Expr>,
}

impl Parser {
    /// The characters being parsed.
    pub closed spec fn source(&self) -> Seq<char> {
        self.lexer.source()
    }

    /// How far the lexer has read.
    pub closed spec fn cursor(&self) -> nat {
        self.lexer.cursor()
    }

    /// The postfix sequence produced so far.
    pub closed spec fn postfix(&self) -> Seq<ExprView> {
        exprs_view(self.output@)
    }

    pub closed spec fn wf(&self) -> bool {
        &&& self.lexer.wf()
        &&& self.lexer.cursor() <= self.lexer.source().len()
    }

    /// A parser at the start of `stream`, with empty output.
    pub fn new(stream: Vec<char>) -> (r: Self)
        ensures
            r.wf(),
            r.source() == stream@,
            r.cursor() == 0,
            r.postfix().len() == 0,
    {
        let p = Parser { lexer: Lexer::new(stream), output: Vec::new() };
        assert(p.postfix() =~= Seq::empty());
        p
    }

    /// The postfix sequence produced so far.
    pub fn output(&self) -> (r: &Vec<Expr>)
        ensures
            exprs_view(r@) == self.postfix(),
    {
        &self.output
    }

    /// Reads the rest of the source and stores its postfix form in `output`.
    /// On failure the error is returned and `output` is left as it was.
    pub fn parse(&mut self) -> (r: Result<(), ParseError>)
        requires
            old(self).wf(),
        ensures
            final(self).wf(),
            final(self).source() == old(self).source(),
            match parse_source(old(self).source(), old(self).cursor()) {
                Ok(out) => r is Ok && final(self).postfix() == out,
                Err(e) => r == Err::<(), ParseError>(e) && final(self).postfix() == old(
                    self,
                ).postfix(),
            },
    {
        let ghost s = self.lexer.source();
        let ghost p0 = self.lexer.cursor();
        let mut tokens: Vec<Token> = Vec::new();
        assert(tokens_view(tokens@) =~= Seq::empty());
        loop
            invariant_except_break
                lex_all(s, p0) == match lex_all(s, self.lexer.cursor()) {
                    Ok(ts) => Ok(tokens_view(tokens@) + ts),
                    Err(e) => Err(e),
                },
            invariant
                s == old(self).lexer.source(),
                p0 == old(self).lexer.cursor(),
                self.output@ == old(self).output@,
                self.lexer.wf(),
                self.lexer.source() == s,
                self.lexer.cursor() <= s.len(),
            ensures
                lex_all(s, p0) == Ok::<Seq<TokenView>, LexError>(tokens_view(tokens@)),
            decreases s.len() - self.lexer.cursor(),
        {
            let ghost i = self.lexer.cursor();
            let ghost before = tokens@;
            proof {
                lemma_lex_step_progress(s, i);
            }
            match self.lexer.next() {
                Err(e) => {
                    assert(lex_all(s, i) == Err::<Seq<TokenView>, LexError>(e));
                    return Err(ParseError::Lex(e));
                },
                Ok(Token::EndOfFile) => {
                    tokens.push(Token::EndOfFile);
                    assert(tokens_view(tokens@) =~= tokens_view(before) + seq![
                        TokenView::EndOfFile,
                    ]);
                    assert(lex_all(s, i) == Ok::<Seq<TokenView>, LexError>(
                        seq![TokenView::EndOfFile],
                    ));
                    break ;
                },
                Ok(t) => {
                    let ghost tv = t@;
                    tokens.push(t);
                    assert(tokens_view(tokens@) =~= tokens_view(before) + seq![tv]);
                    proof {
                        let j = self.lexer.cursor();
                        match lex_all(s, j) {
                            Ok(ts) => {
                                assert(tokens_view(before) + (seq![tv] + ts) =~= tokens_view(
                                    tokens@,
                                ) + ts);
                            },
                            Err(e) => {},
                        }
                    }
                },
            }
        }
        match parse_tokens(&tokens) {
            Ok(out) => {
                self.output = out;
                Ok(())
            },
            Err(e) => Err(e),
        }
    }
}

} // verus!
