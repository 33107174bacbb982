use vstd::prelude::*;
use vstd::string::StrSliceExecFns;

verus! {

/// How an operator groups with neighbours of the same precedence.
#[derive(Clone, Copy, Debug, PartialEq, Eq, Structural)]
pub enum Associativity {
    Left,
    Right,
}

/// The closed set of operators the language knows.
#[derive(Clone, Copy, Debug, PartialEq, Eq, Structural)]
pub enum OpKind {
    Add,
    Sub,
    Mul,
    Div,
    Assign,
}

/// An operator definition: its kind, how it associates, how tightly it
/// binds (higher binds tighter) and how many operands it takes.
#[derive(Clone, Copy, Debug, PartialEq, Eq, Structural)]
pub struct Operator {
    pub kind: OpKind,
    pub assoc: Associativity,
    pub precedence: u8,
    pub n_args: u8,
}

/// The source text of each operator kind.
pub open spec fn symbol(kind: OpKind) -> Seq<char> {
    match kind {
        OpKind::Add => seq!['+'],
        OpKind::Sub => seq!['-'],
        OpKind::Mul => seq!['*'],
        OpKind::Div => seq!['/'],
        OpKind::Assign => seq!['='],
    }
}

impl OpKind {
    /// Whether `sym` is the source text of this operator kind.
    pub fn matches_symbol(&self, sym: &Vec<char>) -> (r: bool)
        ensures
            r == (symbol(*self) == sym@),
    {
        let c = match self {
            OpKind::Add => '+',
            OpKind::Sub => '-',
            OpKind::Mul => '*',
            OpKind::Div => '/',
            OpKind::Assign => '=',
        };
        let r = sym.len() == 1 && sym[0] == c;
        proof {
            if r {
                assert(symbol(*self) =~= sym@);
            }
        }
        r
    }
}

/// The operator table: `+ -` on one tier, `* /` above them, and assignment
/// below every arithmetic operator, grouping to the right.
pub open spec fn op_table() -> Seq<Operator> {
    seq![
        Operator { kind: OpKind::Add, assoc: Associativity::Left, precedence: 1, n_args: 2 },
        Operator { kind: OpKind::Sub, assoc: Associativity::Left, precedence: 1, n_args: 2 },
        Operator { kind: OpKind::Mul, assoc: Associativity::Left, precedence: 2, n_args: 2 },
        Operator { kind: OpKind::Div, assoc: Associativity::Left, precedence: 2, n_args: 2 },
        Operator { kind: OpKind::Assign, assoc: Associativity::Right, precedence: 0, n_args: 2 },
    ]
}

/// The first entry of `table` whose symbol is `sym`.
pub open spec fn lookup(table: Seq<Operator>, sym: Seq<char>) -> Option<Operator>
    decreases table.len(),
{
    if table.len() == 0 {
        None
    } else if symbol(table[0].kind) == sym {
        Some(table[0])
    } else {
        lookup(table.drop_first(), sym)
    }
}

/// Builds the operator table.
pub fn operator_map() -> (r: Vec<Operator>)
    ensures
        r@ == op_table(),
{
    let mut map: Vec<Operator> = Vec::new();
    map.push(Operator { kind: OpKind::Add, assoc: Associativity::Left, precedence: 1, n_args: 2 });
    map.push(Operator { kind: OpKind::Sub, assoc: Associativity::Left, precedence: 1, n_args: 2 });
    map.push(Operator { kind: OpKind::Mul, assoc: Associativity::Left, precedence: 2, n_args: 2 });
    map.push(Operator { kind: OpKind::Div, assoc: Associativity::Left, precedence: 2, n_args: 2 });
    map.push(
        Operator { kind: OpKind::Assign, assoc: Associativity::Right, precedence: 0, n_args: 2 },
    );
    assert(map@ =~= op_table());
    map
}

/// Looks `sym` up in `table`.
pub fn find_operator(table: &Vec<Operator>, sym: &Vec<char>) -> (r: Option<Operator>)
    ensures
        r == lookup(table@, sym@),
{
    let mut i: usize = 0;
    assert(table@.subrange(0, table@.len() as int) =~= table@);
    while i < table.len()
        invariant
            i <= table@.len(),
            lookup(table@, sym@) == lookup(table@.subrange(i as int, table@.len() as int), sym@),
        decreases table@.len() - i,
    {
        proof {
            let rest = table@.subrange(i as int, table@.len() as int);
            assert(rest.drop_first() =~= table@.subrange(i + 1, table@.len() as int));
        }
        if table[i].kind.matches_symbol(sym) {
            return Some(table[i]);
        }
        i = i + 1;
    }
    None
}

/// Characters that make up a numeric literal: decimal digits, '.' and '_'.
pub open spec fn is_numeric_char(c: char) -> bool {
    ('0' <= c && c <= '9') || c == '.' || c == '_'
}

/// Characters skipped between tokens.
pub open spec fn is_whitespace_char(c: char) -> bool {
    c == '\t' || c == '\r' || c == '\n' || c == ' '
}

/// Characters that may start an operator.
pub open spec fn is_operator_char(c: char) -> bool {
    c == '+' || c == '-' || c == '*' || c == '/' || c == '='
}

/// Whether `c` occurs in `table`.
pub fn contains_char(table: &Vec<char>, c: char) -> (r: bool)
    ensures
        r == table@.contains(c),
{
    let mut i: usize = 0;
    while i < table.len()
        invariant
            i <= table@.len(),
            forall|k: int| 0 <= k < i ==> table@[k] != c,
        decreases table@.len() - i,
    {
        if table[i] == c {
            return true;
        }
        i = i + 1;
    }
    false
}

/// The lookup table of characters allowed in numeric literals: `1234567890._`.
pub fn numeric_digits() -> (r: Vec<char>)
    ensures
        forall|c: char| r@.contains(c) <==> is_numeric_char(c),
{
    let r = vec!['1', '2', '3', '4', '5', '6', '7', '8', '9', '0', '.', '_'];
    assert forall|c: char| is_numeric_char(c) implies r@.contains(c) by {
        let k: int = if c == '.' {
            10
        } else if c == '_' {
            11
        } else if c == '0' {
            9
        } else {
            (c as int) - ('1' as int)
        };
        assert(r@[k] == c);
    }
    r
}

/// The lookup table of whitespace characters, which are skipped: `\t\r\n `.
pub fn whitespace_digits() -> (r: Vec<char>)
    ensures
        forall|c: char| r@.contains(c) <==> is_whitespace_char(c),
{
    let r = vec!['\t', '\r', '\n', ' '];
    assert forall|c: char| is_whitespace_char(c) implies r@.contains(c) by {
        let k: int = if c == '\t' {
            0
        } else if c == '\r' {
            1
        } else if c == '\n' {
            2
        } else {
            3
        };
        assert(r@[k] == c);
    }
    r
}

/// The lookup table of characters that start an operator: `+-*/=`.
pub fn operator_digits() -> (r: Vec<char>)
    ensures
        forall|c: char| r@.contains(c) <==> is_operator_char(c),
{
    let r = vec!['+', '-', '*', '/', '='];
    assert forall|c: char| is_operator_char(c) implies r@.contains(c) by {
        let k: int = if c == '+' {
            0
        } else if c == '-' {
            1
        } else if c == '*' {
            2
        } else if c == '/' {
            3
        } else {
            4
        };
        assert(r@[k] == c);
    }
    r
}

/// Relies on `String::push`, which appends one character at the end.
#[verifier::external_body]
pub(crate) fn push_char(s: &mut String, c: char)
    ensures
        final(s)@ == old(s)@.push(c),
{
    s.push(c)
}

/// Failure to read the next token.
#[derive(Clone, Copy, Debug, PartialEq, Eq, Structural)]
pub enum LexError {
    /// A character outside the literal, operator and whitespace sets, with its position.
    UnexpectedCharacter(char, usize),
}

/// A lexical token.
#[derive(Clone, Debug, PartialEq)]
pub enum Token {
    /// The raw text of a numeric literal, separators included.
    LiteralNumeric(String),
    /// Reserved: nothing produces or consumes string literals.
    LiteralString(String),
    /// A name; the lexer does not produce these, but the parser accepts them.
    Identifier(String),
    Operator(Operator),
    EndOfFile,
}

/// A token with its text as a character sequence.
pub enum TokenView {
    LiteralNumeric(Seq<char>),
    LiteralString(Seq<char>),
    Identifier(Seq<char>),
    Operator(Operator),
    EndOfFile,
}

impl View for Token {
    type V = TokenView;

    open spec fn view(&self) -> TokenView {
        match self {
            Token::LiteralNumeric(s) => TokenView::LiteralNumeric(s@),
            Token::LiteralString(s) => TokenView::LiteralString(s@),
            Token::Identifier(s) => TokenView::Identifier(s@),
            Token::Operator(op) => TokenView::Operator(*op),
            Token::EndOfFile => TokenView::EndOfFile,
        }
    }
}

/// The view of what one call of the lexer returns.
pub open spec fn lex_result_view(r: Result<Token, LexError>) -> Result<TokenView, LexError> {
    match r {
        Ok(t) => Ok(t@),
        Err(e) => Err(e),
    }
}

/// The end of the maximal run of numeric characters of `s` starting at `i`.
pub open spec fn run_end(s: Seq<char>, i: nat) -> nat
    decreases s.len() - i,
{
    if i < s.len() && is_numeric_char(s[i as int]) {
        run_end(s, i + 1)
    } else {
        i
    }
}

/// One step of the lexer on `s` with the cursor at `i`: the token (or error)
/// and the cursor after it.
pub open spec fn lex_step(s: Seq<char>, i: nat) -> (Result<TokenView, LexError>, nat)
    decreases s.len() - i,
{
    if i >= s.len() {
        (Ok(TokenView::EndOfFile), i)
    } else {
        let c = s[i as int];
        if is_numeric_char(c) {
            let e = run_end(s, i);
            (Ok(TokenView::LiteralNumeric(s.subrange(i as int, e as int))), e)
        } else if is_operator_char(c) {
            if i + 1 < s.len() && lookup(op_table(), seq![c, s[i + 1 as int]]).is_some() {
                (Ok(TokenView::Operator(lookup(op_table(), seq![c, s[i + 1 as int]]).unwrap())), i + 2)
            } else {
                match lookup(op_table(), seq![c]) {
                    Some(op) => (Ok(TokenView::Operator(op)), i + 1),
                    None => (Err(LexError::UnexpectedCharacter(c, i as usize)), i + 1),
                }
            }
        } else if is_whitespace_char(c) {
            lex_step(s, i + 1)
        } else {
            (Err(LexError::UnexpectedCharacter(c, i as usize)), i + 1)
        }
    }
}

/// A pull-based lexer over a character sequence, with a forward-only cursor.
pub struct Lexer {
    stream: Vec<char>,
    pos: usize,
    lut_digits: Vec<char>,
    lut_whitespace: Vec<char>,
    lut_operators: Vec<char>,
    op_map: Vec<Operator>,
}

impl Lexer {
    /// The characters being scanned.
    pub closed spec fn source(&self) -> Seq<char> {
        self.stream@
    }

    /// How many characters have been consumed.
    pub closed spec fn cursor(&self) -> nat {
        self.pos as nat
    }

    /// The cursor lies within the source and the tables are the language's.
    pub closed spec fn wf(&self) -> bool {
        &&& self.pos <= self.stream@.len()
        &&& forall|c: char| self.lut_digits@.contains(c) <==> is_numeric_char(c)
        &&& forall|c: char| self.lut_whitespace@.contains(c) <==> is_whitespace_char(c)
        &&& forall|c: char| self.lut_operators@.contains(c) <==> is_operator_char(c)
        &&& self.op_map@ == op_table()
    }

    /// A lexer at the start of `stream`.
    pub fn new(stream: Vec<char>) -> (r: Self)
        ensures
            r.wf(),
            r.source() == stream@,
            r.cursor() == 0,
    {
        Lexer {
            stream,
            pos: 0,
            lut_digits: numeric_digits(),
            lut_whitespace: whitespace_digits(),
            lut_operators: operator_digits(),
            op_map: operator_map(),
        }
    }

    /// Scans the next token. Once the source is exhausted every call returns
    /// `EndOfFile`.
    pub fn next(&mut self) -> (r: Result<Token, LexError>)
        requires
            old(self).wf(),
        ensures
            final(self).wf(),
            final(self).source() == old(self).source(),
            (lex_result_view(r), final(self).cursor()) == lex_step(
                old(self).source(),
                old(self).cursor(),
            ),
    {
        let ghost s = self.stream@;
        let mut i: usize = self.pos;
        loop
            invariant
                self.wf(),
                self.stream@ == s,
                s == old(self).stream@,
                i <= s.len(),
                lex_step(s, i as nat) == lex_step(s, old(self).pos as nat),
            decreases s.len() - i,
        {
            if i >= self.stream.len() {
                self.pos = i;
                return Ok(Token::EndOfFile);
            }
            let c = self.stream[i];
            if contains_char(&self.lut_digits, c) {
                let start = i;
                let mut buffer = String::new();
                push_char(&mut buffer, c);
                i = i + 1;
                while i < self.stream.len() && contains_char(&self.lut_digits, self.stream[i])
                    invariant
                        self.wf(),
                        self.stream@ == s,
                        start < i <= s.len(),
                        run_end(s, i as nat) == run_end(s, start as nat),
                        buffer@ == s.subrange(start as int, i as int),
                    decreases s.len() - i,
                {
                    push_char(&mut buffer, self.stream[i]);
                    i = i + 1;
                    assert(buffer@ =~= s.subrange(start as int, i as int));
                }
                self.pos = i;
                return Ok(Token::LiteralNumeric(buffer));
            } else if contains_char(&self.lut_operators, c) {
                if i + 1 < self.stream.len() {
                    let two = vec![c, self.stream[i + 1]];
                    assert(two@ =~= seq![c, s[i + 1]]);
                    if let Some(op) = find_operator(&self.op_map, &two) {
                        self.pos = i + 2;
                        return Ok(Token::Operator(op));
                    }
                }
                let one = vec![c];
                assert(one@ =~= seq![c]);
                self.pos = i + 1;
                return match find_operator(&self.op_map, &one) {
                    Some(op) => Ok(Token::Operator(op)),
                    None => Err(LexError::UnexpectedCharacter(c, i)),
                };
            } else if contains_char(&self.lut_whitespace, c) {
                i = i + 1;
            } else {
                self.pos = i + 1;
                return Err(LexError::UnexpectedCharacter(c, i));
            }
        }
    }
}

/// The run of numeric characters from `i` ends at `run_end(s, i)`: every
/// character before that point is numeric, and the one there is not.
pub proof fn lemma_run_end(s: Seq<char>, i: nat)
    requires
        i <= s.len(),
    ensures
        i <= run_end(s, i) <= s.len(),
        forall|j: int| i <= j < run_end(s, i) ==> is_numeric_char(s[j]),
        run_end(s, i) == s.len() || !is_numeric_char(s[run_end(s, i) as int]),
    decreases s.len() - i,
{
    if i < s.len() && is_numeric_char(s[i as int]) {
        lemma_run_end(s, i + 1);
    }
}

/// Whitespace between `i` and `k` is skipped: lexing from either gives the same.
pub proof fn lemma_skip_whitespace(s: Seq<char>, i: nat, k: nat)
    requires
        i <= k <= s.len(),
        forall|j: int| i <= j < k ==> is_whitespace_char(s[j]),
    ensures
        lex_step(s, i) == lex_step(s, k),
    decreases k - i,
{
    if i < k {
        lemma_skip_whitespace(s, i + 1, k);
    }
}

/// Numeric literals are read by maximal munch: when the first
/// non-whitespace character of `s` (at `k`) is a digit, '.' or '_', the first
/// token is the longest run of such characters starting at `k`.
pub proof fn lemma_numeric_maximal_munch(s: Seq<char>, k: nat)
    requires
        k < s.len(),
        forall|j: int| 0 <= j < k ==> is_whitespace_char(s[j]),
        is_numeric_char(s[k as int]),
    ensures
        ({
            let e = run_end(s, k);
            &&& k < e <= s.len()
            &&& forall|j: int| k <= j < e ==> is_numeric_char(s[j])
            &&& (e == s.len() || !is_numeric_char(s[e as int]))
            &&& lex_step(s, 0) == (Ok::<TokenView, LexError>(
                TokenView::LiteralNumeric(s.subrange(k as int, e as int)),
            ), e)
        }),
{
    lemma_run_end(s, k);
    lemma_run_end(s, k + 1);
    lemma_skip_whitespace(s, 0, k);
}

/// Each step that does not report the end of input moves the cursor forward,
/// and the cursor never passes the end of the source.
pub proof fn lemma_lex_step_progress(s: Seq<char>, i: nat)
    requires
        i <= s.len(),
    ensures
        lex_step(s, i).1 <= s.len(),
        lex_step(s, i).0 != Ok::<TokenView, LexError>(TokenView::EndOfFile) ==> lex_step(s, i).1
            > i,
        lex_step(s, i).0 == Ok::<TokenView, LexError>(TokenView::EndOfFile) ==> lex_step(s, i).1
            == s.len(),
    decreases s.len() - i,
{
    if i < s.len() {
        let c = s[i as int];
        if is_numeric_char(c) {
            lemma_run_end(s, i);
            lemma_run_end(s, i + 1);
        } else if !is_operator_char(c) && is_whitespace_char(c) {
            lemma_lex_step_progress(s, i + 1);
        }
    }
}

/// Once the end of input is reported, every later step reports it again
/// and leaves the cursor where it is.
pub proof fn lemma_end_of_file_is_terminal(s: Seq<char>, i: nat)
    requires
        i <= s.len(),
        lex_step(s, i).0 == Ok::<TokenView, LexError>(TokenView::EndOfFile),
    ensures
        lex_step(s, lex_step(s, i).1) == (Ok::<TokenView, LexError>(TokenView::EndOfFile), lex_step(
            s,
            i,
        ).1),
{
    lemma_lex_step_progress(s, i);
}

/// A step's outcome with every position moved forward by `p`.
pub open spec fn shift_step(r: (Result<TokenView, LexError>, nat), p: nat) -> (
    Result<TokenView, LexError>,
    nat,
) {
    (
        match r.0 {
            Err(LexError::UnexpectedCharacter(c, q)) => Err(
                LexError::UnexpectedCharacter(c, (q + p) as usize),
            ),
            Ok(t) => Ok(t),
        },
        r.1 + p,
    )
}

proof fn lemma_run_end_suffix(s: Seq<char>, p: nat, i: nat)
    requires
        p <= i <= s.len(),
    ensures
        run_end(s, i) == run_end(s.subrange(p as int, s.len() as int), (i - p) as nat) + p,
    decreases s.len() - i,
{
    let t = s.subrange(p as int, s.len() as int);
    if i < s.len() {
        assert(t[i - p] == s[i as int]);
        lemma_run_end_suffix(s, p, i + 1);
    }
}

proof fn lemma_lex_suffix(s: Seq<char>, p: nat, i: nat)
    requires
        p <= i <= s.len(),
        s.len() <= usize::MAX,
    ensures
        lex_step(s, i) == shift_step(
            lex_step(s.subrange(p as int, s.len() as int), (i - p) as nat),
            p,
        ),
    decreases s.len() - i,
{
    let t = s.subrange(p as int, s.len() as int);
    let k = (i - p) as nat;
    if i < s.len() {
        let c = s[i as int];
        assert(t[k as int] == c);
        if is_numeric_char(c) {
            lemma_run_end_suffix(s, p, i);
            lemma_run_end(t, k);
            assert(s.subrange(i as int, run_end(s, i) as int) =~= t.subrange(
                k as int,
                run_end(t, k) as int,
            ));
        } else if is_operator_char(c) {
            if i + 1 < s.len() {
                assert(t[k + 1 as int] == s[i + 1 as int]);
            }
        } else if is_whitespace_char(c) {
            lemma_lex_suffix(s, p, i + 1);
        }
    }
}

/// Lexing keeps no state beyond the cursor: a step taken at position `p` of
/// `s` gives what a step at the start of the rest of `s` gives, with the
/// cursor and any error position counted from `p`.  Since the step after a
/// token starts where that token ended, the whole remaining token sequence
/// is the same either way.
pub proof fn lemma_lex_resumes_from_cursor(s: Seq<char>, p: nat)
    requires
        p <= s.len(),
        s.len() <= usize::MAX,
    ensures
        lex_step(s, p) == shift_step(lex_step(s.subrange(p as int, s.len() as int), 0), p),
{
    lemma_lex_suffix(s, p, p);
}

} // verus!
