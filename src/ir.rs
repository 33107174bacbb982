use vstd::prelude::*;

use crate::lexer::OpKind;
use crate::parser::{exprs_view, parse_source, Expr, ExprView, ParseError, Parser};

verus! {

/// A node of the intermediate representation. Each operator node owns its
/// operands.
#[derive(Debug, PartialEq)]
pub enum IrExpr {
    Identifier(String),
    /// A floating-point literal, kept as its text.
    Float(String),
    Integer(i32),
    Exit(usize),
    Add(Box<IrExpr>, Box<IrExpr>),
    Sub(Box<IrExpr>, Box<IrExpr>),
    Mul(Box<IrExpr>, Box<IrExpr>),
    Div(Box<IrExpr>, Box<IrExpr>),
    /// Assignment of the second operand to the identifier in the first.
    Store(Box<IrExpr>, Box<IrExpr>),
}

/// An IR node with its text as character sequences.
pub enum IrView {
    Identifier(Seq<char>),
    Float(Seq<char>),
    Integer(i32),
    Exit(usize),
    Add(Box<IrView>, Box<IrView>),
    Sub(Box<IrView>, Box<IrView>),
    Mul(Box<IrView>, Box<IrView>),
    Div(Box<IrView>, Box<IrView>),
    Store(Box<IrView>, Box<IrView>),
}

pub open spec fn ir_view(e: IrExpr) -> IrView
    decreases e,
{
    match e {
        IrExpr::Identifier(s) => IrView::Identifier(s@),
        IrExpr::Float(s) => IrView::Float(s@),
        IrExpr::Integer(n) => IrView::Integer(n),
        IrExpr::Exit(c) => IrView::Exit(c),
        IrExpr::Add(l, r) => IrView::Add(Box::new(ir_view(*l)), Box::new(ir_view(*r))),
        IrExpr::Sub(l, r) => IrView::Sub(Box::new(ir_view(*l)), Box::new(ir_view(*r))),
        IrExpr::Mul(l, r) => IrView::Mul(Box::new(ir_view(*l)), Box::new(ir_view(*r))),
        IrExpr::Div(l, r) => IrView::Div(Box::new(ir_view(*l)), Box::new(ir_view(*r))),
        IrExpr::Store(l, r) => IrView::Store(Box::new(ir_view(*l)), Box::new(ir_view(*r))),
    }
}

pub open spec fn nodes_view(v: Seq<IrExpr>) -> Seq<IrView> {
    v.map_values(|e: IrExpr| ir_view(e))
}

/// Failure to build the IR from a postfix sequence.
#[derive(Clone, Copy, Debug, PartialEq, Eq, Structural)]
pub enum IRError {
    /// An operator found fewer operands than it needs.
    StackUnderflow,
    /// The left operand of an assignment is not an identifier.
    InvalidAssignmentTarget,
}

/// One step of IR generation: the value stack after handling `e`.
/// An operator pops its right operand first, then its left one.
pub open spec fn ir_step(stack: Seq<IrView>, e: ExprView) -> Result<Seq<IrView>, IRError> {
    match e {
        ExprView::Integer(n) => Ok(stack.push(IrView::Integer(n))),
        ExprView::Float(t) => Ok(stack.push(IrView::Float(t))),
        ExprView::Identifier(t) => Ok(stack.push(IrView::Identifier(t))),
        ExprView::End => Ok(stack.push(IrView::Exit(0))),
        ExprView::Operator(op) => if stack.len() < 2 {
            Err(IRError::StackUnderflow)
        } else {
            let right = Box::new(stack.last());
            let left = Box::new(stack.drop_last().last());
            let rest = stack.drop_last().drop_last();
            match op.kind {
                OpKind::Add => Ok(rest.push(IrView::Add(left, right))),
                OpKind::Sub => Ok(rest.push(IrView::Sub(left, right))),
                OpKind::Mul => Ok(rest.push(IrView::Mul(left, right))),
                OpKind::Div => Ok(rest.push(IrView::Div(left, right))),
                OpKind::Assign => if *left is Identifier {
                    Ok(rest.push(IrView::Store(left, right)))
                } else {
                    Err(IRError::InvalidAssignmentTarget)
                },
            }
        },
    }
}

/// IR generation over `exprs` from position `k` with the given value stack.
pub open spec fn ir_from(exprs: Seq<ExprView>, k: nat, stack: Seq<IrView>) -> Result<
    Seq<IrView>,
    IRError,
>
    decreases exprs.len() - k,
{
    if k >= exprs.len() {
        Ok(stack)
    } else {
        match ir_step(stack, exprs[k as int]) {
            Ok(s2) => ir_from(exprs, k + 1, s2),
            Err(e) => Err(e),
        }
    }
}

/// The value stack left after generating IR for a whole postfix sequence.
pub open spec fn gen_ir(exprs: Seq<ExprView>) -> Result<Seq<IrView>, IRError> {
    ir_from(exprs, 0, Seq::empty())
}

pub open spec fn nodes_result_view(r: Result<Vec<IrExpr>, IRError>) -> Result<
    Seq<IrView>,
    IRError,
> {
    match r {
        Ok(v) => Ok(nodes_view(v@)),
        Err(e) => Err(e),
    }
}

/// Builds the IR for a postfix sequence: the value stack left at its end.
/// A single well-formed expression followed by `End` leaves its root and
/// an `Exit(0)` node.
pub fn generate(exprs: &Vec<Expr>) -> (r: Result<Vec<IrExpr>, IRError>)
    ensures
        nodes_result_view(r) == gen_ir(exprs_view(exprs@)),
{
    let ghost ev = exprs_view(exprs@);
    let mut stack: Vec<IrExpr> = Vec::new();
    let mut k: usize = 0;
    assert(nodes_view(stack@) =~= Seq::empty());
    while k < exprs.len()
        invariant
            ev == exprs_view(exprs@),
            ev.len() == exprs@.len(),
            k <= exprs@.len(),
            gen_ir(ev) == ir_from(ev, k as nat, nodes_view(stack@)),
        decreases exprs@.len() - k,
    {
        assert(ev[k as int] == exprs@[k as int]@);
        let ghost before = nodes_view(stack@);
        let node = match &exprs[k] {
            Expr::Integer(n) => IrExpr::Integer(*n),
            Expr::Float(t) => IrExpr::Float(t.clone()),
            Expr::Identifier(t) => IrExpr::Identifier(t.clone()),
            Expr::End => IrExpr::Exit(0),
            Expr::Operator(op) => {
                if stack.len() < 2 {
                    return Err(IRError::StackUnderflow);
                }
                let right = stack.pop().unwrap();
                let left = stack.pop().unwrap();
                assert(nodes_view(stack@) =~= before.drop_last().drop_last());
                match op.kind {
                    OpKind::Add => IrExpr::Add(Box::new(left), Box::new(right)),
                    OpKind::Sub => IrExpr::Sub(Box::new(left), Box::new(right)),
                    OpKind::Mul => IrExpr::Mul(Box::new(left), Box::new(right)),
                    OpKind::Div => IrExpr::Div(Box::new(left), Box::new(right)),
                    OpKind::Assign => {
                        if !matches!(left, IrExpr::Identifier(_)) {
                            return Err(IRError::InvalidAssignmentTarget);
                        }
                        IrExpr::Store(Box::new(left), Box::new(right))
                    },
                }
            },
        };
        let ghost mid = stack@;
        stack.push(node);
        assert(nodes_view(stack@) =~= nodes_view(mid).push(ir_view(node)));
        k = k + 1;
    }
    Ok(stack)
}

/// Builds the IR for a postfix sequence handed over by the parser.
pub struct IRGen {
    stream: Vec<Expr>,
    output: Vec<IrExpr>,
}

impl IRGen {
    /// The postfix sequence not yet consumed.
    pub closed spec fn pending(&self) -> Seq<ExprView> {
        exprs_view(self.stream@)
    }

    /// The IR nodes built so far.
    pub closed spec fn nodes(&self) -> Seq<IrView> {
        nodes_view(self.output@)
    }

    /// A generator that will consume `stream`.
    pub fn new(stream: Vec<Expr>) -> (r: Self)
        ensures
            r.pending() == exprs_view(stream@),
            r.nodes().len() == 0,
    {
        let g = IRGen { stream, output: Vec::new() };
        assert(g.nodes() =~= Seq::empty());
        g
    }

    /// Consumes the pending postfix sequence. On success the nodes are the
    /// value stack it leaves; on failure there are none.
    pub fn gen(&mut self) -> (r: Result<(), IRError>)
        ensures
            final(self).pending().len() == 0,
            match gen_ir(old(self).pending()) {
                Ok(ns) => r is Ok && final(self).nodes() == ns,
                Err(e) => r == Err::<(), IRError>(e) && final(self).nodes().len() == 0,
            },
    {
        let result = generate(&self.stream);
        self.stream = Vec::new();
        assert(exprs_view(self.stream@) =~= Seq::empty());
        match result {
            Ok(nodes) => {
                self.output = nodes;
                Ok(())
            },
            Err(e) => {
                self.output = Vec::new();
                assert(nodes_view(self.output@) =~= Seq::empty());
                Err(e)
            },
        }
    }

    /// The IR nodes built so far.
    pub fn output(&self) -> (r: &Vec<IrExpr>)
        ensures
            nodes_view(r@) == self.nodes(),
    {
        &self.output
    }
}

/// Failure of any stage of compilation.
#[derive(Clone, Copy, Debug, PartialEq, Eq, Structural)]
pub enum CompileError {
    Parse(ParseError),
    Ir(IRError),
}

/// What compiling `s` gives: the IR nodes, or the first stage's error.
pub open spec fn compile_source(s: Seq<char>) -> Result<Seq<IrView>, CompileError> {
    match parse_source(s, 0) {
        Err(e) => Err(CompileError::Parse(e)),
        Ok(postfix) => match gen_ir(postfix) {
            Ok(nodes) => Ok(nodes),
            Err(e) => Err(CompileError::Ir(e)),
        },
    }
}

/// Runs the whole front end on a source text: lexing, parsing to postfix
/// and IR generation.
pub fn compile(source: Vec<char>) -> (r: Result<Vec<IrExpr>, CompileError>)
    ensures
        match r {
            Ok(v) => compile_source(source@) == Ok::<Seq<IrView>, CompileError>(nodes_view(v@)),
            Err(e) => compile_source(source@) == Err::<Seq<IrView>, CompileError>(e),
        },
{
    let mut parser = Parser::new(source);
    match parser.parse() {
        Err(e) => Err(CompileError::Parse(e)),
        Ok(()) => match generate(parser.output()) {
            Ok(nodes) => Ok(nodes),
            Err(e) => Err(CompileError::Ir(e)),
        },
    }
}

} // verus!
