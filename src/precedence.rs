use vstd::prelude::*;

use crate::ir::{gen_ir, ir_from, ir_step, IRError, IrView};
use crate::lexer::{lookup, op_table, symbol, Associativity, OpKind, Operator, TokenView};
use crate::parser::{drain, number_value, pop_while, shunt, shunt_from, ExprView};

verus! {

pub open spec fn is_additive(k: OpKind) -> bool {
    k == OpKind::Add || k == OpKind::Sub
}

/// The operator table's definition of each kind.
pub open spec fn entry(k: OpKind) -> Operator {
    match k {
        OpKind::Add => Operator { kind: k, assoc: Associativity::Left, precedence: 1, n_args: 2 },
        OpKind::Sub => Operator { kind: k, assoc: Associativity::Left, precedence: 1, n_args: 2 },
        OpKind::Mul => Operator { kind: k, assoc: Associativity::Left, precedence: 2, n_args: 2 },
        OpKind::Div => Operator { kind: k, assoc: Associativity::Left, precedence: 2, n_args: 2 },
        OpKind::Assign => Operator {
            kind: k,
            assoc: Associativity::Right,
            precedence: 0,
            n_args: 2,
        },
    }
}

/// `entry` agrees with the operator table: looking up a kind's symbol, as
/// the lexer does, gives its entry.
pub proof fn lemma_entry_in_table(k: OpKind)
    ensures
        lookup(op_table(), symbol(k)) == Some(entry(k)),
{
    let t = op_table();
    let t1 = t.drop_first();
    let t2 = t1.drop_first();
    let t3 = t2.drop_first();
    let t4 = t3.drop_first();
    assert(t1[0] == t[1] && t2[0] == t[2] && t3[0] == t[3] && t4[0] == t[4]);
    assert(t4.drop_first().len() == 0);
    let s = symbol(k);
    if k != OpKind::Add {
        assert(symbol(t[0].kind)[0] != s[0]);
        if k != OpKind::Sub {
            assert(symbol(t1[0].kind)[0] != s[0]);
            if k != OpKind::Mul {
                assert(symbol(t2[0].kind)[0] != s[0]);
                if k != OpKind::Div {
                    assert(symbol(t3[0].kind)[0] != s[0]);
                }
            }
        }
    }
    reveal_with_fuel(lookup, 6);
}

/// The IR node applying an arithmetic operator kind to two operands.
pub open spec fn binary(k: OpKind, l: IrView, r: IrView) -> IrView {
    match k {
        OpKind::Add => IrView::Add(Box::new(l), Box::new(r)),
        OpKind::Sub => IrView::Sub(Box::new(l), Box::new(r)),
        OpKind::Mul => IrView::Mul(Box::new(l), Box::new(r)),
        OpKind::Div => IrView::Div(Box::new(l), Box::new(r)),
        OpKind::Assign => IrView::Store(Box::new(l), Box::new(r)),
    }
}

/// The index of the last additive operator of `ops`, or -1 if there is none.
pub open spec fn last_additive(ops: Seq<OpKind>) -> int
    decreases ops.len(),
{
    if ops.len() == 0 {
        -1
    } else if is_additive(ops.last()) {
        ops.len() - 1
    } else {
        last_additive(ops.drop_last())
    }
}

/// Where an infix chain splits under standard precedence: at its last
/// operator of the lowest tier that occurs.
pub open spec fn split_point(ops: Seq<OpKind>) -> int {
    if last_additive(ops) >= 0 {
        last_additive(ops)
    } else {
        ops.len() - 1
    }
}

/// The tree that standard precedence gives to
/// `leaves[0] ops[0] leaves[1] ... ops[n-1] leaves[n]`: `* /` bind tighter
/// than `+ -`, and each tier groups to the left.
pub open spec fn precedence_tree(leaves: Seq<IrView>, ops: Seq<OpKind>) -> IrView
    decreases ops.len(),
{
    let j = split_point(ops);
    if ops.len() == 0 || j < 0 || j >= ops.len() {
        leaves[0]
    } else {
        binary(
            ops[j],
            precedence_tree(leaves.subrange(0, j + 1), ops.subrange(0, j)),
            precedence_tree(
                leaves.subrange(j + 1, leaves.len() as int),
                ops.subrange(j + 1, ops.len() as int),
            ),
        )
    }
}

/// The token sequence `texts[0] ops[0] texts[1] ... ops[n-1] texts[n]`.
pub open spec fn infix_tokens(texts: Seq<Seq<char>>, ops: Seq<OpKind>) -> Seq<TokenView> {
    Seq::new(
        2 * ops.len() + 1,
        |i: int|
            if i % 2 == 0 {
                TokenView::LiteralNumeric(texts[i / 2])
            } else {
                TokenView::Operator(entry(ops[i / 2]))
            },
    )
}

/// The leaf an integer literal's text stands for.
pub open spec fn literal_leaf(t: Seq<char>) -> IrView {
    match number_value(t) {
        Some(ExprView::Integer(n)) => IrView::Integer(n),
        _ => IrView::Exit(0),
    }
}

pub open spec fn literal_leaves(texts: Seq<Seq<char>>) -> Seq<IrView> {
    texts.map_values(|t: Seq<char>| literal_leaf(t))
}

/// Integer literals joined by the four arithmetic operators.
pub open spec fn is_arithmetic_chain(texts: Seq<Seq<char>>, ops: Seq<OpKind>) -> bool {
    &&& texts.len() == ops.len() + 1
    &&& forall|i: int|
        0 <= i < texts.len() ==> (number_value(#[trigger] texts[i]) matches Some(ExprView::Integer(_)))
    &&& forall|i: int| 0 <= i < ops.len() ==> ops[i] != OpKind::Assign
}

/// The operator stack after a prefix of a chain with operators `o`.
pub open spec fn stack_of(o: Seq<OpKind>) -> Seq<Operator> {
    let j = last_additive(o);
    let n = o.len() as int;
    (if j >= 0 {
        seq![entry(o[j])]
    } else {
        Seq::empty()
    }) + (if n > j + 1 {
        seq![entry(o[n - 1])]
    } else {
        Seq::empty()
    })
}

/// The IR value stack of the postfix output after a prefix of a chain.
pub open spec fn values_of(l: Seq<IrView>, o: Seq<OpKind>) -> Seq<IrView> {
    let j = last_additive(o);
    let n = o.len() as int;
    (if j >= 0 {
        seq![precedence_tree(l.subrange(0, j + 1), o.subrange(0, j))]
    } else {
        Seq::empty()
    }) + (if n > j + 1 {
        seq![precedence_tree(l.subrange(j + 1, n), o.subrange(j + 1, n - 1)), l[n]]
    } else {
        seq![l[n]]
    })
}

proof fn lemma_last_additive(o: Seq<OpKind>)
    ensures
        -1 <= last_additive(o) < o.len(),
        last_additive(o) >= 0 ==> is_additive(o[last_additive(o)]),
        forall|i: int| last_additive(o) < i < o.len() ==> !is_additive(o[i]),
    decreases o.len(),
{
    if o.len() > 0 && !is_additive(o.last()) {
        lemma_last_additive(o.drop_last());
        assert forall|i: int| last_additive(o) < i < o.len() implies !is_additive(o[i]) by {
            if i < o.len() - 1 {
                assert(o.drop_last()[i] == o[i]);
            }
        }
    }
}

proof fn lemma_no_additive(o: Seq<OpKind>)
    requires
        forall|i: int| 0 <= i < o.len() ==> !is_additive(o[i]),
    ensures
        last_additive(o) == -1,
    decreases o.len(),
{
    if o.len() > 0 {
        lemma_no_additive(o.drop_last());
    }
}

proof fn lemma_ir_push(o: Seq<ExprView>, e: ExprView, k: nat, st: Seq<IrView>)
    requires
        k <= o.len(),
    ensures
        ir_from(o.push(e), k, st) == match ir_from(o, k, st) {
            Ok(s2) => ir_step(s2, e),
            Err(x) => Err(x),
        },
    decreases o.len() - k,
{
    if k < o.len() {
        assert(o.push(e)[k as int] == o[k as int]);
        match ir_step(st, o[k as int]) {
            Ok(s2) => lemma_ir_push(o, e, k + 1, s2),
            Err(_) => {},
        }
    } else {
        assert(o.push(e)[k as int] == e);
        match ir_step(st, e) {
            Ok(s2) => assert(ir_from(o.push(e), k + 1, s2) == Ok::<Seq<IrView>, crate::ir::IRError>(s2)),
            Err(_) => {},
        }
    }
}

proof fn lemma_gen_push(o: Seq<ExprView>, e: ExprView)
    ensures
        gen_ir(o.push(e)) == match gen_ir(o) {
            Ok(s2) => ir_step(s2, e),
            Err(x) => Err(x),
        },
{
    lemma_ir_push(o, e, 0, Seq::empty());
}

proof fn lemma_apply(st: Seq<IrView>, k: OpKind)
    requires
        st.len() >= 2,
        k != OpKind::Assign,
    ensures
        ir_step(st, ExprView::Operator(entry(k))) == Ok::<Seq<IrView>, crate::ir::IRError>(
            st.drop_last().drop_last().push(binary(k, st[st.len() - 2], st[st.len() - 1])),
        ),
{
}

/// Chains without operators are their only leaf.
proof fn lemma_single(l: Seq<IrView>, o: Seq<OpKind>)
    requires
        o.len() == 0,
    ensures
        precedence_tree(l, o) == l[0],
{
}

/// The whole chain is its sum part joined to its product part by the last
/// additive operator, or the product part alone when there is none.
proof fn lemma_whole(l: Seq<IrView>, o: Seq<OpKind>)
    requires
        l.len() == o.len() + 1,
    ensures
        ({
            let j = last_additive(o);
            let p = precedence_tree(
                l.subrange(j + 1, l.len() as int),
                o.subrange(j + 1, o.len() as int),
            );
            precedence_tree(l, o) == if j >= 0 {
                binary(o[j], precedence_tree(l.subrange(0, j + 1), o.subrange(0, j)), p)
            } else {
                p
            }
        }),
{
    lemma_last_additive(o);
    let j = last_additive(o);
    if j < 0 {
        assert(l.subrange(0, l.len() as int) =~= l);
        assert(o.subrange(0, o.len() as int) =~= o);
    }
}

/// A product part that holds an operator is its last operator applied to
/// the product before it and the last leaf.
proof fn lemma_product_split(l: Seq<IrView>, o: Seq<OpKind>)
    requires
        l.len() == o.len() + 1,
        o.len() > last_additive(o) + 1,
    ensures
        ({
            let j = last_additive(o);
            let n = o.len() as int;
            precedence_tree(l.subrange(j + 1, n + 1), o.subrange(j + 1, n)) == binary(
                o[n - 1],
                precedence_tree(l.subrange(j + 1, n), o.subrange(j + 1, n - 1)),
                l[n],
            )
        }),
{
    lemma_last_additive(o);
    let j = last_additive(o);
    let n = o.len() as int;
    let sl = l.subrange(j + 1, n + 1);
    let so = o.subrange(j + 1, n);
    lemma_no_additive(so);
    let m = so.len() - 1;
    assert(split_point(so) == m);
    assert(so[m] == o[n - 1]);
    assert(sl.subrange(0, m + 1) =~= l.subrange(j + 1, n));
    assert(so.subrange(0, m) =~= o.subrange(j + 1, n - 1));
    assert(sl.subrange(m + 1, sl.len() as int) =~= seq![l[n]]);
    assert(so.subrange(m + 1, so.len() as int) =~= Seq::<OpKind>::empty());
    lemma_single(seq![l[n]], Seq::<OpKind>::empty());
}

/// Emitting the pending product operator, if there is one, leaves the sum
/// operator (if any) on the stack and the product part on the value stack.
proof fn lemma_reduce_product(l: Seq<IrView>, o: Seq<OpKind>, out: Seq<ExprView>, e: Operator)
    requires
        l.len() == o.len() + 1,
        forall|i: int| 0 <= i < o.len() ==> o[i] != OpKind::Assign,
        gen_ir(out) == Ok::<Seq<IrView>, IRError>(values_of(l, o)),
        e.precedence <= 2,
        e.assoc == Associativity::Left,
    ensures
        ({
            let j = last_additive(o);
            let n = o.len() as int;
            let sum_ops: Seq<Operator> = if j >= 0 {
                seq![entry(o[j])]
            } else {
                Seq::empty()
            };
            let sum_part: Seq<IrView> = if j >= 0 {
                seq![precedence_tree(l.subrange(0, j + 1), o.subrange(0, j))]
            } else {
                Seq::empty()
            };
            let prod = precedence_tree(l.subrange(j + 1, n + 1), o.subrange(j + 1, n));
            let out1 = if n > j + 1 {
                out.push(ExprView::Operator(entry(o[n - 1])))
            } else {
                out
            };
            &&& pop_while(stack_of(o), out, e) == pop_while(sum_ops, out1, e)
            &&& drain(stack_of(o), out) == drain(sum_ops, out1)
            &&& gen_ir(out1) == Ok::<Seq<IrView>, IRError>(sum_part.push(prod))
        }),
{
    lemma_last_additive(o);
    let j = last_additive(o);
    let n = o.len() as int;
    let sum_ops: Seq<Operator> = if j >= 0 {
        seq![entry(o[j])]
    } else {
        Seq::empty()
    };
    let sum_part: Seq<IrView> = if j >= 0 {
        seq![precedence_tree(l.subrange(0, j + 1), o.subrange(0, j))]
    } else {
        Seq::empty()
    };
    if n > j + 1 {
        let top = entry(o[n - 1]);
        assert(!is_additive(o[n - 1]));
        assert(stack_of(o) =~= sum_ops.push(top));
        assert(stack_of(o).drop_last() =~= sum_ops);
        let pp = precedence_tree(l.subrange(j + 1, n), o.subrange(j + 1, n - 1));
        assert(values_of(l, o) =~= sum_part + seq![pp, l[n]]);
        lemma_product_split(l, o);
        lemma_gen_push(out, ExprView::Operator(top));
        lemma_apply(values_of(l, o), o[n - 1]);
        assert(values_of(l, o).drop_last().drop_last() =~= sum_part);
    } else {
        assert(stack_of(o) =~= sum_ops);
        assert(values_of(l, o) =~= sum_part.push(l[n]));
        assert(l.subrange(j + 1, n + 1) =~= seq![l[n]]);
        assert(o.subrange(j + 1, n) =~= Seq::<OpKind>::empty());
        lemma_single(seq![l[n]], Seq::<OpKind>::empty());
    }
}

/// Emitting the sum operator as well leaves the whole chain as the only value.
proof fn lemma_reduce_all(l: Seq<IrView>, o: Seq<OpKind>, out: Seq<ExprView>, e: Operator)
    requires
        l.len() == o.len() + 1,
        forall|i: int| 0 <= i < o.len() ==> o[i] != OpKind::Assign,
        gen_ir(out) == Ok::<Seq<IrView>, IRError>(values_of(l, o)),
        e.precedence == 1,
        e.assoc == Associativity::Left,
    ensures
        ({
            let (s2, o2) = pop_while(stack_of(o), out, e);
            &&& s2.len() == 0
            &&& gen_ir(o2) == Ok::<Seq<IrView>, IRError>(seq![precedence_tree(l, o)])
            &&& gen_ir(drain(stack_of(o), out)) == Ok::<Seq<IrView>, IRError>(
                seq![precedence_tree(l, o)],
            )
        }),
{
    lemma_reduce_product(l, o, out, e);
    lemma_last_additive(o);
    lemma_whole(l, o);
    let j = last_additive(o);
    let n = o.len() as int;
    let prod = precedence_tree(l.subrange(j + 1, n + 1), o.subrange(j + 1, n));
    let out1 = if n > j + 1 {
        out.push(ExprView::Operator(entry(o[n - 1])))
    } else {
        out
    };
    assert(l.len() as int == n + 1);
    if j >= 0 {
        let sum = precedence_tree(l.subrange(0, j + 1), o.subrange(0, j));
        let add = entry(o[j]);
        let out2 = out1.push(ExprView::Operator(add));
        assert(seq![add].drop_last() =~= Seq::<Operator>::empty());
        assert(pop_while(seq![add], out1, e) == pop_while(Seq::<Operator>::empty(), out2, e));
        assert(drain(seq![add], out1) == drain(Seq::<Operator>::empty(), out2));
        lemma_gen_push(out1, ExprView::Operator(add));
        lemma_apply(seq![sum, prod], o[j]);
        assert(seq![sum, prod].drop_last().drop_last() =~= Seq::<IrView>::empty());
        assert(seq![sum].push(prod) =~= seq![sum, prod]);
        assert(Seq::<IrView>::empty().push(binary(o[j], sum, prod)) =~= seq![binary(o[j], sum, prod)]);
    } else {
        assert(Seq::<IrView>::empty().push(prod) =~= seq![prod]);
    }
}

/// Reading `op` and then an integer literal moves from the state of chain
/// `l`, `o` to that of the chain extended by both.
proof fn lemma_operator_step(
    l: Seq<IrView>,
    o: Seq<OpKind>,
    op: OpKind,
    out: Seq<ExprView>,
    v: i32,
)
    requires
        l.len() == o.len() + 1,
        forall|i: int| 0 <= i < o.len() ==> o[i] != OpKind::Assign,
        op != OpKind::Assign,
        gen_ir(out) == Ok::<Seq<IrView>, IRError>(values_of(l, o)),
    ensures
        ({
            let (s2, o2) = pop_while(stack_of(o), out, entry(op));
            &&& s2.push(entry(op)) == stack_of(o.push(op))
            &&& gen_ir(o2.push(ExprView::Integer(v))) == Ok::<Seq<IrView>, IRError>(
                values_of(l.push(IrView::Integer(v)), o.push(op)),
            )
        }),
{
    lemma_last_additive(o);
    let j = last_additive(o);
    let n = o.len() as int;
    let e = entry(op);
    let l2 = l.push(IrView::Integer(v));
    let o2 = o.push(op);
    assert(o2.drop_last() =~= o);
    assert(o2[n] == op);
    let (s2, out2) = pop_while(stack_of(o), out, e);
    if is_additive(op) {
        lemma_reduce_all(l, o, out, e);
        assert(last_additive(o2) == n);
        assert(stack_of(o2) =~= seq![e]);
        assert(s2 =~= Seq::<Operator>::empty());
        assert(l2.subrange(0, n + 1) =~= l);
        assert(o2.subrange(0, n) =~= o);
        assert(values_of(l2, o2) =~= seq![precedence_tree(l, o), IrView::Integer(v)]);
        lemma_gen_push(out2, ExprView::Integer(v));
        assert(seq![precedence_tree(l, o)].push(IrView::Integer(v)) =~= values_of(l2, o2));
        assert(s2.push(e) =~= stack_of(o2));
        assert(gen_ir(out2.push(ExprView::Integer(v))) == Ok::<Seq<IrView>, IRError>(
            values_of(l2, o2),
        ));
    } else {
        lemma_reduce_product(l, o, out, e);
        assert(last_additive(o2) == j);
        let sum_ops: Seq<Operator> = if j >= 0 {
            seq![entry(o[j])]
        } else {
            Seq::empty()
        };
        let sum_part: Seq<IrView> = if j >= 0 {
            seq![precedence_tree(l.subrange(0, j + 1), o.subrange(0, j))]
        } else {
            Seq::empty()
        };
        let prod = precedence_tree(l.subrange(j + 1, n + 1), o.subrange(j + 1, n));
        let out1 = if n > j + 1 {
            out.push(ExprView::Operator(entry(o[n - 1])))
        } else {
            out
        };
        if j >= 0 {
            assert(seq![entry(o[j])].drop_last() =~= Seq::<Operator>::empty());
        }
        assert(pop_while(sum_ops, out1, e) == (sum_ops, out1));
        assert(stack_of(o2) =~= sum_ops.push(e));
        if j >= 0 {
            assert(l2.subrange(0, j + 1) =~= l.subrange(0, j + 1));
            assert(o2.subrange(0, j) =~= o.subrange(0, j));
            assert(o2[j] == o[j]);
        }
        assert(l2.subrange(j + 1, n + 1) =~= l.subrange(j + 1, n + 1));
        assert(o2.subrange(j + 1, n) =~= o.subrange(j + 1, n));
        assert(values_of(l2, o2) =~= sum_part.push(prod).push(IrView::Integer(v)));
        lemma_gen_push(out1, ExprView::Integer(v));
        assert(s2 == sum_ops);
        assert(out2 == out1);
        assert(s2.push(e) =~= stack_of(o2));
        assert(gen_ir(out2.push(ExprView::Integer(v))) == Ok::<Seq<IrView>, IRError>(
            values_of(l2, o2),
        ));
    }
}

/// The value an integer literal's text denotes.
pub open spec fn literal_value(t: Seq<char>) -> i32 {
    match number_value(t) {
        Some(ExprView::Integer(n)) => n,
        _ => 0,
    }
}

/// After the first `k` operators and `k + 1` literals of a chain, the
/// shunting-yard state is that of the chain's prefix.
proof fn lemma_prefix(texts: Seq<Seq<char>>, ops: Seq<OpKind>, k: nat)
    requires
        is_arithmetic_chain(texts, ops),
        k <= ops.len(),
    ensures
        exists|out: Seq<ExprView>|
            {
                &&& shunt(infix_tokens(texts, ops)) == shunt_from(
                    infix_tokens(texts, ops),
                    2 * k + 1,
                    stack_of(ops.subrange(0, k as int)),
                    out,
                )
                &&& gen_ir(out) == Ok::<Seq<IrView>, IRError>(
                    values_of(
                        literal_leaves(texts).subrange(0, k + 1 as int),
                        ops.subrange(0, k as int),
                    ),
                )
            },
    decreases k,
{
    let toks = infix_tokens(texts, ops);
    let leaves = literal_leaves(texts);
    assert(number_value(texts[k as int]) matches Some(ExprView::Integer(_)));
    let x = literal_value(texts[k as int]);
    assert(leaves[k as int] == IrView::Integer(x));
    assert(toks[2 * k as int] == TokenView::LiteralNumeric(texts[k as int]));
    if k == 0 {
        let out = seq![ExprView::Integer(x)];
        assert(Seq::<ExprView>::empty().push(ExprView::Integer(x)) =~= out);
        lemma_gen_push(Seq::<ExprView>::empty(), ExprView::Integer(x));
        assert(gen_ir(Seq::<ExprView>::empty()) == Ok::<Seq<IrView>, IRError>(Seq::empty()));
        assert(ops.subrange(0, 0) =~= Seq::<OpKind>::empty());
        assert(stack_of(Seq::<OpKind>::empty()) =~= Seq::<Operator>::empty());
        assert(values_of(leaves.subrange(0, 1), Seq::<OpKind>::empty()) =~= seq![
            IrView::Integer(x),
        ]);
        assert(Seq::<IrView>::empty().push(IrView::Integer(x)) =~= seq![IrView::Integer(x)]);
    } else {
        let km = (k - 1) as nat;
        lemma_prefix(texts, ops, km);
        let l = leaves.subrange(0, k as int);
        let o = ops.subrange(0, km as int);
        let out = choose|out: Seq<ExprView>|
            {
                &&& shunt(toks) == shunt_from(toks, 2 * km + 1, stack_of(o), out)
                &&& gen_ir(out) == Ok::<Seq<IrView>, IRError>(values_of(l, o))
            };
        let op = ops[km as int];
        assert(toks[2 * km + 1 as int] == TokenView::Operator(entry(op)));
        assert(forall|i: int| 0 <= i < o.len() ==> o[i] == ops[i]);
        lemma_operator_step(l, o, op, out, x);
        let (s2, o2) = pop_while(stack_of(o), out, entry(op));
        assert(o.push(op) =~= ops.subrange(0, k as int));
        assert(l.push(IrView::Integer(x)) =~= leaves.subrange(0, k + 1 as int));
        assert(toks[2 * km + 2 as int] == TokenView::LiteralNumeric(texts[k as int]));
        assert(number_value(texts[k as int]) == Some(ExprView::Integer(x)));
        assert(shunt_from(toks, 2 * km + 1, stack_of(o), out) == shunt_from(
            toks,
            2 * km + 2,
            s2.push(entry(op)),
            o2,
        ));
        assert(shunt_from(toks, 2 * km + 2, s2.push(entry(op)), o2) == shunt_from(
            toks,
            2 * k + 1,
            s2.push(entry(op)),
            o2.push(ExprView::Integer(x)),
        ));
        assert(shunt(toks) == shunt_from(
            toks,
            2 * k + 1,
            stack_of(ops.subrange(0, k as int)),
            o2.push(ExprView::Integer(x)),
        ));
    }
}

/// The front end respects standard precedence: for integer literals joined
/// by `+ - * /`, parsing to postfix and generating IR succeeds, and leaves
/// exactly the tree that standard precedence gives the infix expression
/// (`* /` above `+ -`, each tier grouping to the left), followed by the
/// `Exit(0)` node. Evaluating the IR is therefore evaluating the infix
/// expression under standard precedence.
pub proof fn lemma_pipeline_respects_precedence(texts: Seq<Seq<char>>, ops: Seq<OpKind>)
    requires
        is_arithmetic_chain(texts, ops),
    ensures
        shunt(infix_tokens(texts, ops)) matches Ok(postfix) && gen_ir(postfix) == Ok::<
            Seq<IrView>,
            IRError,
        >(seq![precedence_tree(literal_leaves(texts), ops), IrView::Exit(0)]),
{
    let n = ops.len();
    let toks = infix_tokens(texts, ops);
    lemma_prefix(texts, ops, n);
    let leaves = literal_leaves(texts);
    assert(leaves.subrange(0, n + 1 as int) =~= leaves);
    assert(ops.subrange(0, n as int) =~= ops);
    let out = choose|out: Seq<ExprView>|
        {
            &&& shunt(toks) == shunt_from(toks, 2 * n + 1, stack_of(ops), out)
            &&& gen_ir(out) == Ok::<Seq<IrView>, IRError>(values_of(leaves, ops))
        };
    let e = Operator { kind: OpKind::Add, assoc: Associativity::Left, precedence: 1, n_args: 2 };
    lemma_reduce_all(leaves, ops, out, e);
    let d = drain(stack_of(ops), out);
    lemma_gen_push(d, ExprView::End);
    assert(seq![precedence_tree(leaves, ops)].push(IrView::Exit(0)) =~= seq![
        precedence_tree(leaves, ops),
        IrView::Exit(0),
    ]);
}

/// An arithmetic operator applied to two integers.
pub open spec fn apply(k: OpKind, a: int, b: int) -> int {
    match k {
        OpKind::Add => a + b,
        OpKind::Sub => a - b,
        OpKind::Mul => a * b,
        OpKind::Div => a / b,
        OpKind::Assign => b,
    }
}

/// The value of an arithmetic IR tree.
pub open spec fn eval_ir(t: IrView) -> int
    decreases t,
{
    match t {
        IrView::Integer(n) => n as int,
        IrView::Add(l, r) => eval_ir(*l) + eval_ir(*r),
        IrView::Sub(l, r) => eval_ir(*l) - eval_ir(*r),
        IrView::Mul(l, r) => eval_ir(*l) * eval_ir(*r),
        IrView::Div(l, r) => eval_ir(*l) / eval_ir(*r),
        _ => 0,
    }
}

/// The value of `vals[0] ops[0] vals[1] ... ops[n-1] vals[n]` under
/// standard precedence: `* /` bind tighter than `+ -`, and each tier
/// groups to the left.
pub open spec fn eval_infix(vals: Seq<int>, ops: Seq<OpKind>) -> int
    decreases ops.len(),
{
    let j = split_point(ops);
    if ops.len() == 0 || j < 0 || j >= ops.len() {
        vals[0]
    } else {
        apply(
            ops[j],
            eval_infix(vals.subrange(0, j + 1), ops.subrange(0, j)),
            eval_infix(
                vals.subrange(j + 1, vals.len() as int),
                ops.subrange(j + 1, ops.len() as int),
            ),
        )
    }
}

proof fn lemma_eval_tree(l: Seq<IrView>, vals: Seq<int>, ops: Seq<OpKind>)
    requires
        l.len() == vals.len(),
        vals.len() == ops.len() + 1,
        forall|i: int| 0 <= i < l.len() ==> eval_ir(#[trigger] l[i]) == vals[i],
        forall|i: int| 0 <= i < ops.len() ==> ops[i] != OpKind::Assign,
    ensures
        eval_ir(precedence_tree(l, ops)) == eval_infix(vals, ops),
    decreases ops.len(),
{
    let j = split_point(ops);
    if !(ops.len() == 0 || j < 0 || j >= ops.len()) {
        let l1 = l.subrange(0, j + 1);
        let v1 = vals.subrange(0, j + 1);
        let l2 = l.subrange(j + 1, l.len() as int);
        let v2 = vals.subrange(j + 1, vals.len() as int);
        assert forall|i: int| 0 <= i < l1.len() implies eval_ir(#[trigger] l1[i]) == v1[i] by {
            assert(l1[i] == l[i]);
        }
        assert forall|i: int| 0 <= i < l2.len() implies eval_ir(#[trigger] l2[i]) == v2[i] by {
            assert(l2[i] == l[i + j + 1]);
        }
        lemma_eval_tree(l1, v1, ops.subrange(0, j));
        lemma_eval_tree(l2, v2, ops.subrange(j + 1, ops.len() as int));
    }
}

/// The values of a chain's literals.
pub open spec fn literal_values(texts: Seq<Seq<char>>) -> Seq<int> {
    texts.map_values(|t: Seq<char>| literal_value(t) as int)
}

/// Evaluating the IR that the front end builds for integer literals joined
/// by `+ - * /` gives the value of the infix expression under standard
/// precedence.
pub proof fn lemma_evaluation_round_trip(texts: Seq<Seq<char>>, ops: Seq<OpKind>)
    requires
        is_arithmetic_chain(texts, ops),
    ensures
        shunt(infix_tokens(texts, ops)) matches Ok(postfix) && gen_ir(postfix) matches Ok(
            nodes,
        ) && nodes.len() == 2 && eval_ir(nodes[0]) == eval_infix(literal_values(texts), ops),
{
    lemma_pipeline_respects_precedence(texts, ops);
    let l = literal_leaves(texts);
    let vals = literal_values(texts);
    assert forall|i: int| 0 <= i < l.len() implies eval_ir(#[trigger] l[i]) == vals[i] by {
        assert(number_value(texts[i]) matches Some(ExprView::Integer(_)));
    }
    lemma_eval_tree(l, vals, ops);
}

} // verus!
