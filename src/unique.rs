use vstd::prelude::*;

use crate::compiler::{is_run_command, lemma_code_len, lemma_render_run, run_node};
use crate::executor::{current, run_loop, run_op, run_seq, InputSource, Tape};
use crate::laws::{lemma_render_last, lemma_render_op_last};
use crate::operation::{
    balanced, code_of, compiles_to, folded, folded_op, is_command, nesting, render, render_op,
    repeat, same_run, underflows,
    Operation,
};

verus! {

broadcast use vstd::std_specs::vec::axiom_vec_decreases_to_view, vstd::seq::axiom_seq_subrange_decreases,
    vstd::seq::axiom_seq_index_decreases;

/// Bracket depth adds up over concatenation.
pub proof fn lemma_nesting_concat(a: Seq<char>, b: Seq<char>)
    ensures
        nesting(a + b) == nesting(a) + nesting(b),
    decreases b.len(),
{
    if b.len() == 0 {
        assert(a + b =~= a);
    } else {
        assert((a + b).drop_last() =~= a + b.drop_last());
        assert((a + b).last() == b.last());
        lemma_nesting_concat(a, b.drop_last());
    }
}

proof fn lemma_balanced_concat(p: Seq<char>, q: Seq<char>)
    requires
        balanced(p),
        balanced(q),
    ensures
        balanced(p + q),
{
    lemma_nesting_concat(p, q);
    assert forall|i: int| 0 <= i <= (p + q).len() implies nesting(#[trigger] (p + q).take(i))
        >= 0 by {
        if i <= p.len() {
            assert((p + q).take(i) =~= p.take(i));
            assert(!underflows(p));
        } else {
            assert((p + q).take(i) =~= p + q.take(i - p.len()));
            lemma_nesting_concat(p, q.take(i - p.len()));
            assert(!underflows(q));
            assert(nesting(q.take(i - p.len())) >= 0);
        }
    }
}

proof fn lemma_no_brackets(c: char, n: nat)
    requires
        c != '[',
        c != ']',
    ensures
        balanced(repeat(c, n)),
    decreases n,
{
    let s = repeat(c, n);
    assert forall|i: int| 0 <= i <= s.len() implies nesting(#[trigger] s.take(i)) == 0 by {
        lemma_flat(c, s.take(i));
    }
    assert(s.take(s.len() as int) =~= s);
}

proof fn lemma_flat(c: char, s: Seq<char>)
    requires
        c != '[',
        c != ']',
        forall|j: int| 0 <= j < s.len() ==> s[j] == c,
    ensures
        nesting(s) == 0,
    decreases s.len(),
{
    if s.len() > 0 {
        lemma_flat(c, s.drop_last());
    }
}

proof fn lemma_wrap_balanced(x: Seq<char>)
    requires
        balanced(x),
    ensures
        balanced(seq!['['] + x + seq![']']),
{
    let w = seq!['['] + x + seq![']'];
    assert(nesting(seq!['[']) == 1) by {
        assert(seq!['['].drop_last() =~= Seq::<char>::empty());
        assert(nesting(Seq::<char>::empty()) == 0);
        assert(seq!['['].last() == '[');
    }
    assert(nesting(seq![']']) == -1) by {
        assert(seq![']'].drop_last() =~= Seq::<char>::empty());
        assert(nesting(Seq::<char>::empty()) == 0);
        assert(seq![']'].last() == ']');
    }
    lemma_nesting_concat(seq!['['], x);
    lemma_nesting_concat(seq!['['] + x, seq![']']);
    assert forall|i: int| 0 <= i <= w.len() implies nesting(#[trigger] w.take(i)) >= 0 by {
        if i == 0 {
            assert(w.take(i) =~= Seq::<char>::empty());
        } else if i <= x.len() + 1 {
            assert(w.take(i) =~= seq!['['] + x.take(i - 1));
            lemma_nesting_concat(seq!['['], x.take(i - 1));
            assert(!underflows(x));
            assert(nesting(x.take(i - 1)) >= 0);
        } else {
            assert(w.take(i) =~= w);
        }
    }
}

/// The text of any well-formed node has balanced brackets.
pub proof fn lemma_render_op_balanced(op: Operation)
    requires
        folded_op(op),
    ensures
        balanced(render_op(op)),
    decreases op,
{
    match op {
        Operation::MoveRight(n) => lemma_no_brackets('>', n as nat),
        Operation::MoveLeft(n) => lemma_no_brackets('<', n as nat),
        Operation::Increment(n) => lemma_no_brackets('+', n as nat),
        Operation::Decrement(n) => lemma_no_brackets('-', n as nat),
        Operation::Output => {
            lemma_no_brackets('.', 1);
            assert(repeat('.', 1) =~= seq!['.']);
        },
        Operation::Input => {
            lemma_no_brackets(',', 1);
            assert(repeat(',', 1) =~= seq![',']);
        },
        Operation::Loop(body) => {
            lemma_render_balanced(body@);
            lemma_wrap_balanced(render(body@));
        },
    }
}

/// The text of any folded sequence has balanced brackets.
pub proof fn lemma_render_balanced(ops: Seq<Operation>)
    requires
        folded(ops),
    ensures
        balanced(render(ops)),
    decreases ops,
{
    if ops.len() == 0 {
        assert(Seq::<char>::empty().take(0) =~= Seq::<char>::empty());
    } else {
        lemma_render_balanced(ops.drop_last());
        lemma_render_op_balanced(ops.last());
        lemma_balanced_concat(render(ops.drop_last()), render_op(ops.last()));
    }
}

/// Two nodes are alike: equal, or loops whose bodies are alike node by node.
pub open spec fn same_op(a: Operation, b: Operation) -> bool
    decreases a,
{
    match a {
        Operation::Loop(x) => match b {
            Operation::Loop(y) => same_ops(x@, y@),
            _ => false,
        },
        _ => a == b,
    }
}

/// Two sequences are alike node by node.
pub open spec fn same_ops(a: Seq<Operation>, b: Seq<Operation>) -> bool
    decreases a,
{
    a.len() == b.len() && forall|i: int| 0 <= i < a.len() ==> same_op(#[trigger] a[i], b[i])
}

proof fn lemma_same_op_run(a: Operation, b: Operation, t: Tape, input: InputSource, fuel: nat)
    requires
        same_op(a, b),
    ensures
        run_op(a, t, input, fuel) == run_op(b, t, input, fuel),
    decreases fuel, a,
{
    match a {
        Operation::Loop(x) => {
            let y = b->Loop_0;
            lemma_same_loop_run(x@, y@, t, input, fuel);
        },
        _ => {},
    }
}

proof fn lemma_same_seq_run(
    a: Seq<Operation>,
    b: Seq<Operation>,
    t: Tape,
    input: InputSource,
    fuel: nat,
)
    requires
        same_ops(a, b),
    ensures
        run_seq(a, t, input, fuel) == run_seq(b, t, input, fuel),
    decreases fuel, a,
{
    if a.len() > 0 {
        lemma_same_op_run(a[0], b[0], t, input, fuel);
        match run_op(a[0], t, input, fuel) {
            Ok(t1) => {
                assert(same_ops(a.drop_first(), b.drop_first())) by {
                    assert forall|i: int| 0 <= i < a.drop_first().len() implies same_op(
                        #[trigger] a.drop_first()[i],
                        b.drop_first()[i],
                    ) by {
                        assert(same_op(a[i + 1], b[i + 1]));
                    }
                }
                lemma_same_seq_run(a.drop_first(), b.drop_first(), t1, input, fuel);
            },
            Err(_) => {},
        }
    }
}

proof fn lemma_same_loop_run(
    x: Seq<Operation>,
    y: Seq<Operation>,
    t: Tape,
    input: InputSource,
    fuel: nat,
)
    requires
        same_ops(x, y),
    ensures
        run_loop(x, t, input, fuel) == run_loop(y, t, input, fuel),
    decreases fuel, x,
{
    if current(t) != 0 && fuel > 0 {
        lemma_same_seq_run(x, y, t, input, (fuel - 1) as nat);
        match run_seq(x, t, input, (fuel - 1) as nat) {
            Ok(t1) => lemma_same_loop_run(x, y, t1, input, (fuel - 1) as nat),
            Err(_) => {},
        }
    }
}

/// Alike sequences run alike.
pub proof fn lemma_same_ops_run(
    a: Seq<Operation>,
    b: Seq<Operation>,
    t: Tape,
    input: InputSource,
    fuel: nat,
)
    requires
        same_ops(a, b),
    ensures
        run_seq(a, t, input, fuel) == run_seq(b, t, input, fuel),
{
    lemma_same_seq_run(a, b, t, input, fuel);
}

proof fn lemma_body_not_shorter(a: Seq<char>, x: Seq<char>, b: Seq<char>, y: Seq<char>)
    requires
        a + seq!['['] + x == b + seq!['['] + y,
        balanced(x),
        balanced(y),
    ensures
        y.len() <= x.len(),
{
    if x.len() < y.len() {
        let u = a + seq!['['] + x;
        let k = y.len() - x.len() - 1;
        let z = y.take(k);
        assert(u.len() == a.len() + 1 + x.len());
        assert(u.len() == b.len() + 1 + y.len());
        assert forall|j: int| 0 <= j < y.len() implies y[j] == (z + seq!['['] + x)[j] by {
            assert(y[j] == (b + seq!['['] + y)[b.len() + 1 + j]);
            assert(u[b.len() + 1 + j] == y[j]);
            if j == k {
                assert(b.len() + 1 + j == a.len());
                assert(u[a.len() as int] == '[');
            } else if j > k {
                assert(u[b.len() + 1 + j] == x[j - k - 1]);
                assert((z + seq!['['] + x)[j] == x[j - k - 1]);
            }
        }
        assert(y =~= z + seq!['['] + x);
        assert(nesting(seq!['[']) == 1) by {
            assert(seq!['['].drop_last() =~= Seq::<char>::empty());
            assert(nesting(Seq::<char>::empty()) == 0);
            assert(seq!['['].last() == '[');
        }
        lemma_nesting_concat(z, seq!['[']);
        lemma_nesting_concat(z + seq!['['], x);
        assert(nesting(y.take(k)) < 0);
    }
}

proof fn lemma_loop_split(a: Seq<char>, x: Seq<char>, b: Seq<char>, y: Seq<char>)
    requires
        a + seq!['['] + x == b + seq!['['] + y,
        balanced(x),
        balanced(y),
    ensures
        a == b,
        x == y,
{
    if x.len() < y.len() {
        lemma_body_not_shorter(a, x, b, y);
    } else if y.len() < x.len() {
        lemma_body_not_shorter(b, y, a, x);
    } else {
        let u = a + seq!['['] + x;
        assert(x =~= u.skip(u.len() - x.len()));
        assert(y =~= (b + seq!['['] + y).skip(u.len() - y.len()));
        assert(a =~= u.take(a.len() as int));
        assert(b =~= (b + seq!['['] + y).take(b.len() as int));
    }
}

proof fn lemma_run_not_shorter(
    a1: Seq<Operation>,
    c: char,
    n: usize,
    b1: Seq<Operation>,
    m: usize,
)
    requires
        is_run_command(c),
        folded(a1.push(run_node(c, n))),
        folded(b1),
        render(a1) + repeat(c, n as nat) == render(b1) + repeat(c, m as nat),
    ensures
        m <= n,
{
    if n < m {
        let a = a1.push(run_node(c, n));
        let t = render(a1) + repeat(c, n as nat);
        assert(a.drop_last() =~= a1);
        let k = render(a1).len() - 1;
        assert(repeat(c, n as nat).len() == n);
        assert(repeat(c, m as nat).len() == m);
        assert(t.len() == (render(b1) + repeat(c, m as nat)).len());
        assert(render(a1).len() == render(b1).len() + m - n);
        assert(t[k] == c) by {
            assert(t[k] == (render(b1) + repeat(c, m as nat))[k]);
            assert((render(b1) + repeat(c, m as nat))[k] == repeat(c, m as nat)[k - render(b1).len()]);
        }
        if a1.len() == 0 {
            assert(render(a1).len() == 0);
        } else {
            assert(folded(a1));
            assert(folded_op(a1.last()));
            lemma_render_last(a1);
            lemma_render_op_last(a1.last());
            assert(render(a1).last() == t[k]);
            assert(a[a.len() - 2] == a1.last());
            assert(same_run(a1.last(), run_node(c, n)));
        }
    }
}

/// Two folded sequences that stand for the same text are alike.
pub proof fn lemma_unique(a: Seq<Operation>, b: Seq<Operation>)
    requires
        folded(a),
        folded(b),
        render(a) == render(b),
    ensures
        same_ops(a, b),
    decreases render(a).len(),
{
    if a.len() == 0 || b.len() == 0 {
        if a.len() > 0 {
            lemma_render_last(a);
        }
        if b.len() > 0 {
            lemma_render_last(b);
        }
    } else {
        let t = render(a);
        let a1 = a.drop_last();
        let b1 = b.drop_last();
        let la = a.last();
        let lb = b.last();
        lemma_render_last(a);
        lemma_render_last(b);
        lemma_render_op_last(la);
        lemma_render_op_last(lb);
        assert(t == render(a1) + render_op(la));
        assert(t == render(b1) + render_op(lb));
        assert(a1.push(la) =~= a);
        assert(b1.push(lb) =~= b);
        match la {
            Operation::Loop(x) => {
                let y = lb->Loop_0;
                assert(folded_op(la));
                assert(folded_op(lb));
                assert(folded(x@));
                assert(folded(y@));
                assert(t.drop_last() =~= render(a1) + seq!['['] + render(x@));
                assert(t.drop_last() =~= render(b1) + seq!['['] + render(y@));
                lemma_render_balanced(x@);
                lemma_render_balanced(y@);
                lemma_loop_split(render(a1), render(x@), render(b1), render(y@));
                lemma_unique(x@, y@);
                lemma_unique(a1, b1);
            },
            Operation::Output | Operation::Input => {
                assert(la == lb);
                assert(render(a1) =~= t.drop_last());
                assert(render(b1) =~= t.drop_last());
                lemma_unique(a1, b1);
            },
            _ => {
                let c = t.last();
                let n: usize = match la {
                    Operation::MoveRight(n) => n,
                    Operation::MoveLeft(n) => n,
                    Operation::Increment(n) => n,
                    Operation::Decrement(n) => n,
                    _ => 0,
                };
                let m: usize = match lb {
                    Operation::MoveRight(m) => m,
                    Operation::MoveLeft(m) => m,
                    Operation::Increment(m) => m,
                    Operation::Decrement(m) => m,
                    _ => 0,
                };
                assert(is_run_command(c));
                assert(la == run_node(c, n));
                assert(lb == run_node(c, m));
                lemma_render_run(c, n);
                lemma_render_run(c, m);
                if n < m {
                    lemma_run_not_shorter(a1, c, n, b1, m);
                } else if m < n {
                    lemma_run_not_shorter(b1, c, m, a1, n);
                }
                assert(render(a1) =~= t.take(t.len() - n));
                assert(render(b1) =~= t.take(t.len() - m));
                lemma_unique(a1, b1);
            },
        }
        assert(same_op(la, lb));
        assert forall|i: int| 0 <= i < a.len() implies same_op(#[trigger] a[i], b[i]) by {
            if i < a.len() - 1 {
                assert(a[i] == a1[i]);
                assert(b[i] == b1[i]);
            }
        }
    }
}

/// A source compiles to one tree only: any two trees that it compiles to
/// are alike node by node, loop bodies included.
pub proof fn compiled_tree_is_unique(s: Seq<char>, a: Seq<Operation>, b: Seq<Operation>)
    requires
        compiles_to(s, a),
        compiles_to(s, b),
    ensures
        same_ops(a, b),
{
    lemma_unique(a, b);
}

proof fn lemma_code_nesting(s: Seq<char>)
    ensures
        nesting(code_of(s)) == nesting(s),
    decreases s.len(),
{
    if s.len() > 0 {
        lemma_code_nesting(s.drop_last());
        if is_command(s.last()) {
            assert(code_of(s).drop_last() =~= code_of(s.drop_last()));
        }
    }
}

proof fn lemma_code_concat(p: Seq<char>, q: Seq<char>)
    ensures
        code_of(p + q) == code_of(p) + code_of(q),
    decreases q.len(),
{
    if q.len() == 0 {
        assert(p + q =~= p);
        assert(code_of(p) + code_of(q) =~= code_of(p));
    } else {
        assert((p + q).drop_last() =~= p + q.drop_last());
        lemma_code_concat(p, q.drop_last());
        if is_command(q.last()) {
            assert(code_of(p + q) =~= code_of(p) + code_of(q));
        }
    }
}

/// Only a source whose brackets balance compiles: if some tree stands for
/// its commands, every `[` of it has a matching `]` and no `]` comes first.
pub proof fn only_balanced_sources_compile(s: Seq<char>, ops: Seq<Operation>)
    requires
        compiles_to(s, ops),
    ensures
        balanced(s),
{
    let code = code_of(s);
    lemma_render_balanced(ops);
    lemma_code_nesting(s);
    assert forall|i: int| 0 <= i <= s.len() implies nesting(#[trigger] s.take(i)) >= 0 by {
        let p = s.take(i);
        lemma_code_concat(p, s.skip(i));
        assert(p + s.skip(i) =~= s);
        lemma_code_len(s.skip(i));
        assert(code.take(code_of(p).len() as int) =~= code_of(p));
        lemma_code_nesting(p);
        assert(!underflows(code));
        assert(nesting(code.take(code_of(p).len() as int)) >= 0);
    }
}

}
