use vstd::prelude::*;

use crate::expr::{is_var_byte, wf, Expr};
use crate::lex::{
    ident_shaped, is_ident_cont, is_ident_start, lemma_ident_end_at, lemma_out_prepend_assoc,
    lex_from, out_prepend, string_from_ascii, tok_model, LexOut, TokModel, Token, TokenPos,
};
use crate::parse::{parse_from, PState, ParseOut};

verus! {

/// The surface form of an expression, as bytes: variables print as their
/// letter, names print flanked by single spaces, nested abstractions
/// collapse into one backslash group, and applications parenthesize exactly
/// where left-associativity demands it.
pub open spec fn print_spec(e: Expr) -> Seq<u8>
    decreases e, 0int,
{
    match e {
        Expr::Variable(v) => seq![v],
        Expr::Name(n) => seq![32u8] + n@.map(|_i: int, c: char| c as u8) + seq![32u8],
        Expr::Abstr(p, b) => seq![92u8, p] + abstr_tail(*b),
        Expr::Appl(a, b) => {
            let head = if *a matches Expr::Abstr(_, _) {
                seq![40u8] + print_spec(*a) + seq![41u8]
            } else {
                print_spec(*a)
            };
            let arg = if (*b matches Expr::Appl(_, _)) || (*b matches Expr::Abstr(_, _)) {
                seq![40u8] + print_spec(*b) + seq![41u8]
            } else {
                print_spec(*b)
            };
            head + arg
        },
    }
}

/// The rest of a collapsed abstraction group: further parameters, then a
/// dot and the body.
pub open spec fn abstr_tail(e: Expr) -> Seq<u8>
    decreases e, 1int,
{
    match e {
        Expr::Abstr(p, b) => seq![p] + abstr_tail(*b),
        _ => seq![46u8] + print_spec(e),
    }
}

/// The surface form of a well-formed expression consists of ASCII bytes.
pub proof fn lemma_print_ascii(e: Expr)
    requires
        wf(e),
    ensures
        forall|i: int| 0 <= i < print_spec(e).len() ==> (#[trigger] print_spec(e)[i]) < 128,
    decreases e, 0int,
{
    match e {
        Expr::Variable(v) => {
            assert forall|i: int| 0 <= i < print_spec(e).len() implies (#[trigger] print_spec(
                e,
            )[i]) < 128 by {
                assert(print_spec(e) == seq![v]);
            }
        },
        Expr::Name(n) => {
            vstd::utf8::is_ascii_chars_nat_bound(n@);
            let mid = n@.map(|_i: int, c: char| c as u8);
            assert forall|i: int| 0 <= i < print_spec(e).len() implies (#[trigger] print_spec(
                e,
            )[i]) < 128 by {
                assert(print_spec(e) == seq![32u8] + mid + seq![32u8]);
                if 1 <= i < print_spec(e).len() - 1 {
                    assert(print_spec(e)[i] == mid[i - 1]);
                    assert((n@[i - 1]) as nat <= 127);
                }
            }
        },
        Expr::Abstr(p, b) => {
            lemma_abstr_tail_ascii(*b);
            assert forall|i: int| 0 <= i < print_spec(e).len() implies (#[trigger] print_spec(
                e,
            )[i]) < 128 by {
                assert(print_spec(e) == seq![92u8, p] + abstr_tail(*b));
                if i >= 2 {
                    assert(print_spec(e)[i] == abstr_tail(*b)[i - 2]);
                }
            }
        },
        Expr::Appl(a, b) => {
            lemma_print_ascii(*a);
            lemma_print_ascii(*b);
            let head = if *a matches Expr::Abstr(_, _) {
                seq![40u8] + print_spec(*a) + seq![41u8]
            } else {
                print_spec(*a)
            };
            let arg = if (*b matches Expr::Appl(_, _)) || (*b matches Expr::Abstr(_, _)) {
                seq![40u8] + print_spec(*b) + seq![41u8]
            } else {
                print_spec(*b)
            };
            assert(print_spec(e) == head + arg);
            assert(forall|i: int| 0 <= i < head.len() ==> (#[trigger] head[i]) < 128);
            assert(forall|i: int| 0 <= i < arg.len() ==> (#[trigger] arg[i]) < 128);
            assert forall|i: int| 0 <= i < print_spec(e).len() implies (#[trigger] print_spec(
                e,
            )[i]) < 128 by {
                if i < head.len() {
                    assert(print_spec(e)[i] == head[i]);
                } else {
                    assert(print_spec(e)[i] == arg[i - head.len()]);
                }
            }
        },
    }
}

proof fn lemma_abstr_tail_ascii(e: Expr)
    requires
        wf(e),
    ensures
        forall|i: int| 0 <= i < abstr_tail(e).len() ==> (#[trigger] abstr_tail(e)[i]) < 128,
    decreases e, 1int,
{
    match e {
        Expr::Abstr(p, b) => {
            lemma_abstr_tail_ascii(*b);
            assert forall|i: int| 0 <= i < abstr_tail(e).len() implies (#[trigger] abstr_tail(
                e,
            )[i]) < 128 by {
                assert(abstr_tail(e) == seq![p] + abstr_tail(*b));
                if i >= 1 {
                    assert(abstr_tail(e)[i] == abstr_tail(*b)[i - 1]);
                }
            }
        },
        _ => {
            lemma_print_ascii(e);
            assert forall|i: int| 0 <= i < abstr_tail(e).len() implies (#[trigger] abstr_tail(
                e,
            )[i]) < 128 by {
                assert(abstr_tail(e) == seq![46u8] + print_spec(e));
                if i >= 1 {
                    assert(abstr_tail(e)[i] == print_spec(e)[i - 1]);
                }
            }
        },
    }
}

fn write_surface(e: &Expr, out: &mut Vec<u8>)
    requires
        wf(*e),
    ensures
        final(out)@ == old(out)@ + print_spec(*e),
    decreases *e, 0int,
{
    match e {
        Expr::Variable(v) => {
            out.push(*v);
            proof {
                assert(out@ =~= old(out)@ + print_spec(*e));
            }
        },
        Expr::Name(n) => {
            out.push(32);
            let st = n.as_str();
            let bytes = st.as_bytes();
            proof {
                vstd::string::is_ascii_spec_bytes(st);
                assert(bytes@ =~= n@.map(|_i: int, c: char| c as u8));
            }
            out.extend_from_slice(bytes);
            out.push(32);
            proof {
                assert(out@ =~= old(out)@ + print_spec(*e));
            }
        },
        Expr::Abstr(p, b) => {
            out.push(92);
            out.push(*p);
            write_abstr_tail(b, out);
            proof {
                assert(out@ =~= old(out)@ + print_spec(*e));
            }
        },
        Expr::Appl(a, b) => {
            let head_paren = matches!(&**a, Expr::Abstr(_, _));
            let arg_paren = matches!(&**b, Expr::Appl(_, _) | Expr::Abstr(_, _));
            if head_paren {
                out.push(40);
                write_surface(a, out);
                out.push(41);
            } else {
                write_surface(a, out);
            }
            if arg_paren {
                out.push(40);
                write_surface(b, out);
                out.push(41);
            } else {
                write_surface(b, out);
            }
            proof {
                assert(out@ =~= old(out)@ + print_spec(*e));
            }
        },
    }
}

fn write_abstr_tail(e: &Expr, out: &mut Vec<u8>)
    requires
        wf(*e),
    ensures
        final(out)@ == old(out)@ + abstr_tail(*e),
    decreases *e, 1int,
{
    match e {
        Expr::Abstr(p, b) => {
            out.push(*p);
            write_abstr_tail(b, out);
            proof {
                assert(out@ =~= old(out)@ + abstr_tail(*e));
            }
        },
        _ => {
            out.push(46);
            write_surface(e, out);
            proof {
                assert(out@ =~= old(out)@ + abstr_tail(*e));
            }
        },
    }
}

/// The label bytes `"Var "`.
pub open spec fn label_var() -> Seq<u8> {
    seq![86u8, 97u8, 114u8, 32u8]
}

/// The label bytes `"Name "`.
pub open spec fn label_name() -> Seq<u8> {
    seq![78u8, 97u8, 109u8, 101u8, 32u8]
}

/// The label bytes `"Abstr"`.
pub open spec fn label_abstr() -> Seq<u8> {
    seq![65u8, 98u8, 115u8, 116u8, 114u8]
}

/// The collapsed parameter list of an abstraction group, one space-prefixed
/// letter per binder.
pub open spec fn abstr_params(e: Expr) -> Seq<u8>
    decreases e,
{
    match e {
        Expr::Abstr(p, b) => seq![32u8, p] + abstr_params(*b),
        _ => Seq::empty(),
    }
}

/// The innermost body under a collapsed abstraction group.
pub open spec fn abstr_inner(e: Expr) -> Expr
    decreases e,
{
    match e {
        Expr::Abstr(_, b) => abstr_inner(*b),
        _ => e,
    }
}

/// The innermost body is no abstraction and sits strictly inside any
/// abstraction group.
pub proof fn lemma_abstr_inner_dec(e: Expr)
    ensures
        !(abstr_inner(e) matches Expr::Abstr(_, _)),
        abstr_inner(e) == e || decreases_to!(e => abstr_inner(e)),
    decreases e,
{
    match e {
        Expr::Abstr(_, b) => {
            lemma_abstr_inner_dec(*b);
            assert(abstr_inner(e) == abstr_inner(*b));
            assert(decreases_to!(e => *b));
        },
        _ => {},
    }
}

/// Well-formedness descends to the innermost body.
pub proof fn lemma_abstr_inner_wf(e: Expr)
    requires
        wf(e),
    ensures
        wf(abstr_inner(e)),
    decreases e,
{
    match e {
        Expr::Abstr(_, b) => {
            lemma_abstr_inner_wf(*b);
        },
        _ => {},
    }
}

/// The indented tree form of an expression: `head` starts its first line,
/// `rest` starts every later line. Applications fan out their left spine so
/// an n-ary application draws as n children.
pub open spec fn tree_spec(head: Seq<u8>, rest: Seq<u8>, e: Expr) -> Seq<u8>
    decreases e, 0int,
    via tree_spec_dec
{
    match e {
        Expr::Variable(v) => head + label_var() + seq![v, 10u8],
        Expr::Name(n) => head + label_name() + n@.map(|_i: int, c: char| c as u8) + seq![10u8],
        Expr::Abstr(_, _) => head + label_abstr() + abstr_params(e) + seq![10u8] + tree_spec(
            rest + seq![96u8, 45u8],
            rest + seq![32u8, 32u8],
            abstr_inner(e),
        ),
        Expr::Appl(a, b) => head + seq![46u8, 10u8] + tree_fan(rest, *a) + tree_spec(
            rest + seq![96u8, 45u8],
            rest + seq![32u8, 32u8],
            *b,
        ),
    }
}

#[via_fn]
proof fn tree_spec_dec(head: Seq<u8>, rest: Seq<u8>, e: Expr) {
    match e {
        Expr::Abstr(_, _) => {
            lemma_abstr_inner_dec(e);
        },
        _ => {},
    }
}

/// The non-final children of an application fan, each marked as a branch.
pub open spec fn tree_fan(rest: Seq<u8>, e: Expr) -> Seq<u8>
    decreases e, 1int,
{
    match e {
        Expr::Appl(a, b) => tree_fan(rest, *a) + tree_spec(
            rest + seq![124u8, 45u8],
            rest + seq![124u8, 32u8],
            *b,
        ),
        _ => tree_spec(rest + seq![124u8, 45u8], rest + seq![124u8, 32u8], e),
    }
}

fn push_two(out: &mut Vec<u8>, a: u8, b: u8)
    ensures
        final(out)@ == old(out)@ + seq![a, b],
{
    out.push(a);
    out.push(b);
    proof {
        assert(out@ =~= old(out)@ + seq![a, b]);
    }
}

fn extended(base: &Vec<u8>, a: u8, b: u8) -> (r: Vec<u8>)
    ensures
        r@ == base@ + seq![a, b],
{
    let mut r: Vec<u8> = Vec::new();
    r.extend_from_slice(base.as_slice());
    proof {
        assert(r@ =~= base@);
    }
    r.push(a);
    r.push(b);
    proof {
        assert(r@ =~= base@ + seq![a, b]);
    }
    r
}

fn write_params<'a>(e: &'a Expr, out: &mut Vec<u8>) -> (r: &'a Expr)
    requires
        wf(*e),
    ensures
        final(out)@ == old(out)@ + abstr_params(*e),
        *r == abstr_inner(*e),
        wf(*r),
        !(*r matches Expr::Abstr(_, _)),
    decreases *e,
{
    match e {
        Expr::Abstr(p, b) => {
            push_two(out, 32, *p);
            let r = write_params(b, out);
            proof {
                assert(out@ =~= old(out)@ + abstr_params(*e));
            }
            r
        },
        _ => {
            proof {
                assert(abstr_params(*e) =~= Seq::<u8>::empty());
                assert(out@ =~= old(out)@ + abstr_params(*e));
            }
            e
        },
    }
}

fn write_tree(e: &Expr, head: &Vec<u8>, rest: &Vec<u8>, out: &mut Vec<u8>)
    requires
        wf(*e),
    ensures
        final(out)@ == old(out)@ + tree_spec(head@, rest@, *e),
    decreases *e, 0int,
{
    match e {
        Expr::Variable(v) => {
            out.extend_from_slice(head.as_slice());
            out.push(86);
            out.push(97);
            out.push(114);
            out.push(32);
            out.push(*v);
            out.push(10);
            proof {
                assert(out@ =~= old(out)@ + tree_spec(head@, rest@, *e));
            }
        },
        Expr::Name(n) => {
            out.extend_from_slice(head.as_slice());
            out.push(78);
            out.push(97);
            out.push(109);
            out.push(101);
            out.push(32);
            let st = n.as_str();
            let bytes = st.as_bytes();
            proof {
                vstd::string::is_ascii_spec_bytes(st);
                assert(bytes@ =~= n@.map(|_i: int, c: char| c as u8));
            }
            out.extend_from_slice(bytes);
            out.push(10);
            proof {
                assert(out@ =~= old(out)@ + tree_spec(head@, rest@, *e));
            }
        },
        Expr::Abstr(_, _) => {
            out.extend_from_slice(head.as_slice());
            out.push(65);
            out.push(98);
            out.push(115);
            out.push(116);
            out.push(114);
            let inner = write_params(e, out);
            proof {
                lemma_abstr_inner_dec(*e);
            }
            out.push(10);
            let h2 = extended(rest, 96, 45);
            let r2 = extended(rest, 32, 32);
            write_tree(inner, &h2, &r2, out);
            proof {
                assert(out@ =~= old(out)@ + tree_spec(head@, rest@, *e));
            }
        },
        Expr::Appl(a, b) => {
            out.extend_from_slice(head.as_slice());
            push_two(out, 46, 10);
            write_fan(a, rest, out);
            let h2 = extended(rest, 96, 45);
            let r2 = extended(rest, 32, 32);
            write_tree(b, &h2, &r2, out);
            proof {
                assert(out@ =~= old(out)@ + tree_spec(head@, rest@, *e));
            }
        },
    }
}

fn write_fan(e: &Expr, rest: &Vec<u8>, out: &mut Vec<u8>)
    requires
        wf(*e),
    ensures
        final(out)@ == old(out)@ + tree_fan(rest@, *e),
    decreases *e, 1int,
{
    match e {
        Expr::Appl(a, b) => {
            write_fan(a, rest, out);
            let h2 = extended(rest, 124, 45);
            let r2 = extended(rest, 124, 32);
            write_tree(b, &h2, &r2, out);
            proof {
                assert(out@ =~= old(out)@ + tree_fan(rest@, *e));
            }
        },
        _ => {
            let h2 = extended(rest, 124, 45);
            let r2 = extended(rest, 124, 32);
            write_tree(e, &h2, &r2, out);
            proof {
                assert(out@ =~= old(out)@ + tree_fan(rest@, *e));
            }
        },
    }
}

/// The tree form of a well-formed expression consists of ASCII bytes when
/// the line prefixes do.
proof fn lemma_tree_ascii(head: Seq<u8>, rest: Seq<u8>, e: Expr)
    requires
        wf(e),
        forall|i: int| 0 <= i < head.len() ==> (#[trigger] head[i]) < 128,
        forall|i: int| 0 <= i < rest.len() ==> (#[trigger] rest[i]) < 128,
    ensures
        forall|i: int|
            0 <= i < tree_spec(head, rest, e).len() ==> (#[trigger] tree_spec(head, rest, e)[i])
                < 128,
    decreases e, 0int,
{
    let whole = tree_spec(head, rest, e);
    match e {
        Expr::Variable(v) => {
            assert forall|i: int| 0 <= i < whole.len() implies (#[trigger] whole[i]) < 128 by {
                assert(whole == head + label_var() + seq![v, 10u8]);
                if i >= head.len() {
                    assert(whole[i] == (label_var() + seq![v, 10u8])[i - head.len()]);
                }
            }
        },
        Expr::Name(n) => {
            vstd::utf8::is_ascii_chars_nat_bound(n@);
            let mid = n@.map(|_i: int, c: char| c as u8);
            assert forall|i: int| 0 <= i < whole.len() implies (#[trigger] whole[i]) < 128 by {
                assert(whole == head + label_name() + mid + seq![10u8]);
                if head.len() + label_name().len() <= i < whole.len() - 1 {
                    assert(whole[i] == mid[i - head.len() - label_name().len()]);
                    assert((n@[i - head.len() - label_name().len()]) as nat <= 127);
                } else if head.len() <= i < head.len() + label_name().len() {
                    assert(whole[i] == label_name()[i - head.len()]);
                }
            }
        },
        Expr::Abstr(_, _) => {
            lemma_abstr_inner_dec(e);
            lemma_abstr_inner_wf(e);
            lemma_abstr_params_ascii(e);
            let h2 = rest + seq![96u8, 45u8];
            let r2 = rest + seq![32u8, 32u8];
            lemma_tree_ascii(h2, r2, abstr_inner(e));
            let pre = head + label_abstr() + abstr_params(e) + seq![10u8];
            let sub = tree_spec(h2, r2, abstr_inner(e));
            assert(whole == pre + sub);
            assert forall|i: int| 0 <= i < whole.len() implies (#[trigger] whole[i]) < 128 by {
                if i < pre.len() {
                    assert(whole[i] == pre[i]);
                    if head.len() <= i < head.len() + label_abstr().len() {
                        assert(pre[i] == label_abstr()[i - head.len()]);
                    } else if head.len() + label_abstr().len() <= i < pre.len() - 1 {
                        assert(pre[i] == abstr_params(e)[i - head.len() - label_abstr().len()]);
                    }
                } else {
                    assert(whole[i] == sub[i - pre.len()]);
                }
            }
        },
        Expr::Appl(a, b) => {
            lemma_fan_ascii(rest, *a);
            let h2 = rest + seq![96u8, 45u8];
            let r2 = rest + seq![32u8, 32u8];
            lemma_tree_ascii(h2, r2, *b);
            let pre = head + seq![46u8, 10u8];
            let fan = tree_fan(rest, *a);
            let sub = tree_spec(h2, r2, *b);
            assert(whole == pre + fan + sub);
            assert forall|i: int| 0 <= i < whole.len() implies (#[trigger] whole[i]) < 128 by {
                if i < pre.len() {
                    assert(whole[i] == pre[i]);
                } else if i < pre.len() + fan.len() {
                    assert(whole[i] == fan[i - pre.len()]);
                } else {
                    assert(whole[i] == sub[i - pre.len() - fan.len()]);
                }
            }
        },
    }
}

proof fn lemma_abstr_params_ascii(e: Expr)
    requires
        wf(e),
    ensures
        forall|i: int|
            0 <= i < abstr_params(e).len() ==> (#[trigger] abstr_params(e)[i]) < 128,
    decreases e,
{
    match e {
        Expr::Abstr(p, b) => {
            lemma_abstr_params_ascii(*b);
            assert forall|i: int| 0 <= i < abstr_params(e).len() implies (
            #[trigger] abstr_params(e)[i]) < 128 by {
                assert(abstr_params(e) == seq![32u8, p] + abstr_params(*b));
                if i >= 2 {
                    assert(abstr_params(e)[i] == abstr_params(*b)[i - 2]);
                }
            }
        },
        _ => {},
    }
}

proof fn lemma_fan_ascii(rest: Seq<u8>, e: Expr)
    requires
        wf(e),
        forall|i: int| 0 <= i < rest.len() ==> (#[trigger] rest[i]) < 128,
    ensures
        forall|i: int|
            0 <= i < tree_fan(rest, e).len() ==> (#[trigger] tree_fan(rest, e)[i]) < 128,
    decreases e, 1int,
{
    let h2 = rest + seq![124u8, 45u8];
    let r2 = rest + seq![124u8, 32u8];
    match e {
        Expr::Appl(a, b) => {
            lemma_fan_ascii(rest, *a);
            lemma_tree_ascii(h2, r2, *b);
            let fan = tree_fan(rest, *a);
            let sub = tree_spec(h2, r2, *b);
            assert(tree_fan(rest, e) == fan + sub);
            assert forall|i: int| 0 <= i < tree_fan(rest, e).len() implies (#[trigger] tree_fan(
                rest,
                e,
            )[i]) < 128 by {
                if i < fan.len() {
                    assert(tree_fan(rest, e)[i] == fan[i]);
                } else {
                    assert(tree_fan(rest, e)[i] == sub[i - fan.len()]);
                }
            }
        },
        _ => {
            lemma_tree_ascii(h2, r2, e);
            assert(tree_fan(rest, e) == tree_spec(h2, r2, e));
        },
    }
}

impl Expr {
    /// Renders the expression in valid lambda surface syntax.
    pub fn surface(&self) -> (r: String)
        requires
            wf(*self),
        ensures
            r@ == print_spec(*self).map(|_i: int, b: u8| b as char),
    {
        let mut out: Vec<u8> = Vec::new();
        write_surface(self, &mut out);
        proof {
            lemma_print_ascii(*self);
            assert(out@ =~= print_spec(*self));
        }
        string_from_ascii(out)
    }

    /// Renders the expression as an indented tree, applications drawn as a
    /// fan of their left spine.
    pub fn tree_form(&self) -> (r: String)
        requires
            wf(*self),
        ensures
            r@ == tree_spec(Seq::empty(), Seq::empty(), *self).map(|_i: int, b: u8| b as char),
    {
        let empty_head: Vec<u8> = Vec::new();
        let empty_rest: Vec<u8> = Vec::new();
        let mut out: Vec<u8> = Vec::new();
        write_tree(self, &empty_head, &empty_rest, &mut out);
        proof {
            lemma_tree_ascii(Seq::empty(), Seq::empty(), *self);
            assert(out@ =~= tree_spec(Seq::empty(), Seq::empty(), *self));
        }
        string_from_ascii(out)
    }
}

/// A well-formed expression whose names the lexer could have produced: its
/// surface form lexes back to tokens.
pub open spec fn printable(e: Expr) -> bool
    decreases e,
{
    match e {
        Expr::Variable(v) => is_var_byte(v),
        Expr::Name(n) => ident_shaped(n@),
        Expr::Abstr(p, b) => is_var_byte(p) && printable(*b),
        Expr::Appl(a, b) => printable(*a) && printable(*b),
    }
}

/// The positioned token forms of a printed expression, starting at the
/// given row and column.
pub open spec fn print_toks(e: Expr, row: int, col: int) -> Seq<(TokModel, int, int)>
    decreases e, 0int,
{
    match e {
        Expr::Variable(v) => seq![(TokModel::Chr(v), row, col)],
        Expr::Name(n) => seq![(TokModel::Ident(n@), row, col + 1)],
        Expr::Abstr(p, b) => seq![(TokModel::Bslash, row, col), (TokModel::Chr(p), row, col + 1)]
            + tail_toks(*b, row, col + 2),
        Expr::Appl(a, b) => {
            let wa = print_spec(*a).len() as int;
            let head = if *a matches Expr::Abstr(_, _) {
                seq![(TokModel::OpPar, row, col)] + print_toks(*a, row, col + 1) + seq![
                    (TokModel::ClPar, row, col + 1 + wa),
                ]
            } else {
                print_toks(*a, row, col)
            };
            let hw = if *a matches Expr::Abstr(_, _) {
                wa + 2
            } else {
                wa
            };
            let wb = print_spec(*b).len() as int;
            let arg = if (*b matches Expr::Appl(_, _)) || (*b matches Expr::Abstr(_, _)) {
                seq![(TokModel::OpPar, row, col + hw)] + print_toks(*b, row, col + hw + 1) + seq![
                    (TokModel::ClPar, row, col + hw + 1 + wb),
                ]
            } else {
                print_toks(*b, row, col + hw)
            };
            head + arg
        },
    }
}

/// The token forms of the rest of a collapsed abstraction group.
pub open spec fn tail_toks(e: Expr, row: int, col: int) -> Seq<(TokModel, int, int)>
    decreases e, 1int,
{
    match e {
        Expr::Abstr(p, b) => seq![(TokModel::Chr(p), row, col)] + tail_toks(*b, row, col + 1),
        _ => seq![(TokModel::DotTok, row, col)] + print_toks(e, row, col + 1),
    }
}

/// The surface form is never empty.
pub proof fn lemma_print_nonempty(e: Expr)
    ensures
        print_spec(e).len() >= 1,
        abstr_tail(e).len() >= 1,
    decreases e, 0int,
{
    match e {
        Expr::Appl(a, b) => {
            lemma_print_nonempty(*a);
            lemma_print_nonempty(*b);
        },
        _ => {},
    }
}

/// Lexing a printed expression embedded in a larger source yields exactly
/// its token forms and then continues after it, the column advanced by its
/// width.
#[verifier::rlimit(100)]
#[verifier::spinoff_prover]
pub proof fn lemma_print_lex(e: Expr, s: Seq<u8>, i: int, row: int, col: int)
    requires
        printable(e),
        0 <= i,
        i + print_spec(e).len() <= s.len(),
        s.subrange(i, i + print_spec(e).len() as int) == print_spec(e),
    ensures
        lex_from(s, i, row, col) == out_prepend(
            print_toks(e, row, col),
            lex_from(
                s,
                i + print_spec(e).len(),
                row,
                col + print_spec(e).len(),
            ),
        ),
    decreases e, 0int,
{
    let w = print_spec(e).len() as int;
    assert forall|k: int| 0 <= k < w implies s[i + k] == #[trigger] print_spec(e)[k] by {
        assert(s.subrange(i, i + w)[k] == print_spec(e)[k]);
    }
    match e {
        Expr::Variable(v) => {
            assert(print_spec(e) == seq![v]);
            assert(print_spec(e)[0] == v);
            assert(s[i] == v);
            assert(lex_from(s, i, row, col) == out_prepend(
                seq![(TokModel::Chr(v), row, col)],
                lex_from(s, i + 1, row, col + 1),
            ));
        },
        Expr::Name(n) => {
            let ln = n@.len() as int;
            let mid = n@.map(|_k: int, c: char| c as u8);
            assert(print_spec(e) == seq![32u8] + mid + seq![32u8]);
            assert(print_spec(e)[0] == 32);
            assert(s[i] == 32);
            assert forall|k: int| 0 <= k < ln implies s[i + 1 + k] == (#[trigger] n@[k]) as u8 by {
                assert(print_spec(e)[1 + k] == mid[k]);
                assert(mid[k] == n@[k] as u8);
            }
            assert(print_spec(e)[1 + ln] == 32);
            assert(s[i + 1 + ln] == 32);
            vstd::utf8::is_ascii_chars_nat_bound(n@);
            assert(lex_from(s, i, row, col) == lex_from(s, i + 1, row, col + 1));
            assert(is_ident_start(s[i + 1]));
            assert(!is_ident_cont(32));
            assert forall|k: int| i + 2 <= k < i + 1 + ln implies is_ident_cont(s[k]) by {
                assert(s[k] == n@[k - i - 1] as u8);
            }
            lemma_ident_end_at(s, i + 2, i + 1 + ln);
            let j = crate::lex::ident_end(s, i + 2);
            assert(j == i + 1 + ln);
            assert(crate::lex::ident_chars(s, i + 1, j) =~= n@) by {
                assert forall|k: int| 0 <= k < ln implies s.subrange(i + 1, j).map(
                    |_k2: int, b: u8| b as char,
                )[k] == n@[k] by {
                    assert(s.subrange(i + 1, j)[k] == n@[k] as u8);
                    assert((n@[k]) as nat <= 127);
                }
            }
            assert(lex_from(s, i + 1, row, col + 1) == out_prepend(
                seq![(TokModel::Ident(n@), row, col + 1)],
                lex_from(s, j, row, col + 1 + ln),
            ));
            assert(lex_from(s, j, row, col + 1 + ln) == lex_from(s, j + 1, row, col + 2 + ln));
            assert(print_toks(e, row, col) == seq![(TokModel::Ident(n@), row, col + 1)]);
            assert(w == ln + 2);
        },
        Expr::Abstr(p, b) => {
            assert(print_spec(e) == seq![92u8, p] + abstr_tail(*b));
            assert(print_spec(e)[0] == 92);
            assert(print_spec(e)[1] == p);
            assert(s[i] == 92);
            assert(s[i + 1] == p);
            assert(lex_from(s, i, row, col) == out_prepend(
                seq![(TokModel::Bslash, row, col)],
                lex_from(s, i + 1, row, col + 1),
            ));
            assert(lex_from(s, i + 1, row, col + 1) == out_prepend(
                seq![(TokModel::Chr(p), row, col + 1)],
                lex_from(s, i + 2, row, col + 2),
            ));
            let wt = abstr_tail(*b).len() as int;
            assert(s.subrange(i + 2, i + 2 + wt) =~= abstr_tail(*b)) by {
                assert forall|k: int| 0 <= k < wt implies s.subrange(i + 2, i + 2 + wt)[k]
                    == abstr_tail(*b)[k] by {
                    assert(print_spec(e)[2 + k] == (seq![92u8, p] + abstr_tail(*b))[2 + k]);
                    assert((seq![92u8, p] + abstr_tail(*b))[2 + k] == abstr_tail(*b)[k]);
                    assert(s[i + 2 + k] == print_spec(e)[2 + k]);
                }
            }
            lemma_print_lex_tail(*b, s, i + 2, row, col + 2);
            lemma_out_prepend_assoc(
                seq![(TokModel::Chr(p), row, col + 1)],
                tail_toks(*b, row, col + 2),
                lex_from(s, i + w, row, col + w),
            );
            lemma_out_prepend_assoc(
                seq![(TokModel::Bslash, row, col)],
                seq![(TokModel::Chr(p), row, col + 1)] + tail_toks(*b, row, col + 2),
                lex_from(s, i + w, row, col + w),
            );
            assert(seq![(TokModel::Bslash, row, col)] + (seq![(TokModel::Chr(p), row, col + 1)]
                + tail_toks(*b, row, col + 2)) =~= print_toks(e, row, col));
        },
        Expr::Appl(a, b) => {
            let wa = print_spec(*a).len() as int;
            let wb = print_spec(*b).len() as int;
            let a_paren = *a matches Expr::Abstr(_, _);
            let b_paren = (*b matches Expr::Appl(_, _)) || (*b matches Expr::Abstr(_, _));
            let head = if a_paren {
                seq![40u8] + print_spec(*a) + seq![41u8]
            } else {
                print_spec(*a)
            };
            let arg = if b_paren {
                seq![40u8] + print_spec(*b) + seq![41u8]
            } else {
                print_spec(*b)
            };
            assert(print_spec(e) == head + arg);
            let hw = head.len() as int;
            let htoks = if a_paren {
                seq![(TokModel::OpPar, row, col)] + print_toks(*a, row, col + 1) + seq![
                    (TokModel::ClPar, row, col + 1 + wa),
                ]
            } else {
                print_toks(*a, row, col)
            };
            let atoks = if b_paren {
                seq![(TokModel::OpPar, row, col + hw)] + print_toks(*b, row, col + hw + 1) + seq![
                    (TokModel::ClPar, row, col + hw + 1 + wb),
                ]
            } else {
                print_toks(*b, row, col + hw)
            };
            assert(print_toks(e, row, col) == htoks + atoks);
            // The head part.
            if a_paren {
                assert(print_spec(e)[0] == 40);
                assert(s[i] == 40);
                assert(lex_from(s, i, row, col) == out_prepend(
                    seq![(TokModel::OpPar, row, col)],
                    lex_from(s, i + 1, row, col + 1),
                ));
                assert(s.subrange(i + 1, i + 1 + wa) =~= print_spec(*a)) by {
                    assert forall|k: int| 0 <= k < wa implies s.subrange(i + 1, i + 1 + wa)[k]
                        == print_spec(*a)[k] by {
                        assert(print_spec(e)[1 + k] == head[1 + k]);
                        assert(head[1 + k] == print_spec(*a)[k]);
                        assert(s[i + 1 + k] == print_spec(e)[1 + k]);
                    }
                }
                lemma_print_lex(*a, s, i + 1, row, col + 1);
                assert(print_spec(e)[1 + wa] == head[1 + wa]);
                assert(head[1 + wa] == 41);
                assert(s[i + 1 + wa] == 41);
                assert(lex_from(s, i + 1 + wa, row, col + 1 + wa) == out_prepend(
                    seq![(TokModel::ClPar, row, col + 1 + wa)],
                    lex_from(s, i + 2 + wa, row, col + 2 + wa),
                ));
                lemma_out_prepend_assoc(
                    print_toks(*a, row, col + 1),
                    seq![(TokModel::ClPar, row, col + 1 + wa)],
                    lex_from(s, i + hw, row, col + hw),
                );
                lemma_out_prepend_assoc(
                    seq![(TokModel::OpPar, row, col)],
                    print_toks(*a, row, col + 1) + seq![(TokModel::ClPar, row, col + 1 + wa)],
                    lex_from(s, i + hw, row, col + hw),
                );
                assert(seq![(TokModel::OpPar, row, col)] + (print_toks(*a, row, col + 1) + seq![
                    (TokModel::ClPar, row, col + 1 + wa),
                ]) =~= htoks);
            } else {
                assert(s.subrange(i, i + wa) =~= print_spec(*a)) by {
                    assert forall|k: int| 0 <= k < wa implies s.subrange(i, i + wa)[k]
                        == print_spec(*a)[k] by {
                        assert(print_spec(e)[k] == head[k]);
                        assert(head[k] == print_spec(*a)[k]);
                        assert(s[i + k] == print_spec(e)[k]);
                    }
                }
                lemma_print_lex(*a, s, i, row, col);
            }
            assert(lex_from(s, i, row, col) == out_prepend(
                htoks,
                lex_from(s, i + hw, row, col + hw),
            ));
            // The argument part.
            if b_paren {
                assert(print_spec(e)[hw] == arg[0]);
                assert(arg[0] == 40);
                assert(s[i + hw] == 40);
                assert(lex_from(s, i + hw, row, col + hw) == out_prepend(
                    seq![(TokModel::OpPar, row, col + hw)],
                    lex_from(s, i + hw + 1, row, col + hw + 1),
                ));
                assert(s.subrange(i + hw + 1, i + hw + 1 + wb) =~= print_spec(*b)) by {
                    assert forall|k: int| 0 <= k < wb implies s.subrange(
                        i + hw + 1,
                        i + hw + 1 + wb,
                    )[k] == print_spec(*b)[k] by {
                        assert(print_spec(e)[hw + 1 + k] == arg[1 + k]);
                        assert(arg[1 + k] == print_spec(*b)[k]);
                        assert(s[i + hw + 1 + k] == print_spec(e)[hw + 1 + k]);
                    }
                }
                lemma_print_lex(*b, s, i + hw + 1, row, col + hw + 1);
                assert(print_spec(e)[hw + 1 + wb] == arg[1 + wb]);
                assert(arg[1 + wb] == 41);
                assert(s[i + hw + 1 + wb] == 41);
                assert(lex_from(s, i + hw + 1 + wb, row, col + hw + 1 + wb) == out_prepend(
                    seq![(TokModel::ClPar, row, col + hw + 1 + wb)],
                    lex_from(s, i + w, row, col + w),
                ));
                lemma_out_prepend_assoc(
                    print_toks(*b, row, col + hw + 1),
                    seq![(TokModel::ClPar, row, col + hw + 1 + wb)],
                    lex_from(s, i + w, row, col + w),
                );
                lemma_out_prepend_assoc(
                    seq![(TokModel::OpPar, row, col + hw)],
                    print_toks(*b, row, col + hw + 1) + seq![
                        (TokModel::ClPar, row, col + hw + 1 + wb),
                    ],
                    lex_from(s, i + w, row, col + w),
                );
                assert(seq![(TokModel::OpPar, row, col + hw)] + (print_toks(*b, row, col + hw + 1)
                    + seq![(TokModel::ClPar, row, col + hw + 1 + wb)]) =~= atoks);
            } else {
                assert(s.subrange(i + hw, i + hw + wb) =~= print_spec(*b)) by {
                    assert forall|k: int| 0 <= k < wb implies s.subrange(i + hw, i + hw + wb)[k]
                        == print_spec(*b)[k] by {
                        assert(print_spec(e)[hw + k] == arg[k]);
                        assert(arg[k] == print_spec(*b)[k]);
                        assert(s[i + hw + k] == print_spec(e)[hw + k]);
                    }
                }
                lemma_print_lex(*b, s, i + hw, row, col + hw);
            }
            assert(lex_from(s, i + hw, row, col + hw) == out_prepend(
                atoks,
                lex_from(s, i + w, row, col + w),
            ));
            lemma_out_prepend_assoc(htoks, atoks, lex_from(s, i + w, row, col + w));
        },
    }
}

proof fn lemma_print_lex_tail(e: Expr, s: Seq<u8>, i: int, row: int, col: int)
    requires
        printable(e),
        0 <= i,
        i + abstr_tail(e).len() <= s.len(),
        s.subrange(i, i + abstr_tail(e).len() as int) == abstr_tail(e),
    ensures
        lex_from(s, i, row, col) == out_prepend(
            tail_toks(e, row, col),
            lex_from(
                s,
                i + abstr_tail(e).len(),
                row,
                col + abstr_tail(e).len(),
            ),
        ),
    decreases e, 1int,
{
    let w = abstr_tail(e).len() as int;
    assert forall|k: int| 0 <= k < w implies s[i + k] == #[trigger] abstr_tail(e)[k] by {
        assert(s.subrange(i, i + w)[k] == abstr_tail(e)[k]);
    }
    match e {
        Expr::Abstr(p, b) => {
            assert(abstr_tail(e) == seq![p] + abstr_tail(*b));
            assert(abstr_tail(e)[0] == p);
            assert(s[i] == p);
            assert(lex_from(s, i, row, col) == out_prepend(
                seq![(TokModel::Chr(p), row, col)],
                lex_from(s, i + 1, row, col + 1),
            ));
            let wt = abstr_tail(*b).len() as int;
            assert(s.subrange(i + 1, i + 1 + wt) =~= abstr_tail(*b)) by {
                assert forall|k: int| 0 <= k < wt implies s.subrange(i + 1, i + 1 + wt)[k]
                    == abstr_tail(*b)[k] by {
                    assert(abstr_tail(e)[1 + k] == abstr_tail(*b)[k]);
                    assert(s[i + 1 + k] == abstr_tail(e)[1 + k]);
                }
            }
            lemma_print_lex_tail(*b, s, i + 1, row, col + 1);
            lemma_out_prepend_assoc(
                seq![(TokModel::Chr(p), row, col)],
                tail_toks(*b, row, col + 1),
                lex_from(s, i + w, row, col + w),
            );
            assert(seq![(TokModel::Chr(p), row, col)] + tail_toks(*b, row, col + 1)
                =~= tail_toks(e, row, col));
        },
        _ => {
            assert(abstr_tail(e) == seq![46u8] + print_spec(e));
            assert(abstr_tail(e)[0] == 46);
            assert(s[i] == 46);
            assert(lex_from(s, i, row, col) == out_prepend(
                seq![(TokModel::DotTok, row, col)],
                lex_from(s, i + 1, row, col + 1),
            ));
            let wp = print_spec(e).len() as int;
            assert(s.subrange(i + 1, i + 1 + wp) =~= print_spec(e)) by {
                assert forall|k: int| 0 <= k < wp implies s.subrange(i + 1, i + 1 + wp)[k]
                    == print_spec(e)[k] by {
                    assert(abstr_tail(e)[1 + k] == print_spec(e)[k]);
                    assert(s[i + 1 + k] == abstr_tail(e)[1 + k]);
                }
            }
            lemma_print_lex(e, s, i + 1, row, col + 1);
            lemma_out_prepend_assoc(
                seq![(TokModel::DotTok, row, col)],
                print_toks(e, row, col + 1),
                lex_from(s, i + w, row, col + w),
            );
            assert(seq![(TokModel::DotTok, row, col)] + print_toks(e, row, col + 1) =~= tail_toks(
                e,
                row,
                col,
            ));
        },
    }
}

/// Lexing the surface form of a printable expression succeeds and yields
/// exactly the expression's token forms.
pub proof fn lemma_print_lexes(e: Expr)
    requires
        printable(e),
    ensures
        lex_from(print_spec(e), 0, 1, 1) == LexOut::Toks(print_toks(e, 1, 1)),
{
    let s = print_spec(e);
    assert(s.subrange(0, s.len() as int) =~= s);
    lemma_print_lex(e, s, 0, 1, 1);
    assert(lex_from(s, s.len() as int, 1, 1 + s.len() as int) == LexOut::Toks(
        Seq::<(TokModel, int, int)>::empty(),
    ));
    assert(print_toks(e, 1, 1) + Seq::<(TokModel, int, int)>::empty() =~= print_toks(e, 1, 1));
}

/// Structural likeness up to the identity of name strings: the shapes and
/// binders agree, and names agree as character sequences.
pub open spec fn sim(a: Expr, b: Expr) -> bool
    decreases a,
{
    match (a, b) {
        (Expr::Variable(v), Expr::Variable(w)) => v == w,
        (Expr::Name(n), Expr::Name(o)) => n@ == o@,
        (Expr::Abstr(v, c), Expr::Abstr(w, d)) => v == w && sim(*c, *d),
        (Expr::Appl(f, x), Expr::Appl(g, y)) => sim(*f, *g) && sim(*x, *y),
        _ => false,
    }
}

/// Alike expressions are alpha-equivalent.
pub proof fn lemma_sim_alpha(a: Expr, b: Expr)
    requires
        sim(a, b),
    ensures
        crate::expr::alpha_eq_spec(a, b),
    decreases a,
{
    match (a, b) {
        (Expr::Abstr(v, c), Expr::Abstr(w, d)) => {
            lemma_sim_alpha(*c, *d);
        },
        (Expr::Appl(f, x), Expr::Appl(g, y)) => {
            lemma_sim_alpha(*f, *g);
            lemma_sim_alpha(*x, *y);
        },
        _ => {},
    }
}

/// Likeness carries printability and the token forms across.
pub proof fn lemma_sim_printable(a: Expr, b: Expr)
    requires
        sim(a, b),
        printable(b),
    ensures
        printable(a),
    decreases a,
{
    match (a, b) {
        (Expr::Abstr(v, c), Expr::Abstr(w, d)) => {
            lemma_sim_printable(*c, *d);
        },
        (Expr::Appl(f, x), Expr::Appl(g, y)) => {
            lemma_sim_printable(*f, *g);
            lemma_sim_printable(*x, *y);
        },
        _ => {},
    }
}

/// The token kinds of a printed expression, position-free.
pub open spec fn ktoks(e: Expr) -> Seq<TokModel>
    decreases e, 0int,
{
    match e {
        Expr::Variable(v) => seq![TokModel::Chr(v)],
        Expr::Name(n) => seq![TokModel::Ident(n@)],
        Expr::Abstr(p, b) => seq![TokModel::Bslash, TokModel::Chr(p)] + ktail(*b),
        Expr::Appl(a, b) => {
            let head = if *a matches Expr::Abstr(_, _) {
                seq![TokModel::OpPar] + ktoks(*a) + seq![TokModel::ClPar]
            } else {
                ktoks(*a)
            };
            let arg = if (*b matches Expr::Appl(_, _)) || (*b matches Expr::Abstr(_, _)) {
                seq![TokModel::OpPar] + ktoks(*b) + seq![TokModel::ClPar]
            } else {
                ktoks(*b)
            };
            head + arg
        },
    }
}

/// The token kinds of the rest of a collapsed abstraction group.
pub open spec fn ktail(e: Expr) -> Seq<TokModel>
    decreases e, 1int,
{
    match e {
        Expr::Abstr(p, b) => seq![TokModel::Chr(p)] + ktail(*b),
        _ => seq![TokModel::DotTok] + ktoks(e),
    }
}

/// The positioned token forms project onto the position-free kinds.
pub proof fn lemma_print_toks_kinds(e: Expr, row: int, col: int)
    ensures
        print_toks(e, row, col).map(|_k: int, t: (TokModel, int, int)| t.0) == ktoks(e),
    decreases e, 0int,
{
    let proj = |_k: int, t: (TokModel, int, int)| t.0;
    match e {
        Expr::Variable(v) => {
            assert(print_toks(e, row, col).map(proj) =~= ktoks(e));
        },
        Expr::Name(n) => {
            assert(print_toks(e, row, col).map(proj) =~= ktoks(e));
        },
        Expr::Abstr(p, b) => {
            lemma_tail_toks_kinds(*b, row, col + 2);
            assert(print_toks(e, row, col).map(proj) =~= ktoks(e));
        },
        Expr::Appl(a, b) => {
            let wa = print_spec(*a).len() as int;
            let a_paren = *a matches Expr::Abstr(_, _);
            let hw = if a_paren {
                wa + 2
            } else {
                wa
            };
            lemma_print_toks_kinds(*a, row, if a_paren {
                col + 1
            } else {
                col
            });
            lemma_print_toks_kinds(*b, row, if (*b matches Expr::Appl(_, _)) || (*b
                matches Expr::Abstr(_, _)) {
                col + hw + 1
            } else {
                col + hw
            });
            assert(print_toks(e, row, col).map(proj) =~= ktoks(e));
        },
    }
}

proof fn lemma_tail_toks_kinds(e: Expr, row: int, col: int)
    ensures
        tail_toks(e, row, col).map(|_k: int, t: (TokModel, int, int)| t.0) == ktail(e),
    decreases e, 1int,
{
    let proj = |_k: int, t: (TokModel, int, int)| t.0;
    match e {
        Expr::Abstr(p, b) => {
            lemma_tail_toks_kinds(*b, row, col + 1);
            assert(tail_toks(e, row, col).map(proj) =~= ktail(e));
        },
        _ => {
            lemma_print_toks_kinds(e, row, col + 1);
            assert(tail_toks(e, row, col).map(proj) =~= ktail(e));
        },
    }
}

/// No printed token is an equals sign or a semicolon.
pub proof fn lemma_ktoks_no_stmt(e: Expr)
    ensures
        forall|k: int|
            0 <= k < ktoks(e).len() ==> !((#[trigger] ktoks(e)[k]) matches TokModel::Equ) && !(
            ktoks(e)[k] matches TokModel::Semi),
        forall|k: int|
            0 <= k < ktail(e).len() ==> !((#[trigger] ktail(e)[k]) matches TokModel::Equ) && !(
            ktail(e)[k] matches TokModel::Semi),
    decreases e,
{
    match e {
        Expr::Abstr(p, b) => {
            lemma_ktoks_no_stmt(*b);
        },
        Expr::Appl(a, b) => {
            lemma_ktoks_no_stmt(*a);
            lemma_ktoks_no_stmt(*b);
            assert forall|k: int| 0 <= k < ktoks(e).len() implies !((#[trigger] ktoks(
                e,
            )[k]) matches TokModel::Equ) && !(ktoks(e)[k] matches TokModel::Semi) by {
                let head = if *a matches Expr::Abstr(_, _) {
                    seq![TokModel::OpPar] + ktoks(*a) + seq![TokModel::ClPar]
                } else {
                    ktoks(*a)
                };
                let arg = if (*b matches Expr::Appl(_, _)) || (*b matches Expr::Abstr(_, _)) {
                    seq![TokModel::OpPar] + ktoks(*b) + seq![TokModel::ClPar]
                } else {
                    ktoks(*b)
                };
                assert(ktoks(e) == head + arg);
                if k < head.len() {
                    assert(ktoks(e)[k] == head[k]);
                } else {
                    assert(ktoks(e)[k] == arg[k - head.len()]);
                }
            }
        },
        _ => {},
    }
}

/// The abstraction parameters of a group, pushed onto the stack in binder
/// order.
pub open spec fn params_stack(s: Seq<crate::parse::Atom>, e: Expr) -> Seq<crate::parse::Atom>
    decreases e,
{
    match e {
        Expr::Abstr(p, b) => params_stack(s.push(crate::parse::Atom::AbstrParam(p)), *b),
        _ => s,
    }
}

/// Rewraps a fold result in the binder structure of an abstraction group.
pub open spec fn wrap_params(e: Expr, inner: Expr) -> Expr
    decreases e,
{
    match e {
        Expr::Abstr(p, b) => Expr::Abstr(p, Box::new(wrap_params(*b, inner))),
        _ => inner,
    }
}

/// Folding away pushed abstraction parameters wraps the top expression in
/// the binders, whichever fold is running.
pub proof fn lemma_fold_close_params(s: Seq<crate::parse::Atom>, e: Expr, inner: Expr)
    ensures
        crate::parse::fold_close(params_stack(s, e), inner) == crate::parse::fold_close(
            s,
            wrap_params(e, inner),
        ),
    decreases e,
{
    match e {
        Expr::Abstr(p, b) => {
            lemma_fold_close_params(s.push(crate::parse::Atom::AbstrParam(p)), *b, inner);
            let s2 = s.push(crate::parse::Atom::AbstrParam(p));
            assert(s2.last() == crate::parse::Atom::AbstrParam(p));
            assert(s2.drop_last() =~= s);
            assert(crate::parse::fold_close(s2, wrap_params(*b, inner))
                == crate::parse::fold_close(s, Expr::Abstr(p, Box::new(wrap_params(*b, inner)))));
        },
        _ => {},
    }
}

pub proof fn lemma_fold_end_params(
    s: Seq<crate::parse::Atom>,
    e: Expr,
    inner: Expr,
    defs: Map<Seq<char>, Expr>,
)
    ensures
        crate::parse::fold_end(params_stack(s, e), inner, defs) == crate::parse::fold_end(
            s,
            wrap_params(e, inner),
            defs,
        ),
    decreases e,
{
    match e {
        Expr::Abstr(p, b) => {
            lemma_fold_end_params(s.push(crate::parse::Atom::AbstrParam(p)), *b, inner, defs);
            let s2 = s.push(crate::parse::Atom::AbstrParam(p));
            assert(s2.last() == crate::parse::Atom::AbstrParam(p));
            assert(s2.drop_last() =~= s);
            assert(crate::parse::fold_end(s2, wrap_params(*b, inner), defs)
                == crate::parse::fold_end(
                s,
                Expr::Abstr(p, Box::new(wrap_params(*b, inner))),
                defs,
            ));
        },
        _ => {},
    }
}

/// Likeness is reflexive.
pub proof fn lemma_sim_refl(e: Expr)
    ensures
        sim(e, e),
    decreases e,
{
    match e {
        Expr::Abstr(_, b) => {
            lemma_sim_refl(*b);
        },
        Expr::Appl(a, b) => {
            lemma_sim_refl(*a);
            lemma_sim_refl(*b);
        },
        _ => {},
    }
}

/// Token kind sequences are never empty.
pub proof fn lemma_ktoks_len(e: Expr)
    ensures
        ktoks(e).len() >= 1,
        ktail(e).len() >= 1,
    decreases e,
{
    match e {
        Expr::Appl(a, b) => {
            lemma_ktoks_len(*a);
            lemma_ktoks_len(*b);
        },
        _ => {},
    }
}

/// Rewrapping an abstraction group around its own innermost body is the
/// identity.
pub proof fn lemma_wrap_inner_id(e: Expr)
    ensures
        wrap_params(e, abstr_inner(e)) == e,
    decreases e,
{
    match e {
        Expr::Abstr(p, b) => {
            lemma_wrap_inner_id(*b);
            assert(abstr_inner(e) == abstr_inner(*b));
        },
        _ => {},
    }
}

/// Pushing abstraction parameters never leaves an expression atom on top.
pub proof fn lemma_params_stack_top(s: Seq<crate::parse::Atom>, e: Expr)
    requires
        s.len() > 0,
        !(s.last() matches crate::parse::Atom::E(_)),
    ensures
        params_stack(s, e).len() >= s.len(),
        !(params_stack(s, e).last() matches crate::parse::Atom::E(_)),
    decreases e,
{
    match e {
        Expr::Abstr(p, b) => {
            lemma_params_stack_top(s.push(crate::parse::Atom::AbstrParam(p)), *b);
        },
        _ => {},
    }
}

/// The token kinds of an expression printed in argument position: a
/// parenthesized group for applications and abstractions, the bare kinds
/// otherwise.
pub open spec fn akinds(e: Expr) -> Seq<TokModel> {
    if (e matches Expr::Appl(_, _)) || (e matches Expr::Abstr(_, _)) {
        seq![TokModel::OpPar] + ktoks(e) + seq![TokModel::ClPar]
    } else {
        ktoks(e)
    }
}

/// Every token in the stream has a well-shaped kind.
pub open spec fn toks_wf(toks: Seq<TokenPos>) -> bool {
    forall|k: int| 0 <= k < toks.len() ==> crate::lex::kind_wf(tok_model(#[trigger] toks[k].tok))
}

/// Every expression a stack atom holds is printable, and every pending
/// binder is a letter.
pub open spec fn atom_printable(a: crate::parse::Atom) -> bool {
    match a {
        crate::parse::Atom::E(b) => printable(*b),
        crate::parse::Atom::AbstrParam(p) => is_var_byte(p),
        crate::parse::Atom::Definition(_) => true,
        crate::parse::Atom::ParenStart => true,
    }
}

pub open spec fn stack_printable(s: Seq<crate::parse::Atom>) -> bool {
    forall|k: int| 0 <= k < s.len() ==> atom_printable(#[trigger] s[k])
}

pub open spec fn defs_printable(d: Map<Seq<char>, Expr>) -> bool {
    forall|k: Seq<char>| #[trigger] d.contains_key(k) ==> printable(d[k])
}

proof fn lemma_append_printable(s: Seq<crate::parse::Atom>, e: Expr)
    requires
        stack_printable(s),
        printable(e),
    ensures
        stack_printable(crate::parse::append_spec(s, e)),
{
    let r = crate::parse::append_spec(s, e);
    if s.len() > 0 && (s.last() matches crate::parse::Atom::E(_)) {
        assert(atom_printable(s[s.len() - 1]));
        assert forall|k: int| 0 <= k < r.len() implies atom_printable(#[trigger] r[k]) by {
            if k < r.len() - 1 {
                assert(r[k] == s[k]);
            }
        }
    } else {
        assert forall|k: int| 0 <= k < r.len() implies atom_printable(#[trigger] r[k]) by {
            if k < r.len() - 1 {
                assert(r[k] == s[k]);
            }
        }
    }
}

proof fn lemma_fold_close_printable(s: Seq<crate::parse::Atom>, top: Expr)
    requires
        stack_printable(s),
        printable(top),
    ensures
        crate::parse::fold_close(s, top) matches Ok(p) ==> stack_printable(p.0) && printable(p.1),
    decreases s.len(),
{
    if s.len() > 0 {
        assert(atom_printable(s[s.len() - 1]));
        assert(stack_printable(s.drop_last())) by {
            assert(forall|k: int|
                0 <= k < s.drop_last().len() ==> #[trigger] s.drop_last()[k] == s[k]);
        }
        match s.last() {
            crate::parse::Atom::ParenStart => {},
            crate::parse::Atom::AbstrParam(p) => {
                lemma_fold_close_printable(s.drop_last(), Expr::Abstr(p, Box::new(top)));
            },
            crate::parse::Atom::E(e) => {
                lemma_fold_close_printable(s.drop_last(), Expr::Appl(e, Box::new(top)));
            },
            crate::parse::Atom::Definition(_) => {},
        }
    }
}

proof fn lemma_fold_stmt_printable(
    s: Seq<crate::parse::Atom>,
    top: Expr,
    d: Map<Seq<char>, Expr>,
)
    requires
        stack_printable(s),
        printable(top),
        defs_printable(d),
    ensures
        crate::parse::fold_stmt(s, top, d) matches Ok(d2) ==> defs_printable(d2),
    decreases s.len(),
{
    if s.len() > 0 {
        assert(atom_printable(s[s.len() - 1]));
        assert(stack_printable(s.drop_last())) by {
            assert(forall|k: int|
                0 <= k < s.drop_last().len() ==> #[trigger] s.drop_last()[k] == s[k]);
        }
        match s.last() {
            crate::parse::Atom::ParenStart => {},
            crate::parse::Atom::AbstrParam(p) => {
                lemma_fold_stmt_printable(s.drop_last(), Expr::Abstr(p, Box::new(top)), d);
            },
            crate::parse::Atom::E(e) => {
                lemma_fold_stmt_printable(s.drop_last(), Expr::Appl(e, Box::new(top)), d);
            },
            crate::parse::Atom::Definition(nm) => {
                assert forall|k: Seq<char>| #[trigger] d.insert(nm@, top).contains_key(
                    k,
                ) implies printable(d.insert(nm@, top)[k]) by {
                    if k != nm@ {
                        assert(d.contains_key(k));
                    }
                }
            },
        }
    }
}

proof fn lemma_fold_end_printable(s: Seq<crate::parse::Atom>, top: Expr, d: Map<Seq<char>, Expr>)
    requires
        stack_printable(s),
        printable(top),
        defs_printable(d),
    ensures
        crate::parse::fold_end(s, top, d) matches Ok(p) ==> defs_printable(p.0) && (p.1
            matches Some(e) ==> printable(e)),
    decreases s.len(),
{
    if s.len() > 0 {
        assert(atom_printable(s[s.len() - 1]));
        assert(stack_printable(s.drop_last())) by {
            assert(forall|k: int|
                0 <= k < s.drop_last().len() ==> #[trigger] s.drop_last()[k] == s[k]);
        }
        match s.last() {
            crate::parse::Atom::ParenStart => {},
            crate::parse::Atom::AbstrParam(p) => {
                lemma_fold_end_printable(s.drop_last(), Expr::Abstr(p, Box::new(top)), d);
            },
            crate::parse::Atom::E(e) => {
                lemma_fold_end_printable(s.drop_last(), Expr::Appl(e, Box::new(top)), d);
            },
            crate::parse::Atom::Definition(nm) => {
                assert forall|k: Seq<char>| #[trigger] d.insert(nm@, top).contains_key(
                    k,
                ) implies printable(d.insert(nm@, top)[k]) by {
                    if k != nm@ {
                        assert(d.contains_key(k));
                    }
                }
            },
        }
    }
}

/// Whatever the parser accepts from well-shaped tokens is printable: the
/// definitions and the main expression alike.
pub proof fn lemma_parse_printable(
    toks: Seq<TokenPos>,
    i: int,
    st: PState,
    stack: Seq<crate::parse::Atom>,
    defs: Map<Seq<char>, Expr>,
    g: int,
    c: int,
)
    requires
        toks_wf(toks),
        stack_printable(stack),
        defs_printable(defs),
    ensures
        parse_from(toks, i, st, stack, defs, g, c) matches ParseOut::Done(d, m)
            ==> defs_printable(d) && (m matches Some(e) ==> printable(e)),
    decreases toks.len() - i, 1int,
{
    if i < 0 {
    } else if i >= toks.len() {
        match st {
            PState::AbstrInit | PState::AbstrParams => {},
            _ => {
                if stack.len() == 0 {
                } else {
                    assert(atom_printable(stack[stack.len() - 1]));
                    assert(stack_printable(stack.drop_last())) by {
                        assert(forall|k: int|
                            0 <= k < stack.drop_last().len() ==> #[trigger] stack.drop_last()[k]
                                == stack[k]);
                    }
                    match stack.last() {
                        crate::parse::Atom::E(top) => {
                            lemma_fold_end_printable(stack.drop_last(), *top, defs);
                        },
                        _ => {},
                    }
                }
            },
        }
    } else {
        let tp = toks[i];
        assert(crate::lex::kind_wf(tok_model(toks[i].tok)));
        let row = tp.row as int;
        let col = tp.col as int;
        match (st, tp.tok) {
            (PState::Start, Token::Char(v)) | (PState::InExpr, Token::Char(v)) => {
                lemma_append_printable(stack, Expr::Variable(v));
                lemma_parse_printable(
                    toks,
                    i + 1,
                    PState::InExpr,
                    crate::parse::append_spec(stack, Expr::Variable(v)),
                    defs,
                    row,
                    col,
                );
            },
            (PState::Start, Token::Capitalized(nm)) => {
                assert(printable(Expr::Name(nm)));
                if i + 1 < toks.len() && (toks[i + 1].tok matches Token::Equals) {
                    let s2 = stack.push(crate::parse::Atom::Definition(nm));
                    assert(stack_printable(s2)) by {
                        assert(forall|k: int|
                            0 <= k < stack.len() ==> #[trigger] s2[k] == stack[k]);
                    }
                    lemma_parse_printable(toks, i + 2, PState::InExpr, s2, defs, row, col);
                } else {
                    lemma_append_printable(stack, Expr::Name(nm));
                    lemma_parse_printable(
                        toks,
                        i + 1,
                        PState::InExpr,
                        crate::parse::append_spec(stack, Expr::Name(nm)),
                        defs,
                        row,
                        col,
                    );
                }
            },
            (PState::InExpr, Token::Capitalized(nm)) => {
                assert(printable(Expr::Name(nm)));
                lemma_append_printable(stack, Expr::Name(nm));
                lemma_parse_printable(
                    toks,
                    i + 1,
                    PState::InExpr,
                    crate::parse::append_spec(stack, Expr::Name(nm)),
                    defs,
                    row,
                    col,
                );
            },
            (PState::Start, Token::OpParen) | (PState::InExpr, Token::OpParen) => {
                let s2 = stack.push(crate::parse::Atom::ParenStart);
                assert(stack_printable(s2)) by {
                    assert(forall|k: int| 0 <= k < stack.len() ==> #[trigger] s2[k] == stack[k]);
                }
                lemma_parse_printable(toks, i + 1, PState::InExpr, s2, defs, row, col);
            },
            (PState::Start, Token::ClParen) | (PState::InExpr, Token::ClParen) => {
                lemma_close_printable(toks, i, stack, defs, row, col);
            },
            (PState::Start, Token::Backslash) | (PState::InExpr, Token::Backslash) => {
                lemma_parse_printable(toks, i + 1, PState::AbstrInit, stack, defs, row, col);
            },
            (PState::AbstrInit, Token::Char(v)) | (PState::AbstrParams, Token::Char(v)) => {
                let s2 = stack.push(crate::parse::Atom::AbstrParam(v));
                assert(stack_printable(s2)) by {
                    assert(is_var_byte(v));
                    assert(forall|k: int| 0 <= k < stack.len() ==> #[trigger] s2[k] == stack[k]);
                }
                lemma_parse_printable(toks, i + 1, PState::AbstrParams, s2, defs, row, col);
            },
            (PState::AbstrParams, Token::Dot) => {
                lemma_parse_printable(toks, i + 1, PState::InExpr, stack, defs, row, col);
            },
            (PState::InExpr, Token::Semicolon) => {
                if stack.len() == 0 {
                } else {
                    assert(atom_printable(stack[stack.len() - 1]));
                    assert(stack_printable(stack.drop_last())) by {
                        assert(forall|k: int|
                            0 <= k < stack.drop_last().len() ==> #[trigger] stack.drop_last()[k]
                                == stack[k]);
                    }
                    match stack.last() {
                        crate::parse::Atom::E(top) => {
                            lemma_fold_stmt_printable(stack.drop_last(), *top, defs);
                            match crate::parse::fold_stmt(stack.drop_last(), *top, defs) {
                                Ok(d2) => {
                                    assert(stack_printable(Seq::<crate::parse::Atom>::empty()));
                                    lemma_parse_printable(
                                        toks,
                                        i + 1,
                                        PState::Start,
                                        Seq::empty(),
                                        d2,
                                        row,
                                        col,
                                    );
                                },
                                Err(_) => {},
                            }
                        },
                        _ => {},
                    }
                }
            },
            _ => {},
        }
    }
}

proof fn lemma_close_printable(
    toks: Seq<TokenPos>,
    i: int,
    stack: Seq<crate::parse::Atom>,
    defs: Map<Seq<char>, Expr>,
    row: int,
    col: int,
)
    requires
        toks_wf(toks),
        stack_printable(stack),
        defs_printable(defs),
    ensures
        crate::parse::close_step(toks, i, stack, defs, row, col) matches ParseOut::Done(d, m)
            ==> defs_printable(d) && (m matches Some(e) ==> printable(e)),
    decreases toks.len() - i, 0int,
{
    if 0 <= i && i < toks.len() && stack.len() > 0 {
        assert(atom_printable(stack[stack.len() - 1]));
        assert(stack_printable(stack.drop_last())) by {
            assert(forall|k: int|
                0 <= k < stack.drop_last().len() ==> #[trigger] stack.drop_last()[k] == stack[k]);
        }
        match stack.last() {
            crate::parse::Atom::E(top) => {
                lemma_fold_close_printable(stack.drop_last(), *top);
                match crate::parse::fold_close(stack.drop_last(), *top) {
                    Ok(p) => {
                        lemma_append_printable(p.0, p.1);
                        lemma_parse_printable(
                            toks,
                            i + 1,
                            PState::InExpr,
                            crate::parse::append_spec(p.0, p.1),
                            defs,
                            row,
                            col,
                        );
                    },
                    Err(_) => {},
                }
            },
            _ => {},
        }
    }
}

/// The tokens from position `i` carry exactly the given kinds.
pub open spec fn toks_match(toks: Seq<TokenPos>, i: int, ks: Seq<TokModel>) -> bool {
    &&& 0 <= i
    &&& i + ks.len() <= toks.len()
    &&& forall|k: int| 0 <= k < ks.len() ==> tok_model(#[trigger] toks[i + k].tok) == ks[k]
}

/// No token is an equals sign.
pub open spec fn no_equals(toks: Seq<TokenPos>) -> bool {
    forall|k: int| 0 <= k < toks.len() ==> !((#[trigger] toks[k].tok) matches Token::Equals)
}

proof fn lemma_toks_match_split(toks: Seq<TokenPos>, i: int, ks1: Seq<TokModel>, ks2: Seq<TokModel>)
    requires
        toks_match(toks, i, ks1 + ks2),
    ensures
        toks_match(toks, i, ks1),
        toks_match(toks, i + ks1.len(), ks2),
{
    assert forall|k: int| 0 <= k < ks1.len() implies tok_model(#[trigger] toks[i + k].tok)
        == ks1[k] by {
        assert((ks1 + ks2)[k] == ks1[k]);
    }
    assert forall|k: int| 0 <= k < ks2.len() implies tok_model(
        #[trigger] toks[i + ks1.len() + k].tok,
    ) == ks2[k] by {
        assert((ks1 + ks2)[ks1.len() + k] == ks2[k]);
        assert(tok_model(toks[i + (ks1.len() + k)].tok) == (ks1 + ks2)[ks1.len() + k]);
    }
}

proof fn lemma_model_char(t: Token, v: u8)
    requires
        tok_model(t) == TokModel::Chr(v),
    ensures
        t == Token::Char(v),
{
    match t {
        Token::Char(_) => {},
        _ => {
            assert(false);
        },
    }
}

proof fn lemma_model_simple(t: Token, m: TokModel)
    requires
        tok_model(t) == m,
    ensures
        m matches TokModel::Bslash ==> t == Token::Backslash,
        m matches TokModel::DotTok ==> t == Token::Dot,
        m matches TokModel::OpPar ==> t == Token::OpParen,
        m matches TokModel::ClPar ==> t == Token::ClParen,
{
    match t {
        Token::Char(_) => {},
        Token::Capitalized(_) => {},
        Token::Backslash => {},
        Token::Dot => {},
        Token::OpParen => {},
        Token::ClParen => {},
        Token::Equals => {},
        Token::Semicolon => {},
    }
}

/// Reparsing the token forms of a printed expression appends it to the
/// parser's stack, up to the identity of name strings.
proof fn lemma_parse_expr(
    e: Expr,
    toks: Seq<TokenPos>,
    i: int,
    st: PState,
    stack: Seq<crate::parse::Atom>,
    defs: Map<Seq<char>, Expr>,
    g: int,
    c: int,
) -> (e2: Expr)
    requires
        printable(e),
        !(e matches Expr::Abstr(_, _)),
        toks_match(toks, i, ktoks(e)),
        no_equals(toks),
        st == PState::Start || st == PState::InExpr,
        (e matches Expr::Appl(_, _)) ==> stack.len() == 0 || !(stack.last()
            matches crate::parse::Atom::E(_)),
    ensures
        sim(e2, e),
        parse_from(toks, i, st, stack, defs, g, c) == parse_from(
            toks,
            i + ktoks(e).len(),
            PState::InExpr,
            crate::parse::append_spec(stack, e2),
            defs,
            toks[i + ktoks(e).len() - 1].row as int,
            toks[i + ktoks(e).len() - 1].col as int,
        ),
    decreases e, 1int,
{
    lemma_ktoks_len(e);
    match e {
        Expr::Variable(v) => {
            assert(ktoks(e)[0] == TokModel::Chr(v));
            assert(tok_model(toks[i].tok) == TokModel::Chr(v)) by {
                assert(tok_model(toks[i + 0].tok) == ktoks(e)[0]);
            }
            lemma_model_char(toks[i].tok, v);
            lemma_sim_refl(e);
            e
        },
        Expr::Name(nm) => {
            assert(ktoks(e)[0] == TokModel::Ident(nm@));
            assert(tok_model(toks[i].tok) == TokModel::Ident(nm@)) by {
                assert(tok_model(toks[i + 0].tok) == ktoks(e)[0]);
            }
            let t = toks[i].tok;
            match t {
                Token::Capitalized(sname) => {
                    assert(sname@ == nm@);
                    if st == PState::Start {
                        if i + 1 < toks.len() {
                            assert(!(toks[i + 1].tok matches Token::Equals));
                        }
                    }
                    Expr::Name(sname)
                },
                _ => {
                    assert(false);
                    e
                },
            }
        },
        Expr::Appl(a, b) => {
            let headk = if *a matches Expr::Abstr(_, _) {
                seq![TokModel::OpPar] + ktoks(*a) + seq![TokModel::ClPar]
            } else {
                ktoks(*a)
            };
            let argk = akinds(*b);
            assert(headk == if *a matches Expr::Abstr(_, _) {
                akinds(*a)
            } else {
                ktoks(*a)
            });
            assert(ktoks(e) == headk + argk);
            lemma_toks_match_split(toks, i, headk, argk);
            let hw = headk.len() as int;
            let ea = if *a matches Expr::Appl(_, _) {
                lemma_parse_expr(*a, toks, i, st, stack, defs, g, c)
            } else if *a matches Expr::Abstr(_, _) {
                lemma_parse_atom(*a, toks, i, st, stack, defs, g, c)
            } else {
                lemma_parse_atom(*a, toks, i, st, stack, defs, g, c)
            };
            let stack2 = crate::parse::append_spec(stack, ea);
            let gm = toks[i + hw - 1].row as int;
            let cm = toks[i + hw - 1].col as int;
            assert(parse_from(toks, i, st, stack, defs, g, c) == parse_from(
                toks,
                i + hw,
                PState::InExpr,
                stack2,
                defs,
                gm,
                cm,
            ));
            let eb = lemma_parse_atom(*b, toks, i + hw, PState::InExpr, stack2, defs, gm, cm);
            let e2 = Expr::Appl(Box::new(ea), Box::new(eb));
            assert(crate::parse::append_spec(stack2, eb) =~= crate::parse::append_spec(
                stack,
                e2,
            )) by {
                if stack.len() == 0 || !(stack.last() matches crate::parse::Atom::E(_)) {
                    assert(stack2 == stack.push(crate::parse::Atom::E(Box::new(ea))));
                    assert(stack2.last() == crate::parse::Atom::E(Box::new(ea)));
                    assert(stack2.drop_last() =~= stack);
                }
            }
            assert(i + hw + argk.len() == i + ktoks(e).len());
            e2
        },
        _ => {
            assert(false);
            e
        },
    }
}

/// Reparsing an expression printed in argument position appends it to the
/// parser's stack, whatever already sits there.
proof fn lemma_parse_atom(
    e: Expr,
    toks: Seq<TokenPos>,
    i: int,
    st: PState,
    stack: Seq<crate::parse::Atom>,
    defs: Map<Seq<char>, Expr>,
    g: int,
    c: int,
) -> (e2: Expr)
    requires
        printable(e),
        toks_match(toks, i, akinds(e)),
        no_equals(toks),
        st == PState::Start || st == PState::InExpr,
    ensures
        sim(e2, e),
        parse_from(toks, i, st, stack, defs, g, c) == parse_from(
            toks,
            i + akinds(e).len(),
            PState::InExpr,
            crate::parse::append_spec(stack, e2),
            defs,
            toks[i + akinds(e).len() - 1].row as int,
            toks[i + akinds(e).len() - 1].col as int,
        ),
    decreases e, 2int,
{
    lemma_ktoks_len(e);
    match e {
        Expr::Appl(_, _) => {
            let nk = ktoks(e).len() as int;
            assert(akinds(e) == seq![TokModel::OpPar] + ktoks(e) + seq![TokModel::ClPar]);
            lemma_toks_match_split(toks, i, seq![TokModel::OpPar] + ktoks(e), seq![
                TokModel::ClPar,
            ]);
            lemma_toks_match_split(toks, i, seq![TokModel::OpPar], ktoks(e));
            assert(tok_model(toks[i].tok) == TokModel::OpPar) by {
                assert(tok_model(toks[i + 0].tok) == seq![TokModel::OpPar][0]);
            }
            lemma_model_simple(toks[i].tok, TokModel::OpPar);
            let stack1 = stack.push(crate::parse::Atom::ParenStart);
            assert(parse_from(toks, i, st, stack, defs, g, c) == parse_from(
                toks,
                i + 1,
                PState::InExpr,
                stack1,
                defs,
                toks[i].row as int,
                toks[i].col as int,
            ));
            let e2 = lemma_parse_expr(
                e,
                toks,
                i + 1,
                PState::InExpr,
                stack1,
                defs,
                toks[i].row as int,
                toks[i].col as int,
            );
            let stack2 = crate::parse::append_spec(stack1, e2);
            assert(stack2 == stack1.push(crate::parse::Atom::E(Box::new(e2))));
            assert(tok_model(toks[i + 1 + nk].tok) == TokModel::ClPar) by {
                assert(tok_model(toks[i + 1 + nk + 0].tok) == seq![TokModel::ClPar][0]);
            }
            lemma_model_simple(toks[i + 1 + nk].tok, TokModel::ClPar);
            assert(stack2.last() == crate::parse::Atom::E(Box::new(e2)));
            assert(stack2.drop_last() =~= stack1);
            assert(stack1.last() == crate::parse::Atom::ParenStart);
            assert(stack1.drop_last() =~= stack);
            assert(crate::parse::fold_close(stack1, e2) == Ok::<_, crate::parse::ParseErrKind>((
                stack,
                e2,
            )));
            assert(parse_from(toks, i + 1 + nk, PState::InExpr, stack2, defs, toks[i + nk].row
                as int, toks[i + nk].col as int) == crate::parse::close_step(
                toks,
                i + 1 + nk,
                stack2,
                defs,
                toks[i + 1 + nk].row as int,
                toks[i + 1 + nk].col as int,
            ));
            assert(crate::parse::close_step(
                toks,
                i + 1 + nk,
                stack2,
                defs,
                toks[i + 1 + nk].row as int,
                toks[i + 1 + nk].col as int,
            ) == parse_from(
                toks,
                i + 2 + nk,
                PState::InExpr,
                crate::parse::append_spec(stack, e2),
                defs,
                toks[i + 1 + nk].row as int,
                toks[i + 1 + nk].col as int,
            ));
            assert(akinds(e).len() == nk + 2);
            e2
        },
        Expr::Abstr(p, b) => {
            let tk = ktail(*b).len() as int;
            assert(ktoks(e) == seq![TokModel::Bslash, TokModel::Chr(p)] + ktail(*b));
            assert(akinds(e) == seq![TokModel::OpPar] + ktoks(e) + seq![TokModel::ClPar]);
            assert(akinds(e) =~= seq![TokModel::OpPar, TokModel::Bslash, TokModel::Chr(p)]
                + ktail(*b) + seq![TokModel::ClPar]);
            lemma_toks_match_split(
                toks,
                i,
                seq![TokModel::OpPar, TokModel::Bslash, TokModel::Chr(p)] + ktail(*b),
                seq![TokModel::ClPar],
            );
            lemma_toks_match_split(
                toks,
                i,
                seq![TokModel::OpPar, TokModel::Bslash, TokModel::Chr(p)],
                ktail(*b),
            );
            assert(tok_model(toks[i].tok) == TokModel::OpPar) by {
                assert(tok_model(toks[i + 0].tok) == seq![
                    TokModel::OpPar,
                    TokModel::Bslash,
                    TokModel::Chr(p),
                ][0]);
            }
            assert(tok_model(toks[i + 1].tok) == TokModel::Bslash);
            assert(tok_model(toks[i + 2].tok) == TokModel::Chr(p));
            lemma_model_simple(toks[i].tok, TokModel::OpPar);
            lemma_model_simple(toks[i + 1].tok, TokModel::Bslash);
            lemma_model_char(toks[i + 2].tok, p);
            let s1 = stack.push(crate::parse::Atom::ParenStart);
            let s2 = s1.push(crate::parse::Atom::AbstrParam(p));
            assert(parse_from(toks, i, st, stack, defs, g, c) == parse_from(
                toks,
                i + 1,
                PState::InExpr,
                s1,
                defs,
                toks[i].row as int,
                toks[i].col as int,
            ));
            assert(parse_from(toks, i + 1, PState::InExpr, s1, defs, toks[i].row as int, toks[i].col
                as int) == parse_from(
                toks,
                i + 2,
                PState::AbstrInit,
                s1,
                defs,
                toks[i + 1].row as int,
                toks[i + 1].col as int,
            ));
            assert(parse_from(toks, i + 2, PState::AbstrInit, s1, defs, toks[i + 1].row as int, toks[
                i + 1].col as int) == parse_from(
                toks,
                i + 3,
                PState::AbstrParams,
                s2,
                defs,
                toks[i + 2].row as int,
                toks[i + 2].col as int,
            ));
            let b2 = lemma_parse_tail(
                *b,
                toks,
                i + 3,
                s2,
                defs,
                toks[i + 2].row as int,
                toks[i + 2].col as int,
            );
            let ps = params_stack(s2, b2);
            lemma_params_stack_top(s2, b2);
            let inner = abstr_inner(b2);
            let s3 = crate::parse::append_spec(ps, inner);
            assert(s3 == ps.push(crate::parse::Atom::E(Box::new(inner))));
            assert(tok_model(toks[i + 3 + tk].tok) == TokModel::ClPar) by {
                assert(tok_model(toks[i + 3 + tk + 0].tok) == seq![TokModel::ClPar][0]);
            }
            lemma_model_simple(toks[i + 3 + tk].tok, TokModel::ClPar);
            assert(s3.last() == crate::parse::Atom::E(Box::new(inner)));
            assert(s3.drop_last() =~= ps);
            lemma_fold_close_params(s2, b2, inner);
            lemma_wrap_inner_id(b2);
            assert(crate::parse::fold_close(ps, inner) == crate::parse::fold_close(s2, b2));
            assert(s2.last() == crate::parse::Atom::AbstrParam(p));
            assert(s2.drop_last() =~= s1);
            assert(s1.last() == crate::parse::Atom::ParenStart);
            assert(s1.drop_last() =~= stack);
            let e2 = Expr::Abstr(p, Box::new(b2));
            assert(crate::parse::fold_close(s2, b2) == crate::parse::fold_close(s1, e2));
            assert(crate::parse::fold_close(s1, e2) == Ok::<_, crate::parse::ParseErrKind>((
                stack,
                e2,
            )));
            assert(parse_from(toks, i + 3 + tk, PState::InExpr, s3, defs, toks[i + 2 + tk].row
                as int, toks[i + 2 + tk].col as int) == crate::parse::close_step(
                toks,
                i + 3 + tk,
                s3,
                defs,
                toks[i + 3 + tk].row as int,
                toks[i + 3 + tk].col as int,
            ));
            assert(crate::parse::close_step(
                toks,
                i + 3 + tk,
                s3,
                defs,
                toks[i + 3 + tk].row as int,
                toks[i + 3 + tk].col as int,
            ) == parse_from(
                toks,
                i + 4 + tk,
                PState::InExpr,
                crate::parse::append_spec(stack, e2),
                defs,
                toks[i + 3 + tk].row as int,
                toks[i + 3 + tk].col as int,
            ));
            assert(akinds(e).len() == 4 + tk);
            e2
        },
        _ => {
            assert(akinds(e) == ktoks(e));
            lemma_parse_expr(e, toks, i, st, stack, defs, g, c)
        },
    }
}

/// Reparsing the tail of a collapsed abstraction group pushes its binders
/// and then its body.
proof fn lemma_parse_tail(
    b: Expr,
    toks: Seq<TokenPos>,
    i: int,
    stack: Seq<crate::parse::Atom>,
    defs: Map<Seq<char>, Expr>,
    g: int,
    c: int,
) -> (b2: Expr)
    requires
        printable(b),
        toks_match(toks, i, ktail(b)),
        no_equals(toks),
        stack.len() > 0,
        !(stack.last() matches crate::parse::Atom::E(_)),
    ensures
        sim(b2, b),
        parse_from(toks, i, PState::AbstrParams, stack, defs, g, c) == parse_from(
            toks,
            i + ktail(b).len(),
            PState::InExpr,
            crate::parse::append_spec(params_stack(stack, b2), abstr_inner(b2)),
            defs,
            toks[i + ktail(b).len() - 1].row as int,
            toks[i + ktail(b).len() - 1].col as int,
        ),
    decreases b, 3int,
{
    lemma_ktoks_len(b);
    match b {
        Expr::Abstr(p, inner_b) => {
            assert(ktail(b) == seq![TokModel::Chr(p)] + ktail(*inner_b));
            lemma_toks_match_split(toks, i, seq![TokModel::Chr(p)], ktail(*inner_b));
            assert(tok_model(toks[i].tok) == TokModel::Chr(p)) by {
                assert(tok_model(toks[i + 0].tok) == seq![TokModel::Chr(p)][0]);
            }
            lemma_model_char(toks[i].tok, p);
            let s1 = stack.push(crate::parse::Atom::AbstrParam(p));
            assert(parse_from(toks, i, PState::AbstrParams, stack, defs, g, c) == parse_from(
                toks,
                i + 1,
                PState::AbstrParams,
                s1,
                defs,
                toks[i].row as int,
                toks[i].col as int,
            ));
            let ib2 = lemma_parse_tail(
                *inner_b,
                toks,
                i + 1,
                s1,
                defs,
                toks[i].row as int,
                toks[i].col as int,
            );
            let b2 = Expr::Abstr(p, Box::new(ib2));
            assert(params_stack(stack, b2) == params_stack(s1, ib2));
            assert(abstr_inner(b2) == abstr_inner(ib2));
            b2
        },
        _ => {
            assert(ktail(b) == seq![TokModel::DotTok] + ktoks(b));
            lemma_toks_match_split(toks, i, seq![TokModel::DotTok], ktoks(b));
            assert(tok_model(toks[i].tok) == TokModel::DotTok) by {
                assert(tok_model(toks[i + 0].tok) == seq![TokModel::DotTok][0]);
            }
            lemma_model_simple(toks[i].tok, TokModel::DotTok);
            assert(parse_from(toks, i, PState::AbstrParams, stack, defs, g, c) == parse_from(
                toks,
                i + 1,
                PState::InExpr,
                stack,
                defs,
                toks[i].row as int,
                toks[i].col as int,
            ));
            let b2 = lemma_parse_expr(
                b,
                toks,
                i + 1,
                PState::InExpr,
                stack,
                defs,
                toks[i].row as int,
                toks[i].col as int,
            );
            assert(!(b2 matches Expr::Abstr(_, _)));
            assert(params_stack(stack, b2) == stack);
            assert(abstr_inner(b2) == b2);
            b2
        },
    }
}

/// Parsing exactly the token forms of a printed expression yields an
/// expression alike up to name-string identity, as the whole program's main
/// expression with no definitions.
proof fn lemma_toks_parse(e: Expr, toks: Seq<TokenPos>) -> (e2: Expr)
    requires
        printable(e),
        toks_match(toks, 0, ktoks(e)),
        toks.len() == ktoks(e).len(),
        no_equals(toks),
    ensures
        sim(e2, e),
        parse_from(toks, 0, PState::Start, Seq::empty(), Map::empty(), 0, 0) == ParseOut::Done(
            Map::empty(),
            Some(e2),
        ),
{
    lemma_ktoks_len(e);
    let n = ktoks(e).len() as int;
    match e {
        Expr::Abstr(p, b) => {
            let tk = ktail(*b).len() as int;
            assert(ktoks(e) == seq![TokModel::Bslash, TokModel::Chr(p)] + ktail(*b));
            lemma_toks_match_split(toks, 0, seq![TokModel::Bslash, TokModel::Chr(p)], ktail(*b));
            assert(tok_model(toks[0].tok) == TokModel::Bslash) by {
                assert(tok_model(toks[0int + 0].tok) == seq![TokModel::Bslash, TokModel::Chr(p)][0]);
            }
            assert(tok_model(toks[1].tok) == TokModel::Chr(p)) by {
                assert(tok_model(toks[0int + 1].tok) == seq![TokModel::Bslash, TokModel::Chr(p)][1]);
            }
            lemma_model_simple(toks[0].tok, TokModel::Bslash);
            lemma_model_char(toks[1].tok, p);
            let s0 = Seq::<crate::parse::Atom>::empty();
            let s1 = s0.push(crate::parse::Atom::AbstrParam(p));
            assert(parse_from(toks, 0, PState::Start, s0, Map::empty(), 0, 0) == parse_from(
                toks,
                1,
                PState::AbstrInit,
                s0,
                Map::empty(),
                toks[0].row as int,
                toks[0].col as int,
            ));
            assert(parse_from(toks, 1, PState::AbstrInit, s0, Map::empty(), toks[0].row as int, toks[
                0].col as int) == parse_from(
                toks,
                2,
                PState::AbstrParams,
                s1,
                Map::empty(),
                toks[1].row as int,
                toks[1].col as int,
            ));
            let b2 = lemma_parse_tail(
                *b,
                toks,
                2,
                s1,
                Map::empty(),
                toks[1].row as int,
                toks[1].col as int,
            );
            let ps = params_stack(s1, b2);
            lemma_params_stack_top(s1, b2);
            let inner = abstr_inner(b2);
            let s3 = crate::parse::append_spec(ps, inner);
            assert(s3 == ps.push(crate::parse::Atom::E(Box::new(inner))));
            assert(s3.last() == crate::parse::Atom::E(Box::new(inner)));
            assert(s3.drop_last() =~= ps);
            lemma_fold_end_params(s1, b2, inner, Map::empty());
            lemma_wrap_inner_id(b2);
            let e2 = Expr::Abstr(p, Box::new(b2));
            assert(crate::parse::fold_end(ps, inner, Map::empty()) == crate::parse::fold_end(
                s1,
                b2,
                Map::empty(),
            ));
            assert(s1.last() == crate::parse::Atom::AbstrParam(p));
            assert(s1.drop_last() =~= s0);
            assert(crate::parse::fold_end(s1, b2, Map::empty()) == crate::parse::fold_end(
                s0,
                e2,
                Map::empty(),
            ));
            assert(crate::parse::fold_end(s0, e2, Map::empty()) == Ok::<
                _,
                crate::parse::ParseErrKind,
            >((Map::<Seq<char>, Expr>::empty(), Some(e2))));
            assert(2 + tk == n);
            assert(parse_from(toks, n, PState::InExpr, s3, Map::empty(), toks[n - 1].row as int,
                toks[n - 1].col as int) == ParseOut::Done(Map::empty(), Some(e2)));
            e2
        },
        _ => {
            let e2 = lemma_parse_expr(
                e,
                toks,
                0,
                PState::Start,
                Seq::empty(),
                Map::empty(),
                0,
                0,
            );
            let s1 = crate::parse::append_spec(Seq::empty(), e2);
            assert(s1 == Seq::<crate::parse::Atom>::empty().push(
                crate::parse::Atom::E(Box::new(e2)),
            ));
            assert(s1.last() == crate::parse::Atom::E(Box::new(e2)));
            assert(s1.drop_last() =~= Seq::<crate::parse::Atom>::empty());
            assert(crate::parse::fold_end(
                Seq::<crate::parse::Atom>::empty(),
                e2,
                Map::empty(),
            ) == Ok::<_, crate::parse::ParseErrKind>((
                Map::<Seq<char>, Expr>::empty(),
                Some(e2),
            )));
            assert(parse_from(toks, n, PState::InExpr, s1, Map::empty(), toks[n - 1].row as int,
                toks[n - 1].col as int) == ParseOut::Done(Map::empty(), Some(e2)));
            e2
        },
    }
}

/// The parse/print round trip: lexing the surface form of a printable
/// expression yields its token forms, and parsing any tokens of those forms
/// gives back an alpha-equivalent expression as the program's main
/// expression, with no definitions.
pub proof fn lemma_print_parse_round_trip(e: Expr, toks: Seq<TokenPos>) -> (e2: Expr)
    requires
        printable(e),
        crate::lex::toks_model(toks) == print_toks(e, 1, 1),
    ensures
        lex_from(print_spec(e), 0, 1, 1) == LexOut::Toks(print_toks(e, 1, 1)),
        sim(e2, e),
        crate::expr::alpha_eq_spec(e2, e),
        parse_from(toks, 0, PState::Start, Seq::empty(), Map::empty(), 0, 0) == ParseOut::Done(
            Map::empty(),
            Some(e2),
        ),
{
    lemma_print_lexes(e);
    lemma_print_toks_kinds(e, 1, 1);
    lemma_ktoks_no_stmt(e);
    let models = crate::lex::toks_model(toks);
    assert(toks.len() == ktoks(e).len()) by {
        assert(models.len() == print_toks(e, 1, 1).len());
        assert(print_toks(e, 1, 1).map(|_k: int, t: (TokModel, int, int)| t.0).len() == ktoks(
            e,
        ).len());
    }
    assert forall|k: int| 0 <= k < ktoks(e).len() implies tok_model(#[trigger] toks[0 + k].tok)
        == ktoks(e)[k] by {
        assert(models[k] == crate::lex::tokpos_model(toks[k]));
        assert(models[k].0 == print_toks(e, 1, 1)[k].0);
        assert(print_toks(e, 1, 1).map(|_k2: int, t: (TokModel, int, int)| t.0)[k] == print_toks(
            e,
            1,
            1,
        )[k].0);
    }
    assert(no_equals(toks)) by {
        assert forall|k: int| 0 <= k < toks.len() implies !((#[trigger] toks[k].tok)
            matches Token::Equals) by {
            assert(tok_model(toks[0int + k].tok) == ktoks(e)[k]);
            assert(!(ktoks(e)[k] matches TokModel::Equ));
            match toks[k].tok {
                Token::Equals => {
                    assert(false);
                },
                _ => {},
            }
        }
    }
    let e2 = lemma_toks_parse(e, toks);
    lemma_sim_alpha(e2, e);
    e2
}

/// What lexing and parsing a source accepts is always printable: the
/// tokens of any successful lex are well shaped, and every definition and
/// main expression parsed from them is a printable expression — so the
/// parse/print round trip applies to it.
pub proof fn lemma_parsed_is_printable(input: Seq<u8>, toks: Seq<TokenPos>)
    requires
        lex_from(input, 0, 1, 1) == LexOut::Toks(crate::lex::toks_model(toks)),
    ensures
        toks_wf(toks),
        parse_from(toks, 0, PState::Start, Seq::empty(), Map::empty(), 0, 0)
            matches ParseOut::Done(d, m) ==> defs_printable(d) && (m matches Some(e)
            ==> printable(e)),
{
    let models = crate::lex::toks_model(toks);
    crate::lex::lemma_lex_kinds_wf(input, 0, 1, 1, models);
    assert forall|k: int| 0 <= k < toks.len() implies crate::lex::kind_wf(
        tok_model(#[trigger] toks[k].tok),
    ) by {
        assert(models[k] == crate::lex::tokpos_model(toks[k]));
        assert(crate::lex::kind_wf(models[k].0));
    }
    assert(stack_printable(Seq::<crate::parse::Atom>::empty()));
    lemma_parse_printable(toks, 0, PState::Start, Seq::empty(), Map::empty(), 0, 0);
}

} // verus!
