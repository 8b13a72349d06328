use vstd::prelude::*;

use crate::expr::{
    alpha_eq_spec, church_spec, defs_wf, fv, is_var_byte, lemma_alpha_eq_refl, lemma_church_wf,
    lemma_fv_letters, lemma_size_pos, size_spec, wf, Defs, Expr, VAR_FIRST, VAR_LAST,
};

verus! {

/// The iteration budget of the reduction driver.
pub const MAX_ITERATIONS: u64 = 10000000;

/// The tree-size budget of the reduction driver.
pub const MAX_SIZE: u64 = 10000000;

/// Why evaluation failed: a budget was exceeded, or no fresh variable letter
/// was left for renaming.
#[derive(Clone, Copy, Debug, PartialEq, Eq)]
pub enum EvalErrorKind {
    SizeLimit(u64),
    IterationLimit,
    VarsExhausted,
}

/// An evaluation error.
#[derive(Clone, Debug)]
pub struct EvalError {
    pub kind: EvalErrorKind,
}

/// Relies on `format!` to render the size that exceeded the budget; the
/// exact text is presentation only.
#[verifier::external_body]
fn size_error_text(size: u64, max: u64) -> String {
    format!("Size outgrew maximum size: {} out of {}", size, max)
}

impl EvalError {
    /// A human-readable description of the error.
    pub fn message(&self) -> (r: String)
        ensures
            self.kind matches EvalErrorKind::IterationLimit ==> r@ == (
            "Iteration limit reached: 10000000"@),
            self.kind matches EvalErrorKind::VarsExhausted ==> r@ == ("Ran out of variables"@),
    {
        match &self.kind {
            EvalErrorKind::SizeLimit(s) => size_error_text(*s, MAX_SIZE),
            EvalErrorKind::IterationLimit => "Iteration limit reached: 10000000".to_owned(),
            EvalErrorKind::VarsExhausted => "Ran out of variables".to_owned(),
        }
    }
}

/// A natural number clamped to the `u64` range.
pub open spec fn cap64(n: nat) -> u64 {
    if n <= u64::MAX {
        n as u64
    } else {
        u64::MAX
    }
}

fn sat_add(a: u64, b: u64) -> (r: u64)
    ensures
        r == cap64(a as nat + b as nat),
{
    if a > u64::MAX - b {
        u64::MAX
    } else {
        a + b
    }
}

// ------------------------------------------------------------------
// Decimal numerals
// ------------------------------------------------------------------
pub open spec fn is_digit_char(c: char) -> bool {
    48 <= (c as u32) && (c as u32) <= 57
}

pub open spec fn all_digit_chars(s: Seq<char>) -> bool {
    forall|i: int| 0 <= i < s.len() ==> is_digit_char(#[trigger] s[i])
}

/// The value of a digit string read in base ten.
pub open spec fn dec_val(s: Seq<char>) -> nat
    decreases s.len(),
{
    if s.len() == 0 {
        0
    } else {
        (dec_val(s.drop_last()) * 10 + ((s.last() as u32) - 48)) as nat
    }
}

/// The number a name denotes, when it is a non-empty string of decimal
/// digits whose value fits a `u32`.
pub open spec fn numeral_of(s: Seq<char>) -> Option<nat> {
    if s.len() > 0 && vstd::utf8::is_ascii_chars(s) && all_digit_chars(s) && dec_val(s)
        <= u32::MAX {
        Some(dec_val(s))
    } else {
        None
    }
}

proof fn lemma_dec_val_grows(s: Seq<char>, i: int)
    requires
        0 <= i <= s.len(),
        all_digit_chars(s),
    ensures
        dec_val(s.take(i)) <= dec_val(s),
    decreases s.len() - i,
{
    if i < s.len() {
        lemma_dec_val_grows(s, i + 1);
        assert(s.take(i + 1).drop_last() =~= s.take(i));
        assert(s.take(i + 1).last() == s[i]);
        assert(dec_val(s.take(i + 1)) == dec_val(s.take(i)) * 10 + ((s[i] as u32) - 48));
    } else {
        assert(s.take(i) =~= s);
    }
}

/// Reads a name as a decimal `u32`, the way the reducer interprets
/// unresolved numeric names.
pub fn parse_dec(s: &String) -> (r: Option<u32>)
    ensures
        r == match numeral_of(s@) {
            Some(n) => Some(n as u32),
            None => None::<u32>,
        },
{
    let st = s.as_str();
    if !st.is_ascii() {
        return None;
    }
    let bytes = st.as_bytes();
    proof {
        vstd::string::is_ascii_spec_bytes(st);
        assert(bytes@ =~= Seq::new(s@.len(), |i: int| s@[i] as u8));
        vstd::utf8::is_ascii_chars_nat_bound(s@);
    }
    let n = bytes.len();
    if n == 0 {
        return None;
    }
    let mut val: u32 = 0;
    let mut i: usize = 0;
    while i < n
        invariant
            n == s@.len(),
            bytes@ == Seq::new(s@.len(), |k: int| s@[k] as u8),
            vstd::utf8::is_ascii_chars(s@),
            forall|k: int| 0 <= k < s@.len() ==> (#[trigger] s@[k]) as nat <= 127,
            0 <= i <= n,
            all_digit_chars(s@.take(i as int)),
            val == dec_val(s@.take(i as int)),
        decreases n - i,
    {
        let b = bytes[i];
        proof {
            assert(b == s@[i as int] as u8);
            assert((s@[i as int]) as nat <= 127);
            assert(b as u32 == s@[i as int] as u32);
        }
        if b < 48 || b > 57 {
            proof {
                assert(!is_digit_char(s@[i as int]));
            }
            return None;
        }
        let d: u32 = (b - 48) as u32;
        proof {
            assert(is_digit_char(s@[i as int]));
            assert(d == (s@[i as int] as u32) - 48);
        }
        let next: u64 = (val as u64) * 10 + (d as u64);
        if next > u32::MAX as u64 {
            proof {
                assert(s@.take(i as int + 1).drop_last() =~= s@.take(i as int));
                assert(s@.take(i as int + 1).last() == s@[i as int]);
                assert(dec_val(s@.take(i as int + 1)) > u32::MAX);
                if all_digit_chars(s@) {
                    lemma_dec_val_grows(s@, i as int + 1);
                }
            }
            return None;
        }
        proof {
            assert(s@.take(i as int + 1).drop_last() =~= s@.take(i as int));
            assert(s@.take(i as int + 1).last() == s@[i as int]);
        }
        val = next as u32;
        i = i + 1;
    }
    proof {
        assert(s@.take(n as int) =~= s@);
    }
    Some(val)
}

// ------------------------------------------------------------------
// Variable renaming and fresh letters
// ------------------------------------------------------------------
/// Replaces every free occurrence of the variable `from` with the variable
/// `to`, leaving shadowed occurrences alone.
pub open spec fn replace_spec(e: Expr, from: u8, to: u8) -> Expr
    decreases e,
{
    match e {
        Expr::Name(_) => e,
        Expr::Appl(a, b) => Expr::Appl(
            Box::new(replace_spec(*a, from, to)),
            Box::new(replace_spec(*b, from, to)),
        ),
        Expr::Abstr(v, b) => if v == from {
            e
        } else {
            Expr::Abstr(v, Box::new(replace_spec(*b, from, to)))
        },
        Expr::Variable(v) => if v == from {
            Expr::Variable(to)
        } else {
            e
        },
    }
}

pub proof fn lemma_replace_size(e: Expr, from: u8, to: u8)
    ensures
        size_spec(replace_spec(e, from, to)) == size_spec(e),
    decreases e,
{
    match e {
        Expr::Appl(a, b) => {
            lemma_replace_size(*a, from, to);
            lemma_replace_size(*b, from, to);
        },
        Expr::Abstr(v, b) => {
            if v != from {
                lemma_replace_size(*b, from, to);
            }
        },
        _ => {},
    }
}

pub proof fn lemma_replace_wf(e: Expr, from: u8, to: u8)
    requires
        wf(e),
        is_var_byte(to),
    ensures
        wf(replace_spec(e, from, to)),
    decreases e,
{
    match e {
        Expr::Appl(a, b) => {
            lemma_replace_wf(*a, from, to);
            lemma_replace_wf(*b, from, to);
        },
        Expr::Abstr(v, b) => {
            if v != from {
                lemma_replace_wf(*b, from, to);
            }
        },
        _ => {},
    }
}

/// The effect of renaming on free variables: `from` leaves the set, other
/// letters (apart from the new name, which an inner binder of the same
/// letter may capture) are untouched.
pub proof fn lemma_replace_fv(e: Expr, from: u8, to: u8)
    requires
        from != to,
    ensures
        !fv(replace_spec(e, from, to)).contains(from),
        forall|x: u8|
            x != from && x != to ==> (fv(replace_spec(e, from, to)).contains(x) == fv(e).contains(
                x,
            )),
        fv(e).contains(from) || fv(replace_spec(e, from, to)) == fv(e),
    decreases e,
{
    match e {
        Expr::Name(_) => {},
        Expr::Variable(v) => {},
        Expr::Appl(a, b) => {
            lemma_replace_fv(*a, from, to);
            lemma_replace_fv(*b, from, to);
            let ra = replace_spec(*a, from, to);
            let rb = replace_spec(*b, from, to);
            assert(replace_spec(e, from, to) == Expr::Appl(Box::new(ra), Box::new(rb)));
            assert(fv(replace_spec(e, from, to)) == fv(ra).union(fv(rb)));
            if !fv(e).contains(from) {
                assert(fv(replace_spec(e, from, to)) =~= fv(e));
            }
        },
        Expr::Abstr(v, b) => {
            if v == from {
                assert(fv(replace_spec(e, from, to)) == fv(e));
                assert(!fv(e).contains(from));
            } else {
                lemma_replace_fv(*b, from, to);
                let rb = replace_spec(*b, from, to);
                assert(replace_spec(e, from, to) == Expr::Abstr(v, Box::new(rb)));
                assert(fv(replace_spec(e, from, to)) == fv(rb).remove(v));
                if !fv(e).contains(from) {
                    if fv(*b).contains(from) {
                        assert(v == from);
                        assert(false);
                    } else {
                        assert(fv(replace_spec(e, from, to)) =~= fv(e));
                    }
                }
            }
        },
    }
}

/// The first letter from `c` upward that is not taken, or 0 when every
/// letter through `z` is taken.
pub open spec fn first_free(taken: Set<u8>, c: u8) -> u8
    decreases 123 - c,
{
    if c < VAR_FIRST || c > VAR_LAST {
        0
    } else if !taken.contains(c) {
        c
    } else {
        first_free(taken, (c + 1) as u8)
    }
}

/// Some lowercase letter is not in the set.
pub open spec fn has_free_letter(taken: Set<u8>) -> bool {
    exists|l: u8| is_var_byte(l) && !taken.contains(l)
}

proof fn lemma_first_free(taken: Set<u8>, c: u8)
    requires
        VAR_FIRST <= c <= VAR_LAST,
        exists|l: u8| c <= l <= VAR_LAST && !taken.contains(l),
    ensures
        is_var_byte(first_free(taken, c)),
        !taken.contains(first_free(taken, c)),
        c <= first_free(taken, c),
    decreases 123 - c,
{
    if taken.contains(c) {
        let w = choose|l: u8| c <= l <= VAR_LAST && !taken.contains(l);
        assert(c + 1 <= w <= VAR_LAST && !taken.contains(w));
        lemma_first_free(taken, (c + 1) as u8);
    }
}

/// Picks the first lowercase letter outside the taken set: the fresh name
/// used when a binder must be renamed.
pub fn alpha_next(taken: &std::collections::HashSet<u8>) -> (r: u8)
    requires
        has_free_letter(taken@),
    ensures
        r == first_free(taken@, VAR_FIRST),
        is_var_byte(r),
        !taken@.contains(r),
{
    match alpha_next_opt(taken) {
        Some(l) => l,
        None => {
            proof {
                assert(false);
            }
            0
        },
    }
}

fn alpha_next_opt(taken: &std::collections::HashSet<u8>) -> (r: Option<u8>)
    ensures
        match r {
            Some(l) => l == first_free(taken@, VAR_FIRST) && is_var_byte(l) && !taken@.contains(l)
                && has_free_letter(taken@),
            None => !has_free_letter(taken@),
        },
{
    let mut l: u8 = VAR_FIRST;
    while l <= VAR_LAST
        invariant
            VAR_FIRST <= l <= VAR_LAST + 1,
            forall|x: u8| VAR_FIRST <= x < l ==> taken@.contains(x),
            first_free(taken@, VAR_FIRST) == if l <= VAR_LAST {
                first_free(taken@, l)
            } else {
                0u8
            },
        decreases VAR_LAST + 1 - l,
    {
        if !taken.contains(&l) {
            proof {
                assert(first_free(taken@, l) == l);
                assert(is_var_byte(l) && !taken@.contains(l));
                assert(has_free_letter(taken@));
            }
            return Some(l);
        }
        proof {
            assert(first_free(taken@, l) == first_free(taken@, (l + 1) as u8));
        }
        l = l + 1;
    }
    proof {
        assert forall|x: u8| is_var_byte(x) implies taken@.contains(x) by {}
    }
    None
}

/// Renames the bound variable `par` of `body` to a fresh letter outside both
/// the body's free variables and the given taken set.
pub fn alpha(par: u8, body: Box<Expr>, to_taken: &std::collections::HashSet<u8>) -> (r: (
    u8,
    Box<Expr>,
))
    requires
        wf(*body),
        forall|b: u8| to_taken@.contains(b) ==> is_var_byte(b),
        has_free_letter(fv(*body).union(to_taken@)),
    ensures
        r.0 == first_free(fv(*body).union(to_taken@), VAR_FIRST),
        is_var_byte(r.0),
        !fv(*body).contains(r.0),
        !to_taken@.contains(r.0),
        *r.1 == replace_spec(*body, par, r.0),
{
    let mut taken = body.unbounds();
    union_letters(&mut taken, to_taken);
    let unused = alpha_next(&taken);
    (unused, replace_var(body, par, unused))
}

/// Adds every letter of `src` to `dst`.
fn union_letters(dst: &mut std::collections::HashSet<u8>, src: &std::collections::HashSet<u8>)
    requires
        forall|b: u8| src@.contains(b) ==> is_var_byte(b),
    ensures
        final(dst)@ == old(dst)@.union(src@),
{
    let ghost orig = dst@;
    let mut l: u8 = VAR_FIRST;
    while l <= VAR_LAST
        invariant
            VAR_FIRST <= l <= VAR_LAST + 1,
            dst@ == orig.union(src@.intersect(crate::expr::letters_below(l))),
        decreases VAR_LAST + 1 - l,
    {
        if src.contains(&l) {
            dst.insert(l);
        }
        proof {
            assert(dst@ =~= orig.union(
                src@.intersect(crate::expr::letters_below((l + 1) as u8)),
            ));
        }
        l = l + 1;
    }
    proof {
        assert forall|x: u8| src@.contains(x) implies crate::expr::letters_below(l).contains(
            x,
        ) by {
            assert(is_var_byte(x));
        }
        assert(src@.intersect(crate::expr::letters_below(l)) =~= src@);
        assert(dst@ =~= orig.union(src@));
    }
}

/// Replaces free occurrences of the variable `from` with the variable `to`.
pub fn replace_var(expr: Box<Expr>, from: u8, to: u8) -> (r: Box<Expr>)
    ensures
        *r == replace_spec(*expr, from, to),
    decreases *expr,
{
    let (ex, eb) = empty_box::EmptyBox::take(expr);
    eb.put(
        match ex {
            Expr::Name(s) => Expr::Name(s),
            Expr::Appl(a, b) => Expr::Appl(replace_var(a, from, to), replace_var(b, from, to)),
            Expr::Abstr(v, b) => {
                if v == from {
                    Expr::Abstr(v, b)
                } else {
                    Expr::Abstr(v, replace_var(b, from, to))
                }
            },
            Expr::Variable(v) => {
                if v == from {
                    Expr::Variable(to)
                } else {
                    Expr::Variable(v)
                }
            },
        },
    )
}

// ------------------------------------------------------------------
// Capture-avoiding substitution
// ------------------------------------------------------------------
/// The protected letters of a substitution: whatever is free in the argument
/// together with the variable being substituted.
pub open spec fn prot(from: u8, to: Expr) -> Set<u8> {
    fv(to).insert(from)
}

/// Substitution of `to` for the free occurrences of `from`: binders equal to
/// `from` shadow it, binders among the protected letters are renamed to the
/// first free letter before descending.
pub open spec fn beta_spec(e: Expr, from: u8, to: Expr) -> Expr
    decreases size_spec(e),
    via beta_spec_dec
{
    match e {
        Expr::Name(_) => e,
        Expr::Appl(a, b) => Expr::Appl(
            Box::new(beta_spec(*a, from, to)),
            Box::new(beta_spec(*b, from, to)),
        ),
        Expr::Abstr(v, b) => {
            if v == from {
                e
            } else if prot(from, to).contains(v) {
                let w2 = first_free(fv(*b).union(prot(from, to)), VAR_FIRST);
                Expr::Abstr(w2, Box::new(beta_spec(replace_spec(*b, v, w2), from, to)))
            } else {
                Expr::Abstr(v, Box::new(beta_spec(*b, from, to)))
            }
        },
        Expr::Variable(v) => if v == from {
            to
        } else {
            e
        },
    }
}

#[via_fn]
proof fn beta_spec_dec(e: Expr, from: u8, to: Expr) {
    match e {
        Expr::Appl(a, b) => {
            lemma_size_pos(*a);
            lemma_size_pos(*b);
        },
        Expr::Abstr(v, b) => {
            if v != from && prot(from, to).contains(v) {
                let w2 = first_free(fv(*b).union(prot(from, to)), VAR_FIRST);
                lemma_replace_size(*b, v, w2);
            }
        },
        _ => {},
    }
}

/// Substitution succeeds without exhausting the letter pool: wherever a
/// binder must be renamed, some lowercase letter is still free.
pub open spec fn beta_ok(e: Expr, from: u8, to: Expr) -> bool
    decreases size_spec(e),
    via beta_ok_dec
{
    match e {
        Expr::Name(_) => true,
        Expr::Appl(a, b) => beta_ok(*a, from, to) && beta_ok(*b, from, to),
        Expr::Abstr(v, b) => {
            if v == from {
                true
            } else if prot(from, to).contains(v) {
                has_free_letter(fv(*b).union(prot(from, to))) && beta_ok(
                    replace_spec(*b, v, first_free(fv(*b).union(prot(from, to)), VAR_FIRST)),
                    from,
                    to,
                )
            } else {
                beta_ok(*b, from, to)
            }
        },
        Expr::Variable(_) => true,
    }
}

#[via_fn]
proof fn beta_ok_dec(e: Expr, from: u8, to: Expr) {
    match e {
        Expr::Appl(a, b) => {
            lemma_size_pos(*a);
            lemma_size_pos(*b);
        },
        Expr::Abstr(v, b) => {
            if v != from && prot(from, to).contains(v) {
                let w2 = first_free(fv(*b).union(prot(from, to)), VAR_FIRST);
                lemma_replace_size(*b, v, w2);
            }
        },
        _ => {},
    }
}

/// How many free occurrences of `v` an expression has.
pub open spec fn occ_spec(e: Expr, v: u8) -> nat
    decreases e,
{
    match e {
        Expr::Variable(u) => if u == v {
            1nat
        } else {
            0nat
        },
        Expr::Name(_) => 0,
        Expr::Abstr(w, b) => if w == v {
            0nat
        } else {
            occ_spec(*b, v)
        },
        Expr::Appl(a, b) => occ_spec(*a, v) + occ_spec(*b, v),
    }
}

proof fn lemma_replace_occ(e: Expr, w: u8, w2: u8, v: u8)
    requires
        v != w,
        v != w2,
    ensures
        occ_spec(replace_spec(e, w, w2), v) == occ_spec(e, v),
    decreases e,
{
    match e {
        Expr::Appl(a, b) => {
            lemma_replace_occ(*a, w, w2, v);
            lemma_replace_occ(*b, w, w2, v);
        },
        Expr::Abstr(p, b) => {
            if p != w {
                lemma_replace_occ(*b, w, w2, v);
            }
        },
        _ => {},
    }
}

/// Substitution keeps the tree well formed.
pub proof fn lemma_beta_wf(e: Expr, from: u8, to: Expr)
    requires
        wf(e),
        wf(to),
        beta_ok(e, from, to),
    ensures
        wf(beta_spec(e, from, to)),
    decreases size_spec(e),
{
    match e {
        Expr::Appl(a, b) => {
            lemma_size_pos(*a);
            lemma_size_pos(*b);
            lemma_beta_wf(*a, from, to);
            lemma_beta_wf(*b, from, to);
        },
        Expr::Abstr(v, b) => {
            if v == from {
            } else if prot(from, to).contains(v) {
                let taken = fv(*b).union(prot(from, to));
                let w2 = first_free(taken, VAR_FIRST);
                assert(exists|l: u8| VAR_FIRST <= l <= VAR_LAST && !taken.contains(l)) by {
                    let w = choose|l: u8| is_var_byte(l) && !taken.contains(l);
                    assert(VAR_FIRST <= w <= VAR_LAST && !taken.contains(w));
                }
                lemma_first_free(taken, VAR_FIRST);
                lemma_replace_size(*b, v, w2);
                lemma_replace_wf(*b, v, w2);
                lemma_beta_wf(replace_spec(*b, v, w2), from, to);
            } else {
                lemma_beta_wf(*b, from, to);
            }
        },
        _ => {},
    }
}

fn occ2(e: &Expr, v: u8) -> (r: u8)
    ensures
        r as nat == if occ_spec(*e, v) <= 2 {
            occ_spec(*e, v)
        } else {
            2nat
        },
    decreases e,
{
    match e {
        Expr::Variable(u) => if *u == v {
            1
        } else {
            0
        },
        Expr::Name(_) => 0,
        Expr::Abstr(w, b) => if *w == v {
            0
        } else {
            occ2(b, v)
        },
        Expr::Appl(a, b) => {
            let x = occ2(a, v);
            if x >= 2 {
                2
            } else {
                let y = occ2(b, v);
                if x + y >= 2 {
                    2
                } else {
                    x + y
                }
            }
        },
    }
}

fn beta_once(
    e: Box<Expr>,
    from: u8,
    slot: &mut Option<Box<Expr>>,
    arg: Ghost<Expr>,
    to_unb: &std::collections::HashSet<u8>,
) -> (r: Result<Box<Expr>, EvalError>)
    requires
        wf(*e),
        wf(arg@),
        is_var_byte(from),
        to_unb@ == prot(from, arg@),
        occ_spec(*e, from) <= 1,
        occ_spec(*e, from) == 1 ==> ((*old(slot)) matches Some(b) && *b == arg@),
    ensures
        match r {
            Ok(b2) => beta_ok(*e, from, arg@) && *b2 == beta_spec(*e, from, arg@) && (occ_spec(
                *e,
                from,
            ) == 0 ==> *final(slot) == *old(slot)) && (occ_spec(*e, from) == 1 ==> *final(slot)
                == None::<Box<Expr>>),
            Err(er) => !beta_ok(*e, from, arg@) && er.kind == EvalErrorKind::VarsExhausted,
        },
    decreases size_spec(*e),
{
    proof {
        lemma_size_pos(*e);
    }
    let (ex, eb) = empty_box::EmptyBox::take(e);
    match ex {
        Expr::Name(s) => Ok(eb.put(Expr::Name(s))),
        Expr::Variable(v) => {
            if v == from {
                match slot.take() {
                    Some(bx) => Ok(bx),
                    None => {
                        proof {
                            assert(false);
                        }
                        Err(EvalError { kind: EvalErrorKind::VarsExhausted })
                    },
                }
            } else {
                Ok(eb.put(Expr::Variable(v)))
            }
        },
        Expr::Appl(a, b) => {
            proof {
                lemma_size_pos(*a);
                lemma_size_pos(*b);
            }
            match beta_once(a, from, slot, arg, to_unb) {
                Ok(ra) => match beta_once(b, from, slot, arg, to_unb) {
                    Ok(rb) => Ok(eb.put(Expr::Appl(ra, rb))),
                    Err(er) => Err(er),
                },
                Err(er) => Err(er),
            }
        },
        Expr::Abstr(v, b) => {
            if v == from {
                Ok(eb.put(Expr::Abstr(v, b)))
            } else if to_unb.contains(&v) {
                let mut taken = b.unbounds();
                proof {
                    lemma_fv_letters(arg@);
                    assert(forall|x: u8| to_unb@.contains(x) ==> is_var_byte(x));
                }
                union_letters(&mut taken, to_unb);
                match alpha_next_opt(&taken) {
                    None => {
                        proof {
                            assert(taken@ =~= fv(*b).union(prot(from, arg@)));
                        }
                        Err(EvalError { kind: EvalErrorKind::VarsExhausted })
                    },
                    Some(w2) => {
                        proof {
                            assert(taken@ =~= fv(*b).union(prot(from, arg@)));
                            lemma_replace_size(*b, v, w2);
                            lemma_replace_wf(*b, v, w2);
                            lemma_replace_occ(*b, v, w2, from);
                        }
                        let b2 = replace_var(b, v, w2);
                        match beta_once(b2, from, slot, arg, to_unb) {
                            Ok(rb) => Ok(eb.put(Expr::Abstr(w2, rb))),
                            Err(er) => Err(er),
                        }
                    },
                }
            } else {
                match beta_once(b, from, slot, arg, to_unb) {
                    Ok(rb) => Ok(eb.put(Expr::Abstr(v, rb))),
                    Err(er) => Err(er),
                }
            }
        },
    }
}

fn beta_many(
    e: Box<Expr>,
    from: u8,
    src: &Expr,
    to_unb: &std::collections::HashSet<u8>,
) -> (r: Result<Box<Expr>, EvalError>)
    requires
        wf(*e),
        wf(*src),
        is_var_byte(from),
        to_unb@ == prot(from, *src),
    ensures
        match r {
            Ok(b2) => beta_ok(*e, from, *src) && *b2 == beta_spec(*e, from, *src),
            Err(er) => !beta_ok(*e, from, *src) && er.kind == EvalErrorKind::VarsExhausted,
        },
    decreases size_spec(*e),
{
    proof {
        lemma_size_pos(*e);
    }
    let (ex, eb) = empty_box::EmptyBox::take(e);
    match ex {
        Expr::Name(s) => Ok(eb.put(Expr::Name(s))),
        Expr::Variable(v) => {
            if v == from {
                Ok(eb.put(src.duplicate()))
            } else {
                Ok(eb.put(Expr::Variable(v)))
            }
        },
        Expr::Appl(a, b) => {
            proof {
                lemma_size_pos(*a);
                lemma_size_pos(*b);
            }
            match beta_many(a, from, src, to_unb) {
                Ok(ra) => match beta_many(b, from, src, to_unb) {
                    Ok(rb) => Ok(eb.put(Expr::Appl(ra, rb))),
                    Err(er) => Err(er),
                },
                Err(er) => Err(er),
            }
        },
        Expr::Abstr(v, b) => {
            if v == from {
                Ok(eb.put(Expr::Abstr(v, b)))
            } else if to_unb.contains(&v) {
                let mut taken = b.unbounds();
                proof {
                    lemma_fv_letters(*src);
                    assert(forall|x: u8| to_unb@.contains(x) ==> is_var_byte(x));
                }
                union_letters(&mut taken, to_unb);
                match alpha_next_opt(&taken) {
                    None => {
                        proof {
                            assert(taken@ =~= fv(*b).union(prot(from, *src)));
                        }
                        Err(EvalError { kind: EvalErrorKind::VarsExhausted })
                    },
                    Some(w2) => {
                        proof {
                            assert(taken@ =~= fv(*b).union(prot(from, *src)));
                            lemma_replace_size(*b, v, w2);
                            lemma_replace_wf(*b, v, w2);
                        }
                        let b2 = replace_var(b, v, w2);
                        match beta_many(b2, from, src, to_unb) {
                            Ok(rb) => Ok(eb.put(Expr::Abstr(w2, rb))),
                            Err(er) => Err(er),
                        }
                    },
                }
            } else {
                match beta_many(b, from, src, to_unb) {
                    Ok(rb) => Ok(eb.put(Expr::Abstr(v, rb))),
                    Err(er) => Err(er),
                }
            }
        },
    }
}

/// Replaces every free occurrence of `from` in `expr` with the argument
/// `to`, renaming binders that would capture a protected letter. The
/// argument is moved into place when it is used at most once and cloned per
/// occurrence otherwise.
pub fn beta_reduce(expr: Box<Expr>, from: u8, to: Box<Expr>) -> (r: Result<Box<Expr>, EvalError>)
    requires
        wf(*expr),
        wf(*to),
        is_var_byte(from),
    ensures
        match r {
            Ok(b) => beta_ok(*expr, from, *to) && *b == beta_spec(*expr, from, *to),
            Err(er) => !beta_ok(*expr, from, *to) && er.kind == EvalErrorKind::VarsExhausted,
        },
{
    let mut to_unb = to.unbounds();
    to_unb.insert(from);
    proof {
        assert(to_unb@ =~= prot(from, *to));
    }
    let c = occ2(&expr, from);
    if c <= 1 {
        let ghost garg = *to;
        let mut slot: Option<Box<Expr>> = Some(to);
        beta_once(expr, from, &mut slot, Ghost(garg), &to_unb)
    } else {
        beta_many(expr, from, &to, &to_unb)
    }
}


// ------------------------------------------------------------------
// One normal-order pass
// ------------------------------------------------------------------
/// The body of an eta redex `\\v. E v` whose bound variable is not free in
/// `E`.
pub open spec fn is_eta_redex(v: u8, b: Expr) -> bool {
    &&& b matches Expr::Appl(rest, last)
    &&& *last matches Expr::Variable(u)
    &&& u == v
    &&& !fv(*rest).contains(v)
}

/// The function part of an eta redex body.
pub open spec fn eta_rest(b: Expr) -> Expr {
    match b {
        Expr::Appl(rest, _) => *rest,
        _ => b,
    }
}

/// One pass of the normal-order reducer: names resolve against the
/// definitions (or, failing that, as Church numerals), an eta redex drops
/// its binder and the pass continues on the function part, a head beta redex
/// is contracted without descending into the result, and otherwise the pass
/// descends into the children, contracting a beta redex freshly uncovered at
/// the head.
pub open spec fn step(e: Expr, defs: Map<Seq<char>, Expr>) -> Expr
    decreases size_spec(e),
    via step_dec
{
    match e {
        Expr::Variable(_) => e,
        Expr::Name(s) => {
            if defs.contains_key(s@) {
                defs[s@]
            } else {
                match numeral_of(s@) {
                    Some(n) => church_spec(n),
                    None => e,
                }
            }
        },
        Expr::Abstr(v, b) => {
            if is_eta_redex(v, *b) {
                step(eta_rest(*b), defs)
            } else {
                Expr::Abstr(v, Box::new(step(*b, defs)))
            }
        },
        Expr::Appl(f, x) => {
            match *f {
                Expr::Abstr(v, body) => beta_spec(*body, v, *x),
                _ => {
                    let f2 = step(*f, defs);
                    match f2 {
                        Expr::Abstr(v2, b2) => beta_spec(*b2, v2, *x),
                        _ => Expr::Appl(Box::new(f2), Box::new(step(*x, defs))),
                    }
                },
            }
        },
    }
}

#[via_fn]
proof fn step_dec(e: Expr, defs: Map<Seq<char>, Expr>) {
    match e {
        Expr::Abstr(v, b) => {
            if is_eta_redex(v, *b) {
                match *b {
                    Expr::Appl(rest, last) => {
                        lemma_size_pos(*rest);
                        lemma_size_pos(*last);
                        assert(eta_rest(*b) == *rest);
                        assert(size_spec(e) == 1 + size_spec(*b));
                        assert(size_spec(*b) == size_spec(*rest) + size_spec(*last));
                    },
                    _ => {},
                }
            }
        },
        Expr::Appl(f, x) => {
            lemma_size_pos(*f);
            lemma_size_pos(*x);
            assert(size_spec(e) == size_spec(*f) + size_spec(*x));
        },
        _ => {},
    }
}

/// Whether a rewrite fires somewhere during the pass.
pub open spec fn step_changed(e: Expr, defs: Map<Seq<char>, Expr>) -> bool
    decreases size_spec(e),
    via step_changed_dec
{
    match e {
        Expr::Variable(_) => false,
        Expr::Name(s) => defs.contains_key(s@) || numeral_of(s@) matches Some(_),
        Expr::Abstr(v, b) => is_eta_redex(v, *b) || step_changed(*b, defs),
        Expr::Appl(f, x) => {
            match *f {
                Expr::Abstr(_, _) => true,
                _ => {
                    if step(*f, defs) matches Expr::Abstr(_, _) {
                        true
                    } else {
                        step_changed(*f, defs) || step_changed(*x, defs)
                    }
                },
            }
        },
    }
}

#[via_fn]
proof fn step_changed_dec(e: Expr, defs: Map<Seq<char>, Expr>) {
    match e {
        Expr::Abstr(v, b) => {
            if is_eta_redex(v, *b) {
                match *b {
                    Expr::Appl(rest, last) => {
                        lemma_size_pos(*rest);
                        lemma_size_pos(*last);
                        assert(eta_rest(*b) == *rest);
                        assert(size_spec(e) == 1 + size_spec(*b));
                        assert(size_spec(*b) == size_spec(*rest) + size_spec(*last));
                    },
                    _ => {},
                }
            }
        },
        Expr::Appl(f, x) => {
            lemma_size_pos(*f);
            lemma_size_pos(*x);
            assert(size_spec(e) == size_spec(*f) + size_spec(*x));
        },
        _ => {},
    }
}

/// The pass does not run out of fresh letters in any substitution it
/// performs.
pub open spec fn step_ok(e: Expr, defs: Map<Seq<char>, Expr>) -> bool
    decreases size_spec(e),
    via step_ok_dec
{
    match e {
        Expr::Variable(_) => true,
        Expr::Name(_) => true,
        Expr::Abstr(v, b) => {
            if is_eta_redex(v, *b) {
                step_ok(eta_rest(*b), defs)
            } else {
                step_ok(*b, defs)
            }
        },
        Expr::Appl(f, x) => {
            match *f {
                Expr::Abstr(v, body) => beta_ok(*body, v, *x),
                _ => {
                    step_ok(*f, defs) && (match step(*f, defs) {
                        Expr::Abstr(v2, b2) => beta_ok(*b2, v2, *x),
                        _ => step_ok(*x, defs),
                    })
                },
            }
        },
    }
}

#[via_fn]
proof fn step_ok_dec(e: Expr, defs: Map<Seq<char>, Expr>) {
    match e {
        Expr::Abstr(v, b) => {
            if is_eta_redex(v, *b) {
                match *b {
                    Expr::Appl(rest, last) => {
                        lemma_size_pos(*rest);
                        lemma_size_pos(*last);
                        assert(eta_rest(*b) == *rest);
                        assert(size_spec(e) == 1 + size_spec(*b));
                        assert(size_spec(*b) == size_spec(*rest) + size_spec(*last));
                    },
                    _ => {},
                }
            }
        },
        Expr::Appl(f, x) => {
            lemma_size_pos(*f);
            lemma_size_pos(*x);
            assert(size_spec(e) == size_spec(*f) + size_spec(*x));
        },
        _ => {},
    }
}

/// How many beta contractions the pass performs.
pub open spec fn pass_betas(e: Expr, defs: Map<Seq<char>, Expr>) -> nat
    decreases size_spec(e),
    via pass_betas_dec
{
    match e {
        Expr::Variable(_) => 0,
        Expr::Name(_) => 0,
        Expr::Abstr(v, b) => {
            if is_eta_redex(v, *b) {
                pass_betas(eta_rest(*b), defs)
            } else {
                pass_betas(*b, defs)
            }
        },
        Expr::Appl(f, x) => {
            match *f {
                Expr::Abstr(_, _) => 1,
                _ => {
                    if step(*f, defs) matches Expr::Abstr(_, _) {
                        pass_betas(*f, defs) + 1
                    } else {
                        pass_betas(*f, defs) + pass_betas(*x, defs)
                    }
                },
            }
        },
    }
}

#[via_fn]
proof fn pass_betas_dec(e: Expr, defs: Map<Seq<char>, Expr>) {
    match e {
        Expr::Abstr(v, b) => {
            if is_eta_redex(v, *b) {
                match *b {
                    Expr::Appl(rest, last) => {
                        lemma_size_pos(*rest);
                        lemma_size_pos(*last);
                        assert(eta_rest(*b) == *rest);
                        assert(size_spec(e) == 1 + size_spec(*b));
                        assert(size_spec(*b) == size_spec(*rest) + size_spec(*last));
                    },
                    _ => {},
                }
            }
        },
        Expr::Appl(f, x) => {
            lemma_size_pos(*f);
            lemma_size_pos(*x);
            assert(size_spec(e) == size_spec(*f) + size_spec(*x));
        },
        _ => {},
    }
}

/// How many eta contractions the pass performs.
pub open spec fn pass_etas(e: Expr, defs: Map<Seq<char>, Expr>) -> nat
    decreases size_spec(e),
    via pass_etas_dec
{
    match e {
        Expr::Variable(_) => 0,
        Expr::Name(_) => 0,
        Expr::Abstr(v, b) => {
            if is_eta_redex(v, *b) {
                1 + pass_etas(eta_rest(*b), defs)
            } else {
                pass_etas(*b, defs)
            }
        },
        Expr::Appl(f, x) => {
            match *f {
                Expr::Abstr(_, _) => 0,
                _ => {
                    if step(*f, defs) matches Expr::Abstr(_, _) {
                        pass_etas(*f, defs)
                    } else {
                        pass_etas(*f, defs) + pass_etas(*x, defs)
                    }
                },
            }
        },
    }
}

#[via_fn]
proof fn pass_etas_dec(e: Expr, defs: Map<Seq<char>, Expr>) {
    match e {
        Expr::Abstr(v, b) => {
            if is_eta_redex(v, *b) {
                match *b {
                    Expr::Appl(rest, last) => {
                        lemma_size_pos(*rest);
                        lemma_size_pos(*last);
                        assert(eta_rest(*b) == *rest);
                        assert(size_spec(e) == 1 + size_spec(*b));
                        assert(size_spec(*b) == size_spec(*rest) + size_spec(*last));
                    },
                    _ => {},
                }
            }
        },
        Expr::Appl(f, x) => {
            lemma_size_pos(*f);
            lemma_size_pos(*x);
            assert(size_spec(e) == size_spec(*f) + size_spec(*x));
        },
        _ => {},
    }
}

pub open spec fn nmax(a: nat, b: nat) -> nat {
    if a >= b {
        a
    } else {
        b
    }
}

/// The deepest recursion the pass reaches.
pub open spec fn pass_depth(e: Expr, defs: Map<Seq<char>, Expr>) -> nat
    decreases size_spec(e),
    via pass_depth_dec
{
    match e {
        Expr::Variable(_) => 1,
        Expr::Name(_) => 1,
        Expr::Abstr(v, b) => {
            if is_eta_redex(v, *b) {
                1 + pass_depth(eta_rest(*b), defs)
            } else {
                1 + pass_depth(*b, defs)
            }
        },
        Expr::Appl(f, x) => {
            match *f {
                Expr::Abstr(_, _) => 1,
                _ => {
                    if step(*f, defs) matches Expr::Abstr(_, _) {
                        1 + pass_depth(*f, defs)
                    } else {
                        1 + nmax(pass_depth(*f, defs), pass_depth(*x, defs))
                    }
                },
            }
        },
    }
}

#[via_fn]
proof fn pass_depth_dec(e: Expr, defs: Map<Seq<char>, Expr>) {
    match e {
        Expr::Abstr(v, b) => {
            if is_eta_redex(v, *b) {
                match *b {
                    Expr::Appl(rest, last) => {
                        lemma_size_pos(*rest);
                        lemma_size_pos(*last);
                        assert(eta_rest(*b) == *rest);
                        assert(size_spec(e) == 1 + size_spec(*b));
                        assert(size_spec(*b) == size_spec(*rest) + size_spec(*last));
                    },
                    _ => {},
                }
            }
        },
        Expr::Appl(f, x) => {
            lemma_size_pos(*f);
            lemma_size_pos(*x);
            assert(size_spec(e) == size_spec(*f) + size_spec(*x));
        },
        _ => {},
    }
}

/// A pass keeps the tree well formed.
pub proof fn lemma_step_wf(e: Expr, defs: Map<Seq<char>, Expr>)
    requires
        wf(e),
        defs_wf(defs),
        step_ok(e, defs),
    ensures
        wf(step(e, defs)),
    decreases size_spec(e),
{
    match e {
        Expr::Variable(_) => {},
        Expr::Name(s) => {
            if defs.contains_key(s@) {
            } else {
                match numeral_of(s@) {
                    Some(n) => {
                        lemma_church_wf(n);
                    },
                    None => {},
                }
            }
        },
        Expr::Abstr(v, b) => {
            if is_eta_redex(v, *b) {
                match *b {
                    Expr::Appl(rest, last) => {
                        lemma_size_pos(*rest);
                        lemma_size_pos(*last);
                        assert(eta_rest(*b) == *rest);
                        assert(size_spec(*b) == size_spec(*rest) + size_spec(*last));
                        assert(size_spec(e) == 1 + size_spec(*b));
                        assert(wf(*b));
                        assert(wf(*rest));
                    },
                    _ => {},
                }
                lemma_step_wf(eta_rest(*b), defs);
            } else {
                lemma_step_wf(*b, defs);
            }
        },
        Expr::Appl(f, x) => {
            lemma_size_pos(*f);
            lemma_size_pos(*x);
            assert(wf(*f) && wf(*x));
            match *f {
                Expr::Abstr(v, body) => {
                    assert(wf(*f) ==> is_var_byte(v) && wf(*body));
                    lemma_beta_wf(*body, v, *x);
                },
                _ => {
                    lemma_step_wf(*f, defs);
                    match step(*f, defs) {
                        Expr::Abstr(v2, b2) => {
                            assert(wf(step(*f, defs)) ==> is_var_byte(v2) && wf(*b2));
                            lemma_beta_wf(*b2, v2, *x);
                        },
                        _ => {
                            lemma_step_wf(*x, defs);
                        },
                    }
                },
            }
        },
    }
}

fn max64(a: u64, b: u64) -> (r: u64)
    ensures
        r as nat == nmax(a as nat, b as nat),
{
    if a >= b {
        a
    } else {
        b
    }
}

struct PassInfo {
    depth: u64,
    betas: u64,
    etas: u64,
    changed: bool,
}

fn do_reduce(expr: Box<Expr>, defs: &Defs) -> (r: Result<(Box<Expr>, PassInfo), EvalError>)
    requires
        wf(*expr),
        defs.inv(),
        defs_wf(defs@),
    ensures
        match r {
            Ok(p) => step_ok(*expr, defs@) && *p.0 == step(*expr, defs@) && p.1.changed
                == step_changed(*expr, defs@) && p.1.betas == cap64(pass_betas(*expr, defs@))
                && p.1.etas == cap64(pass_etas(*expr, defs@)) && p.1.depth == cap64(
                pass_depth(*expr, defs@),
            ),
            Err(er) => !step_ok(*expr, defs@) && er.kind == EvalErrorKind::VarsExhausted,
        },
    decreases size_spec(*expr),
{
    proof {
        lemma_size_pos(*expr);
    }
    let (ex, eb) = empty_box::EmptyBox::take(expr);
    match ex {
        Expr::Variable(v) => Ok(
            (
                eb.put(Expr::Variable(v)),
                PassInfo { depth: 1, betas: 0, etas: 0, changed: false },
            ),
        ),
        Expr::Name(s) => {
            match defs.get(&s) {
                Some(d) => {
                    let value = d.value.duplicate();
                    Ok((eb.put(value), PassInfo { depth: 1, betas: 0, etas: 0, changed: true }))
                },
                None => {
                    match parse_dec(&s) {
                        Some(n) => Ok(
                            (
                                Expr::church_num(n),
                                PassInfo { depth: 1, betas: 0, etas: 0, changed: true },
                            ),
                        ),
                        None => Ok(
                            (
                                eb.put(Expr::Name(s)),
                                PassInfo { depth: 1, betas: 0, etas: 0, changed: false },
                            ),
                        ),
                    }
                },
            }
        },
        Expr::Abstr(v, body) => {
            let mut is_redex = false;
            match &*body {
                Expr::Appl(rest, last) => {
                    match &**last {
                        Expr::Variable(u) => {
                            if *u == v {
                                if !rest.free_in(v) {
                                    is_redex = true;
                                }
                            }
                        },
                        _ => {},
                    }
                },
                _ => {},
            }
            proof {
                assert(is_redex == is_eta_redex(v, *body));
            }
            if is_redex {
                let (bex, _beb) = empty_box::EmptyBox::take(body);
                match bex {
                    Expr::Appl(rest, _last) => {
                        proof {
                            assert(eta_rest(*body) == *rest);
                            lemma_size_pos(*rest);
                            lemma_size_pos(*_last);
                            assert(size_spec(*body) == size_spec(*rest) + size_spec(*_last));
                            assert(size_spec(*expr) == 1 + size_spec(*body));
                            assert(wf(*body));
                            assert(wf(*rest));
                        }
                        match do_reduce(rest, defs) {
                            Ok((r0, info)) => {
                                let depth = sat_add(info.depth, 1);
                                let etas = sat_add(info.etas, 1);
                                Ok(
                                    (
                                        r0,
                                        PassInfo {
                                            depth,
                                            betas: info.betas,
                                            etas,
                                            changed: true,
                                        },
                                    ),
                                )
                            },
                            Err(er) => Err(er),
                        }
                    },
                    _ => {
                        proof {
                            assert(false);
                        }
                        Err(EvalError { kind: EvalErrorKind::VarsExhausted })
                    },
                }
            } else {
                proof {
                    assert(size_spec(*expr) == 1 + size_spec(*body));
                    assert(wf(*body));
                }
                match do_reduce(body, defs) {
                    Ok((b2, info)) => {
                        let depth = sat_add(info.depth, 1);
                        Ok(
                            (
                                eb.put(Expr::Abstr(v, b2)),
                                PassInfo {
                                    depth,
                                    betas: info.betas,
                                    etas: info.etas,
                                    changed: info.changed,
                                },
                            ),
                        )
                    },
                    Err(er) => Err(er),
                }
            }
        },
        Expr::Appl(a, to_arg) => {
            let head_abstr = matches!(&*a, Expr::Abstr(_, _));
            if head_abstr {
                let (aex, _aeb) = empty_box::EmptyBox::take(a);
                match aex {
                    Expr::Abstr(from, abody) => {
                        proof {
                            assert(wf(*a) && wf(*to_arg));
                            assert(is_var_byte(from) && wf(*abody));
                        }
                        match beta_reduce(abody, from, to_arg) {
                            Ok(res) => Ok(
                                (res, PassInfo { depth: 1, betas: 1, etas: 0, changed: true }),
                            ),
                            Err(er) => Err(er),
                        }
                    },
                    _ => {
                        proof {
                            assert(false);
                        }
                        Err(EvalError { kind: EvalErrorKind::VarsExhausted })
                    },
                }
            } else {
                proof {
                    lemma_size_pos(*a);
                    lemma_size_pos(*to_arg);
                    assert(size_spec(*expr) == size_spec(*a) + size_spec(*to_arg));
                    assert(wf(*a) && wf(*to_arg));
                }
                match do_reduce(a, defs) {
                    Err(er) => Err(er),
                    Ok((a2, ia)) => {
                        let a2_abstr = matches!(&*a2, Expr::Abstr(_, _));
                        proof {
                            lemma_step_wf(*a, defs@);
                        }
                        if a2_abstr {
                            let (a2ex, _a2eb) = empty_box::EmptyBox::take(a2);
                            match a2ex {
                                Expr::Abstr(v2, b2) => {
                                    proof {
                                        assert(wf(step(*a, defs@)));
                                        assert(is_var_byte(v2) && wf(*b2));
                                    }
                                    match beta_reduce(b2, v2, to_arg) {
                                        Ok(res) => {
                                            let depth = sat_add(ia.depth, 1);
                                            let betas = sat_add(ia.betas, 1);
                                            Ok(
                                                (
                                                    res,
                                                    PassInfo {
                                                        depth,
                                                        betas,
                                                        etas: ia.etas,
                                                        changed: true,
                                                    },
                                                ),
                                            )
                                        },
                                        Err(er) => Err(er),
                                    }
                                },
                                _ => {
                                    proof {
                                        assert(false);
                                    }
                                    Err(EvalError { kind: EvalErrorKind::VarsExhausted })
                                },
                            }
                        } else {
                            match do_reduce(to_arg, defs) {
                                Err(er) => Err(er),
                                Ok((x2, ix)) => {
                                    let depth = sat_add(max64(ia.depth, ix.depth), 1);
                                    let betas = sat_add(ia.betas, ix.betas);
                                    let etas = sat_add(ia.etas, ix.etas);
                                    Ok(
                                        (
                                            eb.put(Expr::Appl(a2, x2)),
                                            PassInfo {
                                                depth,
                                                betas,
                                                etas,
                                                changed: ia.changed || ix.changed,
                                            },
                                        ),
                                    )
                                },
                            }
                        }
                    },
                }
            }
        },
    }
}


// ------------------------------------------------------------------
// The reduction driver
// ------------------------------------------------------------------
/// What repeated passes lead to: a normal form, a tree over the size
/// budget, an exhausted iteration budget, or an exhausted letter pool.
pub enum ReduceOut {
    Done(Expr),
    TooBig(nat),
    TooMany,
    NoLetters,
}

/// Runs passes with `left` iterations remaining until a pass changes
/// nothing, checking the size budget after every changing pass.
pub open spec fn drive(e: Expr, defs: Map<Seq<char>, Expr>, left: nat) -> ReduceOut
    decreases left,
{
    if !step_ok(e, defs) {
        ReduceOut::NoLetters
    } else {
        let e2 = step(e, defs);
        if !step_changed(e, defs) {
            ReduceOut::Done(e2)
        } else {
            let sz = size_spec(e2);
            if sz > MAX_SIZE {
                ReduceOut::TooBig(sz)
            } else if left <= 1 {
                ReduceOut::TooMany
            } else {
                drive(e2, defs, (left - 1) as nat)
            }
        }
    }
}

/// The beta contractions performed over all passes the driver runs.
pub open spec fn drive_betas(e: Expr, defs: Map<Seq<char>, Expr>, left: nat) -> nat
    decreases left,
{
    if !step_ok(e, defs) {
        0
    } else {
        let b = pass_betas(e, defs);
        let e2 = step(e, defs);
        if !step_changed(e, defs) || size_spec(e2) > MAX_SIZE || left <= 1 {
            b
        } else {
            b + drive_betas(e2, defs, (left - 1) as nat)
        }
    }
}

/// The eta contractions performed over all passes the driver runs.
pub open spec fn drive_etas(e: Expr, defs: Map<Seq<char>, Expr>, left: nat) -> nat
    decreases left,
{
    if !step_ok(e, defs) {
        0
    } else {
        let c = pass_etas(e, defs);
        let e2 = step(e, defs);
        if !step_changed(e, defs) || size_spec(e2) > MAX_SIZE || left <= 1 {
            c
        } else {
            c + drive_etas(e2, defs, (left - 1) as nat)
        }
    }
}

/// The deepest recursion any pass reaches.
pub open spec fn drive_depth(e: Expr, defs: Map<Seq<char>, Expr>, left: nat) -> nat
    decreases left,
{
    if !step_ok(e, defs) {
        0
    } else {
        let d = pass_depth(e, defs);
        let e2 = step(e, defs);
        if !step_changed(e, defs) || size_spec(e2) > MAX_SIZE || left <= 1 {
            d
        } else {
            nmax(d, drive_depth(e2, defs, (left - 1) as nat))
        }
    }
}

/// The largest tree any pass produces.
pub open spec fn drive_size(e: Expr, defs: Map<Seq<char>, Expr>, left: nat) -> nat
    decreases left,
{
    if !step_ok(e, defs) {
        0
    } else {
        let s2 = size_spec(step(e, defs));
        if !step_changed(e, defs) || s2 > MAX_SIZE || left <= 1 {
            s2
        } else {
            nmax(s2, drive_size(step(e, defs), defs, (left - 1) as nat))
        }
    }
}

/// The statistics the reducer accumulates: contraction counts, the deepest
/// recursion, the largest tree after a pass, and whether the last pass
/// still fired a rewrite.
#[derive(Clone, Copy, Debug)]
pub struct Stats {
    pub beta_count: u64,
    pub eta_count: u64,
    pub max_depth: u64,
    pub max_size: u64,
    pub reduced: bool,
}

/// Reduces an expression to normal form under the given definitions by
/// normal-order passes, within the iteration and size budgets.
#[verifier::loop_isolation(false)]
pub fn reduce(expr: Box<Expr>, defs: &Defs) -> (r: (Result<Box<Expr>, EvalError>, Stats))
    requires
        wf(*expr),
        defs.inv(),
        defs_wf(defs@),
    ensures
        (match r.0 {
            Ok(v) => drive(*expr, defs@, MAX_ITERATIONS as nat) matches ReduceOut::Done(d) && *v
                == d,
            Err(er) => match drive(*expr, defs@, MAX_ITERATIONS as nat) {
                ReduceOut::TooBig(sz) => er.kind == EvalErrorKind::SizeLimit(cap64(sz)),
                ReduceOut::TooMany => er.kind == EvalErrorKind::IterationLimit,
                ReduceOut::NoLetters => er.kind == EvalErrorKind::VarsExhausted,
                ReduceOut::Done(_) => false,
            },
        }),
        r.1.beta_count == cap64(drive_betas(*expr, defs@, MAX_ITERATIONS as nat)),
        r.1.eta_count == cap64(drive_etas(*expr, defs@, MAX_ITERATIONS as nat)),
        r.1.max_depth == cap64(drive_depth(*expr, defs@, MAX_ITERATIONS as nat)),
        r.1.max_size == cap64(drive_size(*expr, defs@, MAX_ITERATIONS as nat)),
        r.0 matches Ok(_) ==> r.1.reduced == false,
{
    let ghost e0 = *expr;
    let ghost dm = defs@;
    let mut cur = expr;
    let mut st = Stats {
        beta_count: 0,
        eta_count: 0,
        max_depth: 0,
        max_size: 0,
        reduced: false,
    };
    let mut left: u64 = MAX_ITERATIONS;
    loop
        invariant
            wf(*cur),
            defs.inv(),
            defs_wf(defs@),
            defs@ == dm,
            1 <= left <= MAX_ITERATIONS,
            drive(e0, dm, MAX_ITERATIONS as nat) == drive(*cur, dm, left as nat),
            cap64(drive_betas(e0, dm, MAX_ITERATIONS as nat)) == cap64(
                st.beta_count as nat + drive_betas(*cur, dm, left as nat),
            ),
            cap64(drive_etas(e0, dm, MAX_ITERATIONS as nat)) == cap64(
                st.eta_count as nat + drive_etas(*cur, dm, left as nat),
            ),
            cap64(drive_depth(e0, dm, MAX_ITERATIONS as nat)) == nmax64(
                st.max_depth,
                cap64(drive_depth(*cur, dm, left as nat)),
            ),
            cap64(drive_size(e0, dm, MAX_ITERATIONS as nat)) == nmax64(
                st.max_size,
                cap64(drive_size(*cur, dm, left as nat)),
            ),
        decreases left,
    {
        let ghost pre = *cur;
        match do_reduce(cur, defs) {
            Err(er) => {
                proof {
                    assert(drive(pre, dm, left as nat) == ReduceOut::NoLetters);
                    assert(drive_betas(pre, dm, left as nat) == 0);
                    assert(drive_etas(pre, dm, left as nat) == 0);
                    assert(drive_depth(pre, dm, left as nat) == 0);
                    assert(drive_size(pre, dm, left as nat) == 0);
                    assert(cap64(st.beta_count as nat) == st.beta_count);
                    assert(cap64(st.eta_count as nat) == st.eta_count);
                }
                return (Err(er), st);
            },
            Ok((e2, info)) => {
                st.beta_count = sat_add(st.beta_count, info.betas);
                st.eta_count = sat_add(st.eta_count, info.etas);
                st.max_depth = max64(st.max_depth, info.depth);
                let sz = e2.size_clamped();
                st.max_size = max64(st.max_size, sz);
                if !info.changed {
                    st.reduced = false;
                    return (Ok(e2), st);
                }
                st.reduced = true;
                if sz > MAX_SIZE {
                    return (Err(EvalError { kind: EvalErrorKind::SizeLimit(sz) }), st);
                }
                if left <= 1 {
                    return (Err(EvalError { kind: EvalErrorKind::IterationLimit }), st);
                }
                proof {
                    lemma_step_wf(pre, dm);
                    assert(drive(pre, dm, left as nat) == drive(*e2, dm, (left - 1) as nat));
                    assert(drive_betas(pre, dm, left as nat) == pass_betas(pre, dm) + drive_betas(
                        *e2,
                        dm,
                        (left - 1) as nat,
                    ));
                    assert(drive_etas(pre, dm, left as nat) == pass_etas(pre, dm) + drive_etas(
                        *e2,
                        dm,
                        (left - 1) as nat,
                    ));
                    assert(drive_depth(pre, dm, left as nat) == nmax(
                        pass_depth(pre, dm),
                        drive_depth(*e2, dm, (left - 1) as nat),
                    ));
                    assert(drive_size(pre, dm, left as nat) == nmax(
                        size_spec(*e2),
                        drive_size(*e2, dm, (left - 1) as nat),
                    ));
                }
                cur = e2;
                left = left - 1;
            },
        }
    }
}

pub open spec fn nmax64(a: u64, b: u64) -> u64 {
    if a >= b {
        a
    } else {
        b
    }
}

// ------------------------------------------------------------------
// Laws of the reducer
// ------------------------------------------------------------------
/// Substitution is capture-avoiding: its free variables are exactly those
/// of the body without the substituted variable, together with those of the
/// argument wherever the variable was free — no free variable of the
/// argument is bound by a binder it lands under.
pub proof fn lemma_beta_fv(e: Expr, from: u8, to: Expr)
    requires
        beta_ok(e, from, to),
    ensures
        fv(beta_spec(e, from, to)) == fv(e).remove(from).union(
            if fv(e).contains(from) {
                fv(to)
            } else {
                Set::empty()
            },
        ),
    decreases size_spec(e),
{
    let rhs = fv(e).remove(from).union(
        if fv(e).contains(from) {
            fv(to)
        } else {
            Set::empty()
        },
    );
    match e {
        Expr::Name(_) => {
            assert(fv(beta_spec(e, from, to)) =~= rhs);
        },
        Expr::Variable(v) => {
            assert(fv(beta_spec(e, from, to)) =~= rhs);
        },
        Expr::Appl(a, b) => {
            lemma_size_pos(*a);
            lemma_size_pos(*b);
            lemma_beta_fv(*a, from, to);
            lemma_beta_fv(*b, from, to);
            let ra = beta_spec(*a, from, to);
            let rb = beta_spec(*b, from, to);
            assert(beta_spec(e, from, to) == Expr::Appl(Box::new(ra), Box::new(rb)));
            assert(fv(beta_spec(e, from, to)) == fv(ra).union(fv(rb)));
            if fv(*a).contains(from) {
                assert(fv(beta_spec(e, from, to)) =~= rhs);
            } else if fv(*b).contains(from) {
                assert(fv(beta_spec(e, from, to)) =~= rhs);
            } else {
                assert(fv(beta_spec(e, from, to)) =~= rhs);
            }
        },
        Expr::Abstr(v, b) => {
            if v == from {
                assert(!fv(e).contains(from));
                assert(fv(beta_spec(e, from, to)) =~= rhs);
            } else if prot(from, to).contains(v) {
                let taken = fv(*b).union(prot(from, to));
                let w2 = first_free(taken, VAR_FIRST);
                assert(exists|l: u8| VAR_FIRST <= l <= VAR_LAST && !taken.contains(l)) by {
                    let w = choose|l: u8| is_var_byte(l) && !taken.contains(l);
                    assert(VAR_FIRST <= w <= VAR_LAST && !taken.contains(w));
                }
                lemma_first_free(taken, VAR_FIRST);
                assert(!fv(*b).contains(w2) && !fv(to).contains(w2) && w2 != from && w2 != v);
                let rb = replace_spec(*b, v, w2);
                lemma_replace_size(*b, v, w2);
                lemma_replace_fv(*b, v, w2);
                lemma_beta_fv(rb, from, to);
                let inner = beta_spec(rb, from, to);
                assert(beta_spec(e, from, to) == Expr::Abstr(w2, Box::new(inner)));
                assert(fv(beta_spec(e, from, to)) == fv(inner).remove(w2));
                assert(fv(rb).contains(from) == fv(*b).contains(from));
                assert(fv(e).contains(from) == fv(*b).contains(from)) by {
                    assert(from != v);
                }
                assert(fv(beta_spec(e, from, to)) =~= rhs) by {
                    assert forall|x: u8| fv(inner).remove(w2).contains(x) implies rhs.contains(
                        x,
                    ) by {
                        if x != from && x != w2 {
                            if fv(rb).remove(from).contains(x) {
                                assert(fv(rb).contains(x));
                                if x != v {
                                    assert(fv(*b).contains(x));
                                    assert(fv(e).contains(x));
                                } else {
                                    assert(false);
                                }
                            }
                        }
                    }
                    assert forall|x: u8| rhs.contains(x) implies fv(inner).remove(w2).contains(
                        x,
                    ) by {
                        assert(x != w2);
                        if fv(e).remove(from).contains(x) {
                            assert(fv(*b).contains(x) && x != v && x != from);
                            assert(fv(rb).contains(x));
                            assert(fv(inner).contains(x));
                        } else {
                            assert(fv(e).contains(from) && fv(to).contains(x));
                            assert(fv(rb).contains(from));
                            assert(fv(inner).contains(x));
                        }
                    }
                }
            } else {
                lemma_beta_fv(*b, from, to);
                let rb = beta_spec(*b, from, to);
                assert(beta_spec(e, from, to) == Expr::Abstr(v, Box::new(rb)));
                assert(fv(beta_spec(e, from, to)) == fv(rb).remove(v));
                assert(!fv(to).contains(v) && v != from);
                if fv(*b).contains(from) {
                    assert(fv(beta_spec(e, from, to)) =~= rhs);
                } else {
                    assert(fv(beta_spec(e, from, to)) =~= rhs);
                }
            }
        },
    }
}

/// Eta contraction is a left inverse of eta expansion: contracting
/// `\\x. E x`, with `x` not free in `E`, yields exactly `E`, and so an
/// expression alpha-equivalent to `E`.
pub proof fn lemma_eta_contract(x: u8, e: Expr)
    requires
        !fv(e).contains(x),
    ensures
        is_eta_redex(x, Expr::Appl(Box::new(e), Box::new(Expr::Variable(x)))),
        eta_rest(Expr::Appl(Box::new(e), Box::new(Expr::Variable(x)))) == e,
        alpha_eq_spec(eta_rest(Expr::Appl(Box::new(e), Box::new(Expr::Variable(x)))), e),
{
    lemma_alpha_eq_refl(e);
}

/// A pass that fires no rewrite returns the expression unchanged.
pub proof fn lemma_unchanged_id(e: Expr, defs: Map<Seq<char>, Expr>)
    requires
        !step_changed(e, defs),
    ensures
        step(e, defs) == e,
    decreases size_spec(e),
{
    match e {
        Expr::Variable(_) => {},
        Expr::Name(_) => {},
        Expr::Abstr(v, b) => {
            lemma_unchanged_id(*b, defs);
            assert(step(e, defs) == Expr::Abstr(v, Box::new(step(*b, defs))));
        },
        Expr::Appl(f, x) => {
            lemma_size_pos(*f);
            lemma_size_pos(*x);
            lemma_unchanged_id(*f, defs);
            lemma_unchanged_id(*x, defs);
            assert(step(e, defs) == Expr::Appl(Box::new(step(*f, defs)), Box::new(step(*x, defs))));
        },
    }
}

/// A pass that fires no rewrite performs no substitution, so it cannot run
/// out of letters.
pub proof fn lemma_unchanged_ok(e: Expr, defs: Map<Seq<char>, Expr>)
    requires
        !step_changed(e, defs),
    ensures
        step_ok(e, defs),
    decreases size_spec(e),
{
    match e {
        Expr::Variable(_) => {},
        Expr::Name(_) => {},
        Expr::Abstr(v, b) => {
            lemma_unchanged_ok(*b, defs);
        },
        Expr::Appl(f, x) => {
            lemma_size_pos(*f);
            lemma_size_pos(*x);
            lemma_unchanged_ok(*f, defs);
            lemma_unchanged_ok(*x, defs);
        },
    }
}

proof fn lemma_drive_done(e: Expr, defs: Map<Seq<char>, Expr>, left: nat, v: Expr)
    requires
        drive(e, defs, left) == ReduceOut::Done(v),
    ensures
        !step_changed(v, defs),
        step(v, defs) == v,
        step_ok(v, defs),
    decreases left,
{
    if step_ok(e, defs) {
        if !step_changed(e, defs) {
            lemma_unchanged_id(e, defs);
            assert(v == e);
            lemma_unchanged_ok(v, defs);
        } else {
            let e2 = step(e, defs);
            if size_spec(e2) <= MAX_SIZE && left > 1 {
                lemma_drive_done(e2, defs, (left - 1) as nat, v);
            }
        }
    }
}

/// The reducer is idempotent: reducing an already reduced expression
/// terminates at once with the very same expression, which is in particular
/// alpha-equivalent to itself.
pub proof fn lemma_reduce_idempotent(e: Expr, defs: Map<Seq<char>, Expr>, v: Expr)
    requires
        drive(e, defs, MAX_ITERATIONS as nat) == ReduceOut::Done(v),
    ensures
        drive(v, defs, MAX_ITERATIONS as nat) == ReduceOut::Done(v),
        alpha_eq_spec(v, v),
{
    lemma_drive_done(e, defs, MAX_ITERATIONS as nat, v);
    lemma_alpha_eq_refl(v);
}

#[verifier::external_type_specification]
#[verifier::external_body]
#[verifier::reject_recursive_types(T)]
pub struct ExEmptyBox<T>(empty_box::EmptyBox<T>);

/// Relies on `empty_box::EmptyBox::take`: it hands back exactly the boxed
/// value, together with the emptied box.
pub assume_specification<T>[ empty_box::EmptyBox::<T>::take ](bx: Box<T>) -> (r: (
    T,
    empty_box::EmptyBox<T>,
))
    ensures
        r.0 == bx,
;

/// Relies on `empty_box::EmptyBox::put`: the returned box holds exactly the
/// value put in, reusing the emptied box's allocation.
pub assume_specification<T>[ empty_box::EmptyBox::<T>::put ](
    eb: empty_box::EmptyBox<T>,
    t: T,
) -> (r: Box<T>)
    ensures
        r == t,
;

} // verus!
