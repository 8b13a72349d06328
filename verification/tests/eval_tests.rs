use rustlambda::eval::{beta_reduce, reduce, EvalErrorKind};
use rustlambda::expr::{abstr, appl, chnum, var, Defs, Expr};
use rustlambda::lex::lex;
use rustlambda::parse::parse;

fn process(s: &str) -> Box<Expr> {
    parse(lex(s.as_bytes()).unwrap()).unwrap().1.unwrap()
}

fn red(expr: Box<Expr>) -> Box<Expr> {
    reduce(expr, &Defs::new()).0.unwrap()
}

fn run(s: &str) -> Box<Expr> {
    let (defs, main) = parse(lex(s.as_bytes()).unwrap()).unwrap();
    reduce(main.unwrap(), &defs).0.unwrap()
}

#[test]
fn church_pow() {
    let expr = appl(chnum(4), chnum(3));
    let reduced = reduce(expr, &Defs::new())
        .0
        .unwrap()
        .try_unchurch_num()
        .expect("pow of two church nums turned into something nonchurchnumeric");
    assert_eq!(reduced, (3u32).pow(4));
}

#[test]
fn church_add() {
    // add = \nmfx.mf(nfx)
    let add = abstr(
        b'n',
        abstr(
            b'm',
            abstr(
                b'f',
                abstr(
                    b'x',
                    appl(
                        appl(var(b'm'), var(b'f')),
                        appl(appl(var(b'n'), var(b'f')), var(b'x')),
                    ),
                ),
            ),
        ),
    );
    let expr = appl(appl(add, chnum(6)), chnum(9));
    let reduced = reduce(expr, &Defs::new())
        .0
        .unwrap()
        .try_unchurch_num()
        .expect("sum of two church nums turned into something nonchurchnumeric");
    assert_eq!(reduced, 6 + 9);
}

#[test]
fn church_mul() {
    // mul = \nmfx.m(nf)x
    let mul = abstr(
        b'n',
        abstr(
            b'm',
            abstr(
                b'f',
                abstr(
                    b'x',
                    appl(appl(var(b'm'), appl(var(b'n'), var(b'f'))), var(b'x')),
                ),
            ),
        ),
    );
    let expr = appl(appl(mul, chnum(6)), chnum(9));
    let reduced = reduce(expr, &Defs::new())
        .0
        .unwrap()
        .try_unchurch_num()
        .expect("product of two church nums turned into something nonchurchnumeric");
    assert_eq!(reduced, 6 * 9);
}

#[test]
fn stuff() {
    //  Test against bad alpha reduction
    //  \c.(\ba.ca)a
    let expr = red(abstr(
        b'c',
        appl(abstr(b'b', abstr(b'a', appl(var(b'c'), var(b'a')))), var(b'a')),
    ));
    println!("{:?}", expr);
    assert!(expr.alpha_eq(&red(abstr(b'c', abstr(b'a', appl(var(b'c'), var(b'a')))))));
}

#[test]
fn identity_application() {
    // (\x.x) a  reduces to  a
    assert!(run(r"(\x.x) a").alpha_eq(&process("a")));
}

#[test]
fn const_application() {
    // (\x.\y.x) a b  reduces to  a
    assert!(run(r"(\x.\y.x) a b").alpha_eq(&process("a")));
}

#[test]
fn numeral_exponentiation() {
    // n m computes m^n on Church numerals.
    assert_eq!(run("2 3").try_unchurch_num(), Some(9));
}

#[test]
fn numeral_shadowed_by_definition() {
    // A definition for a numeric name takes precedence over the numeral.
    assert_eq!(run(r"5 = \fx.f(fx); 5").try_unchurch_num(), Some(2));
}

#[test]
fn definitions_overwrite() {
    assert!(run("A = a; A = b; A").alpha_eq(&process("b")));
}

#[test]
fn factorial_by_fixed_point() {
    // A Y-combinator factorial over Church numerals and booleans.
    let program = r"
T = \xy.x;
F = \xy.y;
Z = \n.n(\x. F ) T ;
P = \nfx.n(\gh.h(g f))(\u.x)(\u.u);
M = \mnf.m(n f);
Y = \f.(\x.f(x x))(\x.f(x x));
Fact = Y (\gn. Z n 1 ( M n (g ( P n))));
Fact 2";
    assert_eq!(run(program).try_unchurch_num(), Some(2));
}

#[test]
fn multiplication_chain() {
    assert_eq!(run(r"M = \mnf.m(n f); M 2 ( M 3 1)").try_unchurch_num(), Some(6));
}

#[test]
fn eta_contraction_yields_function_part() {
    // \x. E x with x not free in E reduces to E.
    assert!(run(r"\x. Left x").alpha_eq(&process(" Left ")));
    assert!(run(r"\x.yx").alpha_eq(&process("y")));
}

#[test]
fn reducer_is_idempotent_on_samples() {
    let sources = [r"(\x.x) a", r"(\x.\y.x) a b", "2 3", r"\x.yx", r"\c.(\ba.ca)a"];
    for s in sources {
        let once = run(s);
        let twice = reduce(once.clone(), &Defs::new()).0.unwrap();
        assert!(once.alpha_eq(&twice), "not idempotent on {}", s);
    }
}

#[test]
fn substitution_avoids_capture() {
    // Substituting a for x in \a. x a must not capture the free a.
    let body = abstr(b'a', appl(var(b'x'), var(b'a')));
    let result = beta_reduce(body, b'x', var(b'a')).unwrap();
    let mut free = result.unbounds();
    assert_eq!(free.len(), 1);
    assert!(free.remove(&b'a'));
    assert!(result.alpha_eq(&process(r"\b.ab")));
}

#[test]
fn substitution_runs_out_of_letters() {
    // The binder must be renamed, but every lowercase letter is taken.
    let mut chain = var(b'b');
    let mut l = b'c';
    while l <= b'z' {
        chain = appl(chain, var(l));
        l += 1;
    }
    let body = abstr(b'a', chain);
    let err = beta_reduce(body, b'b', var(b'a')).unwrap_err();
    assert_eq!(err.kind, EvalErrorKind::VarsExhausted);
    assert_eq!(err.message(), "Ran out of variables");
}

#[test]
fn size_budget_is_enforced() {
    // Forty nested self-application redexes double the tree every pass.
    let mut nested = var(b'y');
    let mut k = 0;
    while k < 40 {
        nested = appl(abstr(b'x', appl(var(b'x'), var(b'x'))), nested);
        k += 1;
    }
    let (res, stats) = reduce(nested, &Defs::new());
    let err = res.unwrap_err();
    assert!(matches!(err.kind, EvalErrorKind::SizeLimit(_)));
    assert!(stats.max_size > 10000000);
}

#[test]
fn reduction_statistics_count_rewrites() {
    // (\x.x) a is one beta step; \x.yx is one eta step.
    let (res, stats) = reduce(process(r"(\x.x) a"), &Defs::new());
    assert!(res.is_ok());
    assert_eq!(stats.beta_count, 1);
    assert_eq!(stats.eta_count, 0);
    assert!(!stats.reduced);
    let (res, stats) = reduce(process(r"\x.yx"), &Defs::new());
    assert!(res.is_ok());
    assert_eq!(stats.eta_count, 1);
}

#[test]
fn iteration_budget_is_enforced() {
    // Omega reduces to itself forever without growing.
    let omega = appl(
        abstr(b'x', appl(var(b'x'), var(b'x'))),
        abstr(b'x', appl(var(b'x'), var(b'x'))),
    );
    let (res, _stats) = reduce(omega, &Defs::new());
    let err = res.unwrap_err();
    assert_eq!(err.kind, EvalErrorKind::IterationLimit);
    assert_eq!(err.message(), "Iteration limit reached: 10000000");
}
