use rustlambda::expr::{abstr, appl, var, Expr};
use rustlambda::lex::lex;
use rustlambda::parse::parse;

fn process(s: &str) -> Box<Expr> {
    parse(lex(s.as_bytes()).unwrap()).unwrap().1.unwrap()
}

#[test]
fn unbounds_in_0() {
    let mut set = process(r"\afc.fpad(\qc.cag)").unbounds();
    assert_eq!(set.len(), 3);
    assert!(set.remove(&b'p') && set.remove(&b'd') && set.remove(&b'g'));
    assert!(set.is_empty());
}

#[test]
fn alpha_eq_0() {
    let e1 = process(r"\fad.da(lf)");
    let e2 = process(r"\okg.gk(lo)");
    assert!(e1.alpha_eq(&e2));
}

#[test]
fn alpha_eq_1() {
    let e1 = process(r"\abc.ba(\b.cb)(\ac.ba)(\ap.caa)");
    let e2 = process(r"\bap.ab(\a.ca)(\bc.ab)(\vc.pvv)");
    assert!(e1.alpha_eq(&e2));
}

#[test]
fn alpha_eq_2() {
    let e1 = process(r"\abg.ba(\b.cb)(\ac.ba)(\ap.caa)");
    let e2 = process(r"\bap.ab(\a.ca)(\bc.ab)(\vc.pvv)");
    assert!(!e1.alpha_eq(&e2));
}

#[test]
fn alpha_eq_3() {
    let e1 = process(r"\abc.ba(\b.cb)(\ac.ab)(\ap.caa)");
    let e2 = process(r"\bap.ab(\a.ca)(\bc.ab)(\vc.pvv)");
    println!("{}", e1.surface());
    println!("{}", e2.surface());
    assert!(!e1.alpha_eq(&e2));
}

#[test]
fn alpha_eq_4() {
    let e1 = process(r"\abc.ba(\b.cb)(\ac.ba)(\ap.caa)");
    let e2 = process(r"\bap.ab(\a.ca)(\bc.ab)(\va.pvv)");
    assert!(e1.alpha_eq(&e2));
}

#[test]
fn church_nums_0() {
    let zero = Expr::church_num(0);
    assert!(zero.alpha_eq(&Expr::Abstr(b'd', abstr(b'r', var(b'r')))));
    assert_eq!(zero.try_unchurch_num(), Some(0));
}

#[test]
fn church_nums_1() {
    let one = Expr::church_num(1);
    assert!(one.alpha_eq(&Expr::Abstr(b'd', abstr(b'r', appl(var(b'd'), var(b'r'))))));
    assert_eq!(one.try_unchurch_num(), Some(1));
}

#[test]
fn church_nums_7() {
    assert_eq!(Expr::church_num(7).try_unchurch_num(), Some(7));
}

#[test]
fn church_round_trip_to_ten_thousand() {
    let mut n: u32 = 0;
    while n <= 10000 {
        assert_eq!(Expr::church_num(n).try_unchurch_num(), Some(n));
        n += 1;
    }
}

#[test]
fn alpha_eq_is_reflexive_on_samples() {
    let samples = [
        r"\fad.da(lf)",
        r"\abc.ba(\b.cb)(\ac.ba)(\ap.caa)",
        r"a(sd)f",
        r"Some _n4me (\xy.x) f",
    ];
    for s in samples {
        let e = process(s);
        assert!(e.alpha_eq(&e));
    }
}

#[test]
fn size_counts_applications_through_children() {
    // \x. x y has a binder, two variables, and an application node that
    // weighs nothing of its own.
    let e = abstr(b'x', appl(var(b'x'), var(b'y')));
    assert_eq!(e.size(), 3);
    assert_eq!(process("asd").size(), 3);
}

#[test]
fn surface_form_round_trips() {
    let sources = [
        r"\asdf.pbj",
        r"(\x.x)a",
        r"(asa\df.fovp)(asdf)",
        r"\ame.\a.che",
        r"ab(cd)(\x.x)",
        r" Name x",
    ];
    for s in sources {
        let e1 = process(s);
        let printed = e1.surface();
        let e2 = process(&printed);
        assert!(e1.alpha_eq(&e2), "{} reparsed as {}", printed, e2.surface());
    }
}

#[test]
fn surface_form_exact() {
    assert_eq!(process(r"\asdf.(pb)j").surface(), r"\asdf.pbj");
    assert_eq!(process(r"(\x.x)a b").surface(), r"(\x.x)ab");
    assert_eq!(process("Foo x").surface(), " Foo x");
    assert_eq!(process(r"a((\b.b)c)").surface(), r"a((\b.b)c)");
}

#[test]
fn tree_form_exact() {
    let e = process(r"\ab.abc");
    assert_eq!(
        e.tree_form(),
        "Abstr a b\n`-.\n  |-Var a\n  |-Var b\n  `-Var c\n"
    );
}

#[test]
fn alpha_eq_is_directional() {
    // The binder translation maps right-side names to left-side names, so
    // the comparison is not symmetric when a free variable on the right
    // coincides with a translated binder name.
    let e1 = process(r"\a.a");
    let e2 = process(r"\b.a");
    assert!(e1.alpha_eq(&e2));
    assert!(!e2.alpha_eq(&e1));
}
