use rustlambda::expr::Expr;
use rustlambda::lex::lex;
use rustlambda::parse::parse;

fn process(s: &str) -> Box<Expr> {
    parse(lex(s.as_bytes()).unwrap()).unwrap().1.unwrap()
}

fn parses_ok(s: &str) -> bool {
    match lex(s.as_bytes()) {
        Ok(toks) => parse(toks).is_ok(),
        Err(_) => false,
    }
}

#[test]
fn parse1() {
    let p1 = process("asd");
    let p1_shape = match &*p1 {
        Expr::Appl(a, d) => match (&**a, &**d) {
            (Expr::Appl(a2, s2), Expr::Variable(d2)) => match (&**a2, &**s2) {
                (Expr::Variable(a3), Expr::Variable(s3)) => {
                    *a3 == b'a' && *s3 == b's' && *d2 == b'd'
                }
                _ => false,
            },
            _ => false,
        },
        _ => false,
    };
    assert!(p1_shape);
    let p2 = process("(as)d");
    assert!(p1.alpha_eq(&p2));
    let p3 = process("a(sd)");
    assert!(!p1.alpha_eq(&p3));

    let p = process("Name");
    assert!(matches!(&*p, Expr::Name(n) if n == "Name"));
    let p = process("1234");
    assert!(matches!(&*p, Expr::Name(n) if n == "1234"));
    let p = process("_23asdf_dfs");
    assert!(matches!(&*p, Expr::Name(n) if n == "_23asdf_dfs"));

    let ok = [
        r"(as)dasfd",
        r"(as)dasfd",
        r"ASDFfdas",
        r"(asadf)(asdf)",
        r"\asdf.pbj",
        r"\asdf.(pb)j",
        r"(asa\df.fovp)(asdf)",
        r"(asa)asdf(asdf)",
        r"\ame.\a.che",
    ];
    assert!(ok.iter().all(|a| parses_ok(a)));

    let err = [
        r"asa)                ",
        r")                   ",
        r"(                   ",
        r"(aaa                ",
        r"(aaa(asdf)          ",
        r"pop)                ",
        r"\                   ",
        r"\sdf                ",
        r"\sdf.               ",
        r"\Name.a             ",
        r"\am\e.a             ",
        r"(asa\df.)(asdf)     ",
        r"(asa\.asdf)(asdf)   ",
        r"(asa\()).asdf)(asdf)",
        r"(asa\()(.asdf)(asdf)",
        r"()asdf(asdf)        ",
        r"asa)asdf(asdf       ",
    ];
    assert!(err.iter().all(|a| !parses_ok(a)));
}

#[test]
fn parse_error_paths() {
    // The structural failures the grammar owes, with their messages.
    let cases = [
        ("(", "Input ended with an open parenthesis"),
        (")", "Expression starts with a closing parenthesis"),
        (r"\.a", "Unexpected token"),
        (r"\a.", "Input ended with an open abstraction"),
        (";", "Unexpected token"),
    ];
    for (src, msg) in cases {
        let e = parse(lex(src.as_bytes()).unwrap()).unwrap_err();
        assert_eq!(e.msg, msg, "for source {:?}", src);
    }
    assert!(lex("$".as_bytes()).is_err());
}

#[test]
fn parse_definitions() {
    let (defs, main) = parse(lex("I = \\x.x; K = \\xy.x; I K".as_bytes()).unwrap()).unwrap();
    assert_eq!(defs.len(), 2);
    let i = defs.get(&"I".to_string()).unwrap();
    assert!(i.value.alpha_eq(&process(r"\x.x")));
    let k = defs.get(&"K".to_string()).unwrap();
    assert!(k.value.alpha_eq(&process(r"\xy.x")));
    assert!(main.unwrap().alpha_eq(&process(" I K ")));
}

#[test]
fn parse_definition_without_main() {
    let (defs, main) = parse(lex("OnlyDef = \\x.x x".as_bytes()).unwrap()).unwrap();
    assert_eq!(defs.len(), 1);
    assert!(main.is_none());
    assert!(defs.get(&"OnlyDef".to_string()).is_some());
}

#[test]
fn parse_bare_statement_is_discarded() {
    let (defs, main) = parse(lex("a b c; d".as_bytes()).unwrap()).unwrap();
    assert_eq!(defs.len(), 0);
    assert!(main.unwrap().alpha_eq(&process("d")));
}

#[test]
fn parse_error_position() {
    let e = parse(lex("ab\n c)".as_bytes()).unwrap()).unwrap_err();
    assert_eq!((e.row, e.col), (2, 3));
}
