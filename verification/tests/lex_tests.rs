use rustlambda::lex::{lex, Token, TokenPos};

#[test]
fn lex1() {
    assert_eq!(lex("".as_bytes()).unwrap().len(), 0);
    assert_eq!(
        lex("as  df\ng".as_bytes()).unwrap().as_slice(),
        &[
            TokenPos {
                tok: Token::Char(b'a'),
                col: 1,
                row: 1
            },
            TokenPos {
                tok: Token::Char(b's'),
                col: 2,
                row: 1
            },
            TokenPos {
                tok: Token::Char(b'd'),
                col: 5,
                row: 1
            },
            TokenPos {
                tok: Token::Char(b'f'),
                col: 6,
                row: 1
            },
            TokenPos {
                tok: Token::Char(b'g'),
                col: 1,
                row: 2
            },
        ]
    );
    assert_eq!(
        lex("Name".as_bytes()).unwrap().as_slice(),
        &[TokenPos {
            tok: Token::Capitalized("Name".into()),
            col: 1,
            row: 1
        }]
    );
}

#[test]
fn lex2() {
    let src = r" (\fx.f(fx))(\fx.f(fx))";
    assert!(lex(src.as_bytes()).is_ok());
    let src = "\n\tt \\ \t\n  \n  \n\r \r  ";
    assert!(lex(src.as_bytes()).is_ok());
    let src = r"\asd \fj\asdgj s..jd.AS .DFja sdf\ .aghj";
    assert!(lex(src.as_bytes()).is_ok());
    let src = r"asdl\.\(()\)asfd fda \. a.\sd)()()l agsAS DF ((  ))";
    assert!(lex(src.as_bytes()).is_ok());
    // A semicolon is a statement terminator, so this line now lexes.
    let src = r" ahgsdfiphgp ;jhl3((((((((40218u fgSDFG as\\..\. \a\. ";
    assert!(lex(src.as_bytes()).is_ok());
    let src = r" ahgsdfiphgp jhl3((((((((40218u fgSDFG as\\./.\. \a\. ";
    assert!(lex(src.as_bytes()).is_err());
}

#[test]
fn lex_equals_and_semicolon_tokens() {
    let toks = lex("K = \\xy.x;".as_bytes()).unwrap();
    assert_eq!(
        toks.as_slice(),
        &[
            TokenPos {
                tok: Token::Capitalized("K".into()),
                col: 1,
                row: 1
            },
            TokenPos {
                tok: Token::Equals,
                col: 3,
                row: 1
            },
            TokenPos {
                tok: Token::Backslash,
                col: 5,
                row: 1
            },
            TokenPos {
                tok: Token::Char(b'x'),
                col: 6,
                row: 1
            },
            TokenPos {
                tok: Token::Char(b'y'),
                col: 7,
                row: 1
            },
            TokenPos {
                tok: Token::Dot,
                col: 8,
                row: 1
            },
            TokenPos {
                tok: Token::Char(b'x'),
                col: 9,
                row: 1
            },
            TokenPos {
                tok: Token::Semicolon,
                col: 10,
                row: 1
            },
        ]
    );
}

#[test]
fn lex_bad_char_position() {
    let err = lex("ab\ncd$e".as_bytes()).unwrap_err();
    assert_eq!(err.row(), 2);
    assert_eq!(err.col(), 3);
    assert_eq!(err.bad_byte(), b'$');
    assert_eq!(err.message(), "Bad char '$'");
}

#[test]
fn lex_crlf_counts_one_row() {
    let toks = lex("a\r\nb\rc".as_bytes()).unwrap();
    assert_eq!(toks.len(), 3);
    assert_eq!((toks[0].row, toks[0].col), (1, 1));
    assert_eq!((toks[1].row, toks[1].col), (2, 1));
    assert_eq!((toks[2].row, toks[2].col), (3, 1));
}
