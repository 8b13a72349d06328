use vstd::prelude::*;

use crate::expr::{Def, Defs, Expr};
use crate::lex::{Token, TokenPos};

verus! {

/// A positioned parse error with its human-readable message.
#[derive(Clone, Debug)]
pub struct ParseError {
    pub msg: String,
    pub row: u32,
    pub col: u32,
}

/// One entry of the parser's atom stack: a finished expression, a pending
/// abstraction parameter, a pending definition name, or a parenthesis mark.
pub enum Atom {
    E(Box<Expr>),
    AbstrParam(u8),
    Definition(String),
    ParenStart,
}

/// The parser's state machine.
#[derive(Copy, Clone, Debug, PartialEq, Eq)]
pub enum PState {
    Start,
    InExpr,
    AbstrInit,
    AbstrParams,
}

/// The structural conditions on which parsing fails.
#[derive(Copy, Clone, Debug, PartialEq, Eq)]
pub enum ParseErrKind {
    CloseEmptyExpr,
    CloseEmptyAbstrBody,
    CloseAtStart,
    CloseNoOpen,
    StmtOpenParen,
    StmtOpenAbstr,
    EmptyExpr,
    UnclosedParen,
    EndOpenParen,
    EndOpenAbstr,
    EmptyDefinition,
    EndInAbstr,
    UnexpectedTok,
}

/// What parsing yields: the definitions and optional main expression, or the
/// failure condition with its position.
pub enum ParseOut {
    Done(Map<Seq<char>, Expr>, Option<Expr>),
    Fail(ParseErrKind, int, int),
}

/// The message that belongs to each failure condition.
pub open spec fn kind_msg(k: ParseErrKind) -> Seq<char> {
    match k {
        ParseErrKind::CloseEmptyExpr => "Attempt to close an empty expression"@,
        ParseErrKind::CloseEmptyAbstrBody => "Attempt to close an abstraction with an empty body"@,
        ParseErrKind::CloseAtStart => "Expression starts with a closing parenthesis"@,
        ParseErrKind::CloseNoOpen => "Closing parenthesis has no opening parenthesis"@,
        ParseErrKind::StmtOpenParen => "Statement ended with an open parenthesis"@,
        ParseErrKind::StmtOpenAbstr => "Statement ended with an open abstraction"@,
        ParseErrKind::EmptyExpr => "Empty Expression"@,
        ParseErrKind::UnclosedParen => "An unclosed parenthesis"@,
        ParseErrKind::EndOpenParen => "Input ended with an open parenthesis"@,
        ParseErrKind::EndOpenAbstr => "Input ended with an open abstraction"@,
        ParseErrKind::EmptyDefinition => "Empty definition"@,
        ParseErrKind::EndInAbstr => "Input ended with an unfinished abstraction"@,
        ParseErrKind::UnexpectedTok => "Unexpected token"@,
    }
}

/// Appends an expression atom: when the stack already ends in an expression
/// the two fold into a left-associative application.
pub open spec fn append_spec(stack: Seq<Atom>, e: Expr) -> Seq<Atom> {
    if stack.len() > 0 && (stack.last() matches Atom::E(_)) {
        match stack.last() {
            Atom::E(before) => stack.drop_last().push(
                Atom::E(Box::new(Expr::Appl(before, Box::new(e)))),
            ),
            _ => stack,
        }
    } else {
        stack.push(Atom::E(Box::new(e)))
    }
}

/// Folds the stack down to the matching open parenthesis: abstraction
/// parameters bind their tail, stacked expressions apply left-to-right.
pub open spec fn fold_close(stack: Seq<Atom>, top: Expr) -> Result<(Seq<Atom>, Expr), ParseErrKind>
    decreases stack.len(),
{
    if stack.len() == 0 {
        Err(ParseErrKind::CloseNoOpen)
    } else {
        match stack.last() {
            Atom::ParenStart => Ok((stack.drop_last(), top)),
            Atom::AbstrParam(p) => fold_close(
                stack.drop_last(),
                Expr::Abstr(p, Box::new(top)),
            ),
            Atom::E(e) => fold_close(stack.drop_last(), Expr::Appl(e, Box::new(top))),
            Atom::Definition(_) => Err(ParseErrKind::CloseNoOpen),
        }
    }
}

/// Folds a finished statement: a definition at the bottom is recorded, a
/// bare expression is discarded.
pub open spec fn fold_stmt(stack: Seq<Atom>, top: Expr, defs: Map<Seq<char>, Expr>) -> Result<
    Map<Seq<char>, Expr>,
    ParseErrKind,
>
    decreases stack.len(),
{
    if stack.len() == 0 {
        Ok(defs)
    } else {
        match stack.last() {
            Atom::ParenStart => Err(ParseErrKind::UnclosedParen),
            Atom::AbstrParam(p) => fold_stmt(stack.drop_last(), Expr::Abstr(p, Box::new(top)), defs),
            Atom::E(e) => fold_stmt(stack.drop_last(), Expr::Appl(e, Box::new(top)), defs),
            Atom::Definition(s) => Ok(defs.insert(s@, top)),
        }
    }
}

/// Folds the stack at the end of input: a definition at the bottom is
/// recorded with no main expression, otherwise the fold is the main
/// expression.
pub open spec fn fold_end(stack: Seq<Atom>, top: Expr, defs: Map<Seq<char>, Expr>) -> Result<
    (Map<Seq<char>, Expr>, Option<Expr>),
    ParseErrKind,
>
    decreases stack.len(),
{
    if stack.len() == 0 {
        Ok((defs, Some(top)))
    } else {
        match stack.last() {
            Atom::ParenStart => Err(ParseErrKind::UnclosedParen),
            Atom::AbstrParam(p) => fold_end(stack.drop_last(), Expr::Abstr(p, Box::new(top)), defs),
            Atom::E(e) => fold_end(stack.drop_last(), Expr::Appl(e, Box::new(top)), defs),
            Atom::Definition(s) => Ok((defs.insert(s@, top), None)),
        }
    }
}

/// The single-pass stack-shunting parser over the token stream, from token
/// `i` in state `st`, with `grow`/`gcol` the position of the last token seen.
pub open spec fn parse_from(
    toks: Seq<TokenPos>,
    i: int,
    st: PState,
    stack: Seq<Atom>,
    defs: Map<Seq<char>, Expr>,
    grow: int,
    gcol: int,
) -> ParseOut
    decreases toks.len() - i, 1int,
{
    if i < 0 {
        ParseOut::Fail(ParseErrKind::UnexpectedTok, grow, gcol)
    } else if i >= toks.len() {
        match st {
            PState::AbstrInit | PState::AbstrParams => ParseOut::Fail(
                ParseErrKind::EndInAbstr,
                grow,
                gcol,
            ),
            _ => {
                if stack.len() == 0 {
                    ParseOut::Done(defs, None)
                } else {
                    match stack.last() {
                        Atom::ParenStart => ParseOut::Fail(ParseErrKind::EndOpenParen, grow, gcol),
                        Atom::AbstrParam(_) => ParseOut::Fail(
                            ParseErrKind::EndOpenAbstr,
                            grow,
                            gcol,
                        ),
                        Atom::Definition(_) => ParseOut::Fail(
                            ParseErrKind::EmptyDefinition,
                            grow,
                            gcol,
                        ),
                        Atom::E(top) => match fold_end(stack.drop_last(), *top, defs) {
                            Ok((d, m)) => ParseOut::Done(d, m),
                            Err(k) => ParseOut::Fail(k, grow, gcol),
                        },
                    }
                }
            },
        }
    } else {
        let tp = toks[i];
        let row = tp.row as int;
        let col = tp.col as int;
        match (st, tp.tok) {
            (PState::Start, Token::Char(v)) => parse_from(
                toks,
                i + 1,
                PState::InExpr,
                append_spec(stack, Expr::Variable(v)),
                defs,
                row,
                col,
            ),
            (PState::InExpr, Token::Char(v)) => parse_from(
                toks,
                i + 1,
                PState::InExpr,
                append_spec(stack, Expr::Variable(v)),
                defs,
                row,
                col,
            ),
            (PState::Start, Token::Capitalized(s)) => {
                if i + 1 < toks.len() && (toks[i + 1].tok matches Token::Equals) {
                    parse_from(
                        toks,
                        i + 2,
                        PState::InExpr,
                        stack.push(Atom::Definition(s)),
                        defs,
                        row,
                        col,
                    )
                } else {
                    parse_from(
                        toks,
                        i + 1,
                        PState::InExpr,
                        append_spec(stack, Expr::Name(s)),
                        defs,
                        row,
                        col,
                    )
                }
            },
            (PState::InExpr, Token::Capitalized(s)) => parse_from(
                toks,
                i + 1,
                PState::InExpr,
                append_spec(stack, Expr::Name(s)),
                defs,
                row,
                col,
            ),
            (PState::Start, Token::OpParen) => parse_from(
                toks,
                i + 1,
                PState::InExpr,
                stack.push(Atom::ParenStart),
                defs,
                row,
                col,
            ),
            (PState::InExpr, Token::OpParen) => parse_from(
                toks,
                i + 1,
                PState::InExpr,
                stack.push(Atom::ParenStart),
                defs,
                row,
                col,
            ),
            (PState::Start, Token::ClParen) => close_step(toks, i, stack, defs, row, col),
            (PState::InExpr, Token::ClParen) => close_step(toks, i, stack, defs, row, col),
            (PState::Start, Token::Backslash) => parse_from(
                toks,
                i + 1,
                PState::AbstrInit,
                stack,
                defs,
                row,
                col,
            ),
            (PState::InExpr, Token::Backslash) => parse_from(
                toks,
                i + 1,
                PState::AbstrInit,
                stack,
                defs,
                row,
                col,
            ),
            (PState::AbstrInit, Token::Char(v)) => parse_from(
                toks,
                i + 1,
                PState::AbstrParams,
                stack.push(Atom::AbstrParam(v)),
                defs,
                row,
                col,
            ),
            (PState::AbstrParams, Token::Char(v)) => parse_from(
                toks,
                i + 1,
                PState::AbstrParams,
                stack.push(Atom::AbstrParam(v)),
                defs,
                row,
                col,
            ),
            (PState::AbstrParams, Token::Dot) => parse_from(
                toks,
                i + 1,
                PState::InExpr,
                stack,
                defs,
                row,
                col,
            ),
            (PState::InExpr, Token::Semicolon) => {
                if stack.len() == 0 {
                    ParseOut::Fail(ParseErrKind::EmptyExpr, row, col)
                } else {
                    match stack.last() {
                        Atom::ParenStart => ParseOut::Fail(ParseErrKind::StmtOpenParen, row, col),
                        Atom::AbstrParam(_) => ParseOut::Fail(
                            ParseErrKind::StmtOpenAbstr,
                            row,
                            col,
                        ),
                        Atom::Definition(_) => ParseOut::Fail(ParseErrKind::EmptyExpr, row, col),
                        Atom::E(top) => match fold_stmt(stack.drop_last(), *top, defs) {
                            Ok(d) => parse_from(
                                toks,
                                i + 1,
                                PState::Start,
                                Seq::empty(),
                                d,
                                row,
                                col,
                            ),
                            Err(k) => ParseOut::Fail(k, row, col),
                        },
                    }
                }
            },
            _ => ParseOut::Fail(ParseErrKind::UnexpectedTok, row, col),
        }
    }
}

/// The closing-parenthesis step: pop the parenthesized expression, fold to
/// the mark, and append the result.
pub open spec fn close_step(
    toks: Seq<TokenPos>,
    i: int,
    stack: Seq<Atom>,
    defs: Map<Seq<char>, Expr>,
    row: int,
    col: int,
) -> ParseOut
    decreases toks.len() - i, 0int,
{
    if i < 0 || i >= toks.len() {
        ParseOut::Fail(ParseErrKind::CloseAtStart, row, col)
    } else if stack.len() == 0 {
        ParseOut::Fail(ParseErrKind::CloseAtStart, row, col)
    } else {
        match stack.last() {
            Atom::ParenStart => ParseOut::Fail(ParseErrKind::CloseEmptyExpr, row, col),
            Atom::AbstrParam(_) => ParseOut::Fail(ParseErrKind::CloseEmptyAbstrBody, row, col),
            Atom::Definition(_) => ParseOut::Fail(ParseErrKind::CloseAtStart, row, col),
            Atom::E(top) => match fold_close(stack.drop_last(), *top) {
                Ok((st2, folded)) => parse_from(
                    toks,
                    i + 1,
                    PState::InExpr,
                    append_spec(st2, folded),
                    defs,
                    row,
                    col,
                ),
                Err(k) => ParseOut::Fail(k, row, col),
            },
        }
    }
}

fn msg_of(k: ParseErrKind) -> (r: String)
    ensures
        r@ == kind_msg(k),
{
    match k {
        ParseErrKind::CloseEmptyExpr => "Attempt to close an empty expression".to_owned(),
        ParseErrKind::CloseEmptyAbstrBody => "Attempt to close an abstraction with an empty body"
            .to_owned(),
        ParseErrKind::CloseAtStart => "Expression starts with a closing parenthesis".to_owned(),
        ParseErrKind::CloseNoOpen => "Closing parenthesis has no opening parenthesis".to_owned(),
        ParseErrKind::StmtOpenParen => "Statement ended with an open parenthesis".to_owned(),
        ParseErrKind::StmtOpenAbstr => "Statement ended with an open abstraction".to_owned(),
        ParseErrKind::EmptyExpr => "Empty Expression".to_owned(),
        ParseErrKind::UnclosedParen => "An unclosed parenthesis".to_owned(),
        ParseErrKind::EndOpenParen => "Input ended with an open parenthesis".to_owned(),
        ParseErrKind::EndOpenAbstr => "Input ended with an open abstraction".to_owned(),
        ParseErrKind::EmptyDefinition => "Empty definition".to_owned(),
        ParseErrKind::EndInAbstr => "Input ended with an unfinished abstraction".to_owned(),
        ParseErrKind::UnexpectedTok => "Unexpected token".to_owned(),
    }
}

fn append(stack: &mut Vec<Atom>, expr: Box<Expr>)
    ensures
        final(stack)@ == append_spec(old(stack)@, *expr),
{
    let ghost orig = stack@;
    if stack.len() > 0 {
        let last = stack.pop();
        match last {
            Some(Atom::E(before)) => {
                stack.push(Atom::E(Box::new(Expr::Appl(before, expr))));
                proof {
                    assert(stack@ =~= append_spec(orig, *expr));
                }
            },
            Some(other) => {
                stack.push(other);
                proof {
                    assert(stack@ =~= orig);
                }
                stack.push(Atom::E(expr));
                proof {
                    assert(stack@ =~= append_spec(orig, *expr));
                }
            },
            None => {
                proof {
                    assert(false);
                }
            },
        }
    } else {
        stack.push(Atom::E(expr));
        proof {
            assert(stack@ =~= append_spec(orig, *expr));
        }
    }
}

fn fold_close_exec(stack: &mut Vec<Atom>, top: Box<Expr>) -> (r: Result<Box<Expr>, ParseErrKind>)
    ensures
        match fold_close(old(stack)@, *top) {
            Ok((st2, folded)) => r matches Ok(b) && *b == folded && final(stack)@ == st2,
            Err(k) => r matches Err(k2) && k2 == k,
        },
    decreases old(stack)@.len(),
{
    match stack.pop() {
        None => Err(ParseErrKind::CloseNoOpen),
        Some(Atom::ParenStart) => Ok(top),
        Some(Atom::AbstrParam(p)) => fold_close_exec(stack, Box::new(Expr::Abstr(p, top))),
        Some(Atom::E(e)) => fold_close_exec(stack, Box::new(Expr::Appl(e, top))),
        Some(Atom::Definition(_)) => Err(ParseErrKind::CloseNoOpen),
    }
}

fn fold_stmt_exec(stack: &mut Vec<Atom>, top: Box<Expr>, defs: &mut Defs) -> (r: Result<
    (),
    ParseErrKind,
>)
    requires
        old(defs).inv(),
    ensures
        final(defs).inv(),
        match fold_stmt(old(stack)@, *top, old(defs)@) {
            Ok(d) => r matches Ok(u) && final(defs)@ == d,
            Err(k) => r matches Err(k2) && k2 == k && final(defs)@ == old(defs)@,
        },
    decreases old(stack)@.len(),
{
    match stack.pop() {
        None => Ok(()),
        Some(Atom::ParenStart) => Err(ParseErrKind::UnclosedParen),
        Some(Atom::AbstrParam(p)) => fold_stmt_exec(stack, Box::new(Expr::Abstr(p, top)), defs),
        Some(Atom::E(e)) => fold_stmt_exec(stack, Box::new(Expr::Appl(e, top)), defs),
        Some(Atom::Definition(s)) => {
            defs.insert(s, Def { value: top });
            Ok(())
        },
    }
}

fn fold_end_exec(stack: &mut Vec<Atom>, top: Box<Expr>, defs: &mut Defs) -> (r: Result<
    Option<Box<Expr>>,
    ParseErrKind,
>)
    requires
        old(defs).inv(),
    ensures
        final(defs).inv(),
        match fold_end(old(stack)@, *top, old(defs)@) {
            Ok((d, m)) => r matches Ok(m2) && final(defs)@ == d && (match (m, m2) {
                (Some(e), Some(b)) => *b == e,
                (None, None) => true,
                _ => false,
            }),
            Err(k) => r matches Err(k2) && k2 == k && final(defs)@ == old(defs)@,
        },
    decreases old(stack)@.len(),
{
    match stack.pop() {
        None => Ok(Some(top)),
        Some(Atom::ParenStart) => Err(ParseErrKind::UnclosedParen),
        Some(Atom::AbstrParam(p)) => fold_end_exec(stack, Box::new(Expr::Abstr(p, top)), defs),
        Some(Atom::E(e)) => fold_end_exec(stack, Box::new(Expr::Appl(e, top)), defs),
        Some(Atom::Definition(s)) => {
            defs.insert(s, Def { value: top });
            Ok(None)
        },
    }
}

/// Parses the token stream into top-level definitions and an optional main
/// expression, or reports the first structural violation with its position.
pub fn parse(tokps: Vec<TokenPos>) -> (r: Result<(Defs, Option<Box<Expr>>), ParseError>)
    ensures
        match r {
            Ok(p) => parse_from(
                tokps@,
                0,
                PState::Start,
                Seq::empty(),
                Map::empty(),
                0,
                0,
            ) == ParseOut::Done(
                p.0@,
                match p.1 {
                    Some(b) => Some(*b),
                    None => None::<Expr>,
                },
            ),
            Err(e) => parse_from(tokps@, 0, PState::Start, Seq::empty(), Map::empty(), 0, 0)
                matches ParseOut::Fail(k, rr, cc) && e.row == rr && e.col == cc && e.msg@
                == kind_msg(k),
        },
{
    let ghost full = parse_from(tokps@, 0, PState::Start, Seq::empty(), Map::empty(), 0, 0);
    let n: usize = tokps.len();
    let mut state = PState::Start;
    let mut stack: Vec<Atom> = Vec::new();
    let mut defs = Defs::new();
    let mut grow: u32 = 0;
    let mut gcol: u32 = 0;
    let mut i: usize = 0;
    proof {
        assert(stack@ =~= Seq::<Atom>::empty());
        assert(defs@ =~= Map::<Seq<char>, Expr>::empty());
    }
    while i < n
        invariant
            n == tokps@.len(),
            0 <= i <= n,
            defs.inv(),
            full == parse_from(tokps@, 0, PState::Start, Seq::empty(), Map::empty(), 0, 0),
            full == parse_from(
                tokps@,
                i as int,
                state,
                stack@,
                defs@,
                grow as int,
                gcol as int,
            ),
        decreases n - i,
    {
        let ghost gstack = stack@;
        let ghost gdefs = defs@;
        let tok = tokps[i].tok.clone();
        let row = tokps[i].row;
        let col = tokps[i].col;
        proof {
            assert(tokps@[i as int].tok == tok);
        }
        match (state, tok) {
            (PState::Start, Token::Char(v)) | (PState::InExpr, Token::Char(v)) => {
                append(&mut stack, Box::new(Expr::Variable(v)));
                state = PState::InExpr;
                grow = row;
                gcol = col;
                i = i + 1;
            },
            (PState::Start, Token::Capitalized(s)) => {
                let is_def = i + 1 < n && matches!(tokps[i + 1].tok, Token::Equals);
                if is_def {
                    stack.push(Atom::Definition(s));
                    state = PState::InExpr;
                    grow = row;
                    gcol = col;
                    i = i + 2;
                } else {
                    append(&mut stack, Box::new(Expr::Name(s)));
                    state = PState::InExpr;
                    grow = row;
                    gcol = col;
                    i = i + 1;
                }
            },
            (PState::InExpr, Token::Capitalized(s)) => {
                append(&mut stack, Box::new(Expr::Name(s)));
                state = PState::InExpr;
                grow = row;
                gcol = col;
                i = i + 1;
            },
            (PState::Start, Token::OpParen) | (PState::InExpr, Token::OpParen) => {
                stack.push(Atom::ParenStart);
                state = PState::InExpr;
                grow = row;
                gcol = col;
                i = i + 1;
            },
            (PState::Start, Token::ClParen) | (PState::InExpr, Token::ClParen) => {
                proof {
                    assert(full == close_step(
                        tokps@,
                        i as int,
                        gstack,
                        gdefs,
                        row as int,
                        col as int,
                    ));
                }
                match stack.pop() {
                    None => {
                        proof {
                            assert(full == ParseOut::Fail(
                                ParseErrKind::CloseAtStart,
                                row as int,
                                col as int,
                            ));
                        }
                        return Err(ParseError {
                            msg: msg_of(ParseErrKind::CloseAtStart),
                            row,
                            col,
                        });
                    },
                    Some(Atom::ParenStart) => {
                        proof {
                            assert(full == ParseOut::Fail(
                                ParseErrKind::CloseEmptyExpr,
                                row as int,
                                col as int,
                            ));
                        }
                        return Err(ParseError {
                            msg: msg_of(ParseErrKind::CloseEmptyExpr),
                            row,
                            col,
                        });
                    },
                    Some(Atom::AbstrParam(_)) => {
                        proof {
                            assert(full == ParseOut::Fail(
                                ParseErrKind::CloseEmptyAbstrBody,
                                row as int,
                                col as int,
                            ));
                        }
                        return Err(ParseError {
                            msg: msg_of(ParseErrKind::CloseEmptyAbstrBody),
                            row,
                            col,
                        });
                    },
                    Some(Atom::Definition(_)) => {
                        proof {
                            assert(full == ParseOut::Fail(
                                ParseErrKind::CloseAtStart,
                                row as int,
                                col as int,
                            ));
                        }
                        return Err(ParseError {
                            msg: msg_of(ParseErrKind::CloseAtStart),
                            row,
                            col,
                        });
                    },
                    Some(Atom::E(top)) => {
                        match fold_close_exec(&mut stack, top) {
                            Ok(folded) => {
                                proof {
                                    assert(fold_close(gstack.drop_last(), *top) matches Ok(p2)
                                        && stack@ == p2.0 && *folded == p2.1);
                                }
                                append(&mut stack, folded);
                                state = PState::InExpr;
                                grow = row;
                                gcol = col;
                                i = i + 1;
                                proof {
                                    assert(full == parse_from(
                                        tokps@,
                                        i as int,
                                        state,
                                        stack@,
                                        defs@,
                                        grow as int,
                                        gcol as int,
                                    ));
                                }
                            },
                            Err(k) => {
                                proof {
                                    assert(fold_close(gstack.drop_last(), *top) matches Err(k2)
                                        && k2 == k);
                                    assert(full == ParseOut::Fail(k, row as int, col as int));
                                }
                                return Err(ParseError { msg: msg_of(k), row, col });
                            },
                        }
                    },
                }
            },
            (PState::Start, Token::Backslash) | (PState::InExpr, Token::Backslash) => {
                state = PState::AbstrInit;
                grow = row;
                gcol = col;
                i = i + 1;
            },
            (PState::AbstrInit, Token::Char(v)) => {
                stack.push(Atom::AbstrParam(v));
                state = PState::AbstrParams;
                grow = row;
                gcol = col;
                i = i + 1;
            },
            (PState::AbstrParams, Token::Char(v)) => {
                stack.push(Atom::AbstrParam(v));
                grow = row;
                gcol = col;
                i = i + 1;
            },
            (PState::AbstrParams, Token::Dot) => {
                state = PState::InExpr;
                grow = row;
                gcol = col;
                i = i + 1;
            },
            (PState::InExpr, Token::Semicolon) => {
                match stack.pop() {
                    None => {
                        proof {
                            assert(full == ParseOut::Fail(
                                ParseErrKind::EmptyExpr,
                                row as int,
                                col as int,
                            ));
                        }
                        return Err(ParseError { msg: msg_of(ParseErrKind::EmptyExpr), row, col });
                    },
                    Some(Atom::ParenStart) => {
                        proof {
                            assert(full == ParseOut::Fail(
                                ParseErrKind::StmtOpenParen,
                                row as int,
                                col as int,
                            ));
                        }
                        return Err(ParseError {
                            msg: msg_of(ParseErrKind::StmtOpenParen),
                            row,
                            col,
                        });
                    },
                    Some(Atom::AbstrParam(_)) => {
                        proof {
                            assert(full == ParseOut::Fail(
                                ParseErrKind::StmtOpenAbstr,
                                row as int,
                                col as int,
                            ));
                        }
                        return Err(ParseError {
                            msg: msg_of(ParseErrKind::StmtOpenAbstr),
                            row,
                            col,
                        });
                    },
                    Some(Atom::Definition(_)) => {
                        proof {
                            assert(full == ParseOut::Fail(
                                ParseErrKind::EmptyExpr,
                                row as int,
                                col as int,
                            ));
                        }
                        return Err(ParseError { msg: msg_of(ParseErrKind::EmptyExpr), row, col });
                    },
                    Some(Atom::E(top)) => {
                        match fold_stmt_exec(&mut stack, top, &mut defs) {
                            Ok(_) => {
                                proof {
                                    assert(fold_stmt(gstack.drop_last(), *top, gdefs) matches Ok(
                                        d,
                                    ) && defs@ == d);
                                }
                                stack = Vec::new();
                                state = PState::Start;
                                grow = row;
                                gcol = col;
                                i = i + 1;
                                proof {
                                    assert(stack@ =~= Seq::<Atom>::empty());
                                    assert(full == parse_from(
                                        tokps@,
                                        i as int,
                                        state,
                                        stack@,
                                        defs@,
                                        grow as int,
                                        gcol as int,
                                    ));
                                }
                            },
                            Err(k) => {
                                proof {
                                    assert(fold_stmt(gstack.drop_last(), *top, gdefs) matches Err(
                                        k2,
                                    ) && k2 == k);
                                    assert(full == ParseOut::Fail(k, row as int, col as int));
                                }
                                return Err(ParseError { msg: msg_of(k), row, col });
                            },
                        }
                    },
                }
            },
            (_, _) => {
                proof {
                    assert(full == parse_from(
                        tokps@,
                        i as int,
                        state,
                        gstack,
                        gdefs,
                        grow as int,
                        gcol as int,
                    ));
                    assert(full == ParseOut::Fail(ParseErrKind::UnexpectedTok, row as int, col as int));
                }
                return Err(ParseError { msg: msg_of(ParseErrKind::UnexpectedTok), row, col });
            },
        }
    }
    match state {
        PState::AbstrInit | PState::AbstrParams => {
            Err(ParseError { msg: msg_of(ParseErrKind::EndInAbstr), row: grow, col: gcol })
        },
        _ => {
            match stack.pop() {
                None => Ok((defs, None)),
                Some(Atom::ParenStart) => {
                    Err(ParseError { msg: msg_of(ParseErrKind::EndOpenParen), row: grow, col: gcol })
                },
                Some(Atom::AbstrParam(_)) => {
                    Err(ParseError { msg: msg_of(ParseErrKind::EndOpenAbstr), row: grow, col: gcol })
                },
                Some(Atom::Definition(_)) => {
                    Err(
                        ParseError {
                            msg: msg_of(ParseErrKind::EmptyDefinition),
                            row: grow,
                            col: gcol,
                        },
                    )
                },
                Some(Atom::E(top)) => {
                    match fold_end_exec(&mut stack, top, &mut defs) {
                        Ok(m) => Ok((defs, m)),
                        Err(k) => Err(ParseError { msg: msg_of(k), row: grow, col: gcol }),
                    }
                },
            }
        },
    }
}

} // verus!
