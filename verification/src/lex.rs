use vstd::prelude::*;

verus! {

pub const B_TAB: u8 = 9;

pub const B_LF: u8 = 10;

pub const B_CR: u8 = 13;

pub const B_SPACE: u8 = 32;

pub const B_DOT: u8 = 46;

pub const B_SEMI: u8 = 59;

pub const B_EQUALS: u8 = 61;

pub const B_OPPAREN: u8 = 40;

pub const B_CLPAREN: u8 = 41;

pub const B_BACKSLASH: u8 = 92;

/// A lexical token of the surface syntax.
#[derive(Debug, Eq, PartialEq)]
pub enum Token {
    Char(u8),
    Capitalized(String),
    Backslash,
    Dot,
    OpParen,
    ClParen,
    Equals,
    Semicolon,
}

/// A token together with its 1-indexed source row and column.
#[derive(Debug, Eq, PartialEq)]
pub struct TokenPos {
    pub tok: Token,
    pub row: u32,
    pub col: u32,
}

/// A positioned lexical error: the offending byte and where it sat.
#[derive(Clone, Debug)]
pub struct LexError {
    row: u32,
    col: u32,
    byte: u8,
}

/// The mathematical form of a token, with identifier text as a sequence.
pub enum TokModel {
    Chr(u8),
    Ident(Seq<char>),
    Bslash,
    DotTok,
    OpPar,
    ClPar,
    Equ,
    Semi,
}

/// What the lexer yields: the positioned tokens, or the position and byte of
/// the first bad character.
pub enum LexOut {
    Toks(Seq<(TokModel, int, int)>),
    Fail(int, int, u8),
}

pub open spec fn is_lower_byte(b: u8) -> bool {
    97 <= b && b <= 122
}

pub open spec fn is_ident_start(b: u8) -> bool {
    (65 <= b && b <= 90) || (48 <= b && b <= 57) || b == 95
}

pub open spec fn is_ident_cont(b: u8) -> bool {
    is_ident_start(b) || is_lower_byte(b)
}

pub open spec fn is_single_byte(b: u8) -> bool {
    b == B_OPPAREN || b == B_CLPAREN || b == B_BACKSLASH || b == B_DOT || b == B_EQUALS || b
        == B_SEMI
}

pub open spec fn single_tok(b: u8) -> TokModel {
    if b == B_OPPAREN {
        TokModel::OpPar
    } else if b == B_CLPAREN {
        TokModel::ClPar
    } else if b == B_BACKSLASH {
        TokModel::Bslash
    } else if b == B_DOT {
        TokModel::DotTok
    } else if b == B_EQUALS {
        TokModel::Equ
    } else {
        TokModel::Semi
    }
}

/// The first position at or after `j` that does not continue an identifier.
pub open spec fn ident_end(s: Seq<u8>, j: int) -> int
    decreases s.len() - j,
{
    if j < 0 || j >= s.len() || !is_ident_cont(s[j]) {
        j
    } else {
        ident_end(s, j + 1)
    }
}

/// A name this lexer can produce: a non-empty ASCII identifier that opens
/// with an uppercase letter, digit or underscore and continues with
/// identifier characters.
pub open spec fn ident_shaped(s: Seq<char>) -> bool {
    &&& s.len() > 0
    &&& vstd::utf8::is_ascii_chars(s)
    &&& is_ident_start(s[0] as u8)
    &&& forall|i: int| 1 <= i < s.len() ==> is_ident_cont(#[trigger] s[i] as u8)
}

/// The shape every produced token kind has: single characters are lowercase
/// letters, identifiers are identifier-shaped.
pub open spec fn kind_wf(m: TokModel) -> bool {
    match m {
        TokModel::Chr(b) => is_lower_byte(b),
        TokModel::Ident(q) => ident_shaped(q),
        _ => true,
    }
}

/// The characters of the identifier spanning `[i, j)`.
pub open spec fn ident_chars(s: Seq<u8>, i: int, j: int) -> Seq<char> {
    s.subrange(i, j).map(|_k: int, b: u8| b as char)
}

/// Puts already-produced tokens in front of the rest of a lexer outcome.
pub open spec fn out_prepend(done: Seq<(TokModel, int, int)>, rest: LexOut) -> LexOut {
    match rest {
        LexOut::Toks(ts) => LexOut::Toks(done + ts),
        LexOut::Fail(r, c, b) => LexOut::Fail(r, c, b),
    }
}

/// The lexer, one byte class at a time: whitespace is skipped, newlines
/// advance the row (a carriage return swallows a following line feed),
/// single characters and lowercase letters become tokens, identifier heads
/// extend greedily, and anything else fails at its position.
pub open spec fn lex_from(s: Seq<u8>, i: int, row: int, col: int) -> LexOut
    decreases s.len() - i,
    via lex_from_dec
{
    if i < 0 || i >= s.len() {
        LexOut::Toks(Seq::empty())
    } else {
        let b = s[i];
        if b == B_SPACE || b == B_TAB {
            lex_from(s, i + 1, row, col + 1)
        } else if b == B_LF {
            lex_from(s, i + 1, row + 1, 1)
        } else if b == B_CR {
            if i + 1 < s.len() && s[i + 1] == B_LF {
                lex_from(s, i + 2, row + 1, 1)
            } else {
                lex_from(s, i + 1, row + 1, 1)
            }
        } else if is_single_byte(b) {
            out_prepend(seq![(single_tok(b), row, col)], lex_from(s, i + 1, row, col + 1))
        } else if is_lower_byte(b) {
            out_prepend(seq![(TokModel::Chr(b), row, col)], lex_from(s, i + 1, row, col + 1))
        } else if is_ident_start(b) {
            let j = ident_end(s, i + 1);
            out_prepend(
                seq![(TokModel::Ident(ident_chars(s, i, j)), row, col)],
                lex_from(s, j, row, col + (j - i)),
            )
        } else {
            LexOut::Fail(row, col, b)
        }
    }
}

#[via_fn]
proof fn lex_from_dec(s: Seq<u8>, i: int, row: int, col: int) {
    if 0 <= i && i < s.len() {
        lemma_ident_end_bounds(s, i + 1);
    }
}

proof fn lemma_ident_end_bounds(s: Seq<u8>, a: int)
    requires
        0 <= a <= s.len(),
    ensures
        a <= ident_end(s, a) <= s.len(),
    decreases s.len() - a,
{
    if !(a >= s.len() || !is_ident_cont(s[a])) {
        lemma_ident_end_bounds(s, a + 1);
    }
}

/// Every token the lexer produces has a well-shaped kind.
pub proof fn lemma_lex_kinds_wf(s: Seq<u8>, i: int, row: int, col: int, ts: Seq<(TokModel, int, int)>)
    requires
        lex_from(s, i, row, col) == LexOut::Toks(ts),
    ensures
        forall|k: int| 0 <= k < ts.len() ==> kind_wf(#[trigger] ts[k].0),
    decreases s.len() - i,
{
    if 0 <= i && i < s.len() {
        let b = s[i];
        if b == B_SPACE || b == B_TAB {
            lemma_lex_kinds_wf(s, i + 1, row, col + 1, ts);
        } else if b == B_LF {
            lemma_lex_kinds_wf(s, i + 1, row + 1, 1, ts);
        } else if b == B_CR {
            if i + 1 < s.len() && s[i + 1] == B_LF {
                lemma_lex_kinds_wf(s, i + 2, row + 1, 1, ts);
            } else {
                lemma_lex_kinds_wf(s, i + 1, row + 1, 1, ts);
            }
        } else if is_single_byte(b) || is_lower_byte(b) {
            let t = if is_single_byte(b) {
                single_tok(b)
            } else {
                TokModel::Chr(b)
            };
            match lex_from(s, i + 1, row, col + 1) {
                LexOut::Toks(ts2) => {
                    assert(ts == seq![(t, row, col)] + ts2);
                    lemma_lex_kinds_wf(s, i + 1, row, col + 1, ts2);
                    assert forall|k: int| 0 <= k < ts.len() implies kind_wf(
                        #[trigger] ts[k].0,
                    ) by {
                        if k == 0 {
                            assert(ts[0].0 == t);
                        } else {
                            assert(ts[k] == ts2[k - 1]);
                        }
                    }
                },
                LexOut::Fail(_, _, _) => {
                    assert(false);
                },
            }
        } else if is_ident_start(b) {
            lemma_ident_end_bounds(s, i + 1);
            lemma_ident_end_cont(s, i + 1);
            let j = ident_end(s, i + 1);
            let q = ident_chars(s, i, j);
            match lex_from(s, j, row, col + (j - i)) {
                LexOut::Toks(ts2) => {
                    assert(ts == seq![(TokModel::Ident(q), row, col)] + ts2);
                    lemma_lex_kinds_wf(s, j, row, col + (j - i), ts2);
                    assert(ident_shaped(q)) by {
                        assert(q.len() == j - i);
                        assert forall|k: int| 0 <= k < q.len() implies '\0' <= #[trigger] q[k]
                            <= '\u{7f}' by {
                            assert(q[k] == s.subrange(i, j)[k] as char);
                            assert(s.subrange(i, j)[k] == s[i + k]);
                            assert(is_ident_cont(s[i + k]) || is_ident_start(s[i + k]));
                        }
                        assert(vstd::utf8::is_ascii_chars(q));
                        assert(q[0] == s[i] as char);
                        assert(s[i] < 128);
                        assert(q[0] as u8 == s[i]);
                        assert(is_ident_start(q[0] as u8));
                        assert forall|k: int| 1 <= k < q.len() implies is_ident_cont(
                            #[trigger] q[k] as u8,
                        ) by {
                            assert(q[k] == s.subrange(i, j)[k] as char);
                            assert(s.subrange(i, j)[k] == s[i + k]);
                            assert(is_ident_cont(s[i + k]));
                            assert(s[i + k] < 128);
                            assert(q[k] as u8 == s[i + k]);
                        }
                    }
                    assert forall|k: int| 0 <= k < ts.len() implies kind_wf(
                        #[trigger] ts[k].0,
                    ) by {
                        if k == 0 {
                            assert(ts[0].0 == TokModel::Ident(q));
                        } else {
                            assert(ts[k] == ts2[k - 1]);
                        }
                    }
                },
                LexOut::Fail(_, _, _) => {
                    assert(false);
                },
            }
        } else {
            assert(false);
        }
    } else {
        assert(ts.len() == 0);
    }
}

/// The model of an executable token.
pub open spec fn tok_model(t: Token) -> TokModel {
    match t {
        Token::Char(b) => TokModel::Chr(b),
        Token::Capitalized(s) => TokModel::Ident(s@),
        Token::Backslash => TokModel::Bslash,
        Token::Dot => TokModel::DotTok,
        Token::OpParen => TokModel::OpPar,
        Token::ClParen => TokModel::ClPar,
        Token::Equals => TokModel::Equ,
        Token::Semicolon => TokModel::Semi,
    }
}

pub open spec fn tokpos_model(tp: TokenPos) -> (TokModel, int, int) {
    (tok_model(tp.tok), tp.row as int, tp.col as int)
}

pub open spec fn toks_model(v: Seq<TokenPos>) -> Seq<(TokModel, int, int)> {
    v.map(|_k: int, tp: TokenPos| tokpos_model(tp))
}

pub proof fn lemma_out_prepend_assoc(a: Seq<(TokModel, int, int)>, b: Seq<(TokModel, int, int)>, r: LexOut)
    ensures
        out_prepend(a, out_prepend(b, r)) == out_prepend(a + b, r),
{
    match r {
        LexOut::Toks(ts) => {
            assert(a + (b + ts) =~= (a + b) + ts);
        },
        LexOut::Fail(_, _, _) => {},
    }
}

pub proof fn lemma_ident_end_at(s: Seq<u8>, a: int, j: int)
    requires
        0 <= a <= j <= s.len(),
        forall|k: int| a <= k < j ==> is_ident_cont(s[k]),
        j == s.len() || !is_ident_cont(s[j]),
    ensures
        ident_end(s, a) == j,
    decreases j - a,
{
    if a < j {
        lemma_ident_end_at(s, a + 1, j);
    }
}

/// The row and column of the byte at index `j`, computed by walking the
/// prefix with the lexer's own rules: a line feed opens a new row unless a
/// carriage return just swallowed it, a carriage return opens a new row,
/// and every other byte advances the column.
pub open spec fn rc_at(s: Seq<u8>, j: int) -> (int, int)
    decreases j,
{
    if j <= 0 {
        (1, 1)
    } else {
        let prev = rc_at(s, j - 1);
        let b = s[j - 1];
        if b == B_LF {
            if j >= 2 && s[j - 2] == B_CR {
                prev
            } else {
                (prev.0 + 1, 1)
            }
        } else if b == B_CR {
            (prev.0 + 1, 1)
        } else {
            (prev.0, prev.1 + 1)
        }
    }
}

/// Index `j` does not point at a line feed swallowed by a carriage return.
pub open spec fn not_swallowed(s: Seq<u8>, i: int) -> bool {
    i <= 0 || !(s[i - 1] == B_CR && i < s.len() && s[i] == B_LF)
}

/// The literal form of a token is present in the source at index `j`.
pub open spec fn token_text_at(s: Seq<u8>, j: int, t: TokModel) -> bool {
    match t {
        TokModel::Chr(b) => 0 <= j < s.len() && s[j] == b,
        TokModel::Ident(q) => 0 <= j && j + q.len() <= s.len() && q.len() > 0 && q == ident_chars(
            s,
            j,
            j + q.len(),
        ),
        TokModel::Bslash => 0 <= j < s.len() && s[j] == B_BACKSLASH,
        TokModel::DotTok => 0 <= j < s.len() && s[j] == B_DOT,
        TokModel::OpPar => 0 <= j < s.len() && s[j] == B_OPPAREN,
        TokModel::ClPar => 0 <= j < s.len() && s[j] == B_CLPAREN,
        TokModel::Equ => 0 <= j < s.len() && s[j] == B_EQUALS,
        TokModel::Semi => 0 <= j < s.len() && s[j] == B_SEMI,
    }
}

/// Every token a successful lex yields sits in the source at its reported
/// row and column: the bytes there spell the token's literal form.
pub proof fn lemma_token_positions(s: Seq<u8>, ts: Seq<(TokModel, int, int)>)
    requires
        lex_from(s, 0, 1, 1) == LexOut::Toks(ts),
    ensures
        forall|k: int|
            0 <= k < ts.len() ==> exists|j: int|
                rc_at(s, j) == (#[trigger] ts[k].1, ts[k].2) && token_text_at(s, j, ts[k].0),
{
    assert(rc_at(s, 0) == (1int, 1int));
    assert(not_swallowed(s, 0));
    lemma_token_positions_from(s, 0, 1int, 1int, ts);
    assert forall|k: int| 0 <= k < ts.len() implies exists|j: int|
        rc_at(s, j) == (#[trigger] ts[k].1, ts[k].2) && token_text_at(s, j, ts[k].0) by {}
}

proof fn lemma_rc_ident(s: Seq<u8>, i: int, j: int)
    requires
        0 <= i <= j <= s.len(),
        forall|k: int| i <= k < j ==> #[trigger] s[k] != B_LF && s[k] != B_CR,
    ensures
        rc_at(s, j) == (rc_at(s, i).0, rc_at(s, i).1 + (j - i)),
    decreases j - i,
{
    if i < j {
        lemma_rc_ident(s, i, j - 1);
    }
}

proof fn lemma_token_positions_from(s: Seq<u8>, i: int, row: int, col: int, ts: Seq<(TokModel, int, int)>)
    requires
        0 <= i <= s.len(),
        rc_at(s, i) == (row, col),
        not_swallowed(s, i),
        lex_from(s, i, row, col) == LexOut::Toks(ts),
    ensures
        forall|k: int|
            0 <= k < ts.len() ==> exists|j: int|
                rc_at(s, j) == (#[trigger] ts[k].1, ts[k].2) && token_text_at(s, j, ts[k].0),
    decreases s.len() - i,
{
    if i >= s.len() {
        assert(ts.len() == 0);
    } else {
        let b = s[i];
        if b == B_SPACE || b == B_TAB {
            assert(rc_at(s, i + 1) == (row, col + 1));
            lemma_token_positions_from(s, i + 1, row, col + 1, ts);
        } else if b == B_LF {
            assert(rc_at(s, i + 1) == (row + 1, 1int));
            lemma_token_positions_from(s, i + 1, row + 1, 1int, ts);
        } else if b == B_CR {
            if i + 1 < s.len() && s[i + 1] == B_LF {
                assert(rc_at(s, i + 1) == (row + 1, 1int));
                assert(rc_at(s, i + 2) == (row + 1, 1int));
                lemma_token_positions_from(s, i + 2, row + 1, 1int, ts);
            } else {
                assert(rc_at(s, i + 1) == (row + 1, 1int));
                lemma_token_positions_from(s, i + 1, row + 1, 1int, ts);
            }
        } else if is_single_byte(b) || is_lower_byte(b) {
            let t = if is_single_byte(b) {
                single_tok(b)
            } else {
                TokModel::Chr(b)
            };
            let rest = lex_from(s, i + 1, row, col + 1);
            match rest {
                LexOut::Toks(ts2) => {
                    assert(ts == seq![(t, row, col)] + ts2);
                    assert(rc_at(s, i + 1) == (row, col + 1));
                    lemma_token_positions_from(s, i + 1, row, col + 1, ts2);
                    assert forall|k: int| 0 <= k < ts.len() implies exists|j: int|
                        rc_at(s, j) == (#[trigger] ts[k].1, ts[k].2) && token_text_at(
                            s,
                            j,
                            ts[k].0,
                        ) by {
                        if k == 0 {
                            assert(rc_at(s, i) == (ts[0].1, ts[0].2) && token_text_at(
                                s,
                                i,
                                ts[0].0,
                            ));
                        } else {
                            assert(ts[k] == ts2[k - 1]);
                        }
                    }
                },
                LexOut::Fail(_, _, _) => {
                    assert(false);
                },
            }
        } else if is_ident_start(b) {
            lemma_ident_end_bounds(s, i + 1);
            let j = ident_end(s, i + 1);
            let q = ident_chars(s, i, j);
            let t = TokModel::Ident(q);
            let rest = lex_from(s, j, row, col + (j - i));
            lemma_ident_end_cont(s, i + 1);
            assert forall|k: int| i <= k < j implies #[trigger] s[k] != B_LF && s[k] != B_CR by {
                if k > i {
                    assert(is_ident_cont(s[k]));
                }
            }
            lemma_rc_ident(s, i, j);
            assert(rc_at(s, j) == (row, col + (j - i)));
            match rest {
                LexOut::Toks(ts2) => {
                    assert(ts == seq![(t, row, col)] + ts2);
                    lemma_token_positions_from(s, j, row, col + (j - i), ts2);
                    assert forall|k: int| 0 <= k < ts.len() implies exists|j2: int|
                        rc_at(s, j2) == (#[trigger] ts[k].1, ts[k].2) && token_text_at(
                            s,
                            j2,
                            ts[k].0,
                        ) by {
                        if k == 0 {
                            assert(q.len() == j - i);
                            assert(rc_at(s, i) == (ts[0].1, ts[0].2) && token_text_at(
                                s,
                                i,
                                ts[0].0,
                            ));
                        } else {
                            assert(ts[k] == ts2[k - 1]);
                        }
                    }
                },
                LexOut::Fail(_, _, _) => {
                    assert(false);
                },
            }
        } else {
            assert(false);
        }
    }
}

proof fn lemma_ident_end_cont(s: Seq<u8>, a: int)
    requires
        0 <= a <= s.len(),
    ensures
        forall|k: int| a <= k < ident_end(s, a) ==> is_ident_cont(#[trigger] s[k]),
    decreases s.len() - a,
{
    if !(a >= s.len() || !is_ident_cont(s[a])) {
        lemma_ident_end_cont(s, a + 1);
    }
}

fn byte_continues_ident(b: u8) -> (r: bool)
    ensures
        r == is_ident_cont(b),
{
    (65 <= b && b <= 90) || (48 <= b && b <= 57) || b == 95 || (97 <= b && b <= 122)
}

/// Relies on `String::from_utf8`: ASCII bytes decode to the same characters,
/// one per byte.
#[verifier::external_body]
pub(crate) fn string_from_ascii(v: Vec<u8>) -> (r: String)
    requires
        forall|i: int| 0 <= i < v@.len() ==> v@[i] < 128,
    ensures
        r@ == v@.map(|_k: int, b: u8| b as char),
{
    match String::from_utf8(v) {
        Ok(s) => s,
        Err(_) => String::new(),
    }
}

/// Relies on `format!` and `core::ascii::escape_default` to render the
/// offending byte readably; the exact text is presentation only.
#[verifier::external_body]
fn bad_char_text(b: u8) -> String {
    format!("Bad char '{}'", core::ascii::escape_default(b))
}

impl Clone for Token {
    /// A clone of a token is the same token.
    fn clone(&self) -> (r: Self)
        ensures
            r == *self,
    {
        match self {
            Token::Char(b) => Token::Char(*b),
            Token::Capitalized(s) => Token::Capitalized(s.clone()),
            Token::Backslash => Token::Backslash,
            Token::Dot => Token::Dot,
            Token::OpParen => Token::OpParen,
            Token::ClParen => Token::ClParen,
            Token::Equals => Token::Equals,
            Token::Semicolon => Token::Semicolon,
        }
    }
}

impl Clone for TokenPos {
    /// A clone of a positioned token keeps the token and its position.
    fn clone(&self) -> (r: Self)
        ensures
            r == *self,
    {
        TokenPos { tok: self.tok.clone(), row: self.row, col: self.col }
    }
}

impl LexError {
    /// The 1-indexed row of the offending byte.
    pub fn row(&self) -> (r: u32)
        ensures
            r as int == self.pos().0,
    {
        self.row
    }

    /// The 1-indexed column of the offending byte.
    pub fn col(&self) -> (r: u32)
        ensures
            r as int == self.pos().1,
    {
        self.col
    }

    /// The offending byte itself.
    pub fn bad_byte(&self) -> (r: u8)
        ensures
            r == self.pos().2,
    {
        self.byte
    }

    /// A human-readable description of the error.
    pub fn message(&self) -> String {
        bad_char_text(self.byte)
    }

    pub closed spec fn pos(&self) -> (int, int, u8) {
        (self.row as int, self.col as int, self.byte)
    }
}

/// Turns a byte stream into positioned tokens, or reports the first byte
/// that no token can start with, together with its position.
pub fn lex(input: &[u8]) -> (r: Result<Vec<TokenPos>, LexError>)
    requires
        input@.len() < u32::MAX,
    ensures
        match r {
            Ok(v) => lex_from(input@, 0, 1, 1) == LexOut::Toks(toks_model(v@)),
            Err(e) => lex_from(input@, 0, 1, 1) == LexOut::Fail(e.pos().0, e.pos().1, e.pos().2),
        },
{
    let ghost s = input@;
    let n: usize = input.len();
    let mut vec: Vec<TokenPos> = Vec::new();
    let mut col: u32 = 1;
    let mut row: u32 = 1;
    let mut i: usize = 0;
    proof {
        assert(toks_model(vec@) =~= Seq::<(TokModel, int, int)>::empty());
    }
    while i < n
        invariant
            n == s.len(),
            n < u32::MAX,
            s == input@,
            0 <= i <= n,
            1 <= row as int <= i + 1,
            1 <= col as int <= i + 1,
            lex_from(s, 0, 1, 1) == out_prepend(
                toks_model(vec@),
                lex_from(s, i as int, row as int, col as int),
            ),
        decreases n - i,
    {
        let c = input[i];
        if c == B_SPACE || c == B_TAB {
            i = i + 1;
            col = col + 1;
        } else if c == B_LF {
            i = i + 1;
            row = row + 1;
            col = 1;
        } else if c == B_CR {
            if i + 1 < n && input[i + 1] == B_LF {
                i = i + 2;
            } else {
                i = i + 1;
            }
            row = row + 1;
            col = 1;
        } else if c == B_OPPAREN || c == B_CLPAREN || c == B_BACKSLASH || c == B_DOT || c
            == B_EQUALS || c == B_SEMI {
            let tok = if c == B_OPPAREN {
                Token::OpParen
            } else if c == B_CLPAREN {
                Token::ClParen
            } else if c == B_BACKSLASH {
                Token::Backslash
            } else if c == B_DOT {
                Token::Dot
            } else if c == B_EQUALS {
                Token::Equals
            } else {
                Token::Semicolon
            };
            let ghost before = vec@;
            vec.push(TokenPos { tok, row, col });
            proof {
                assert(toks_model(vec@) =~= toks_model(before) + seq![
                    (single_tok(c), row as int, col as int),
                ]);
                lemma_out_prepend_assoc(
                    toks_model(before),
                    seq![(single_tok(c), row as int, col as int)],
                    lex_from(s, i + 1, row as int, col as int + 1),
                );
            }
            i = i + 1;
            col = col + 1;
        } else if 97 <= c && c <= 122 {
            let ghost before = vec@;
            vec.push(TokenPos { tok: Token::Char(c), row, col });
            proof {
                assert(toks_model(vec@) =~= toks_model(before) + seq![
                    (TokModel::Chr(c), row as int, col as int),
                ]);
                lemma_out_prepend_assoc(
                    toks_model(before),
                    seq![(TokModel::Chr(c), row as int, col as int)],
                    lex_from(s, i + 1, row as int, col as int + 1),
                );
            }
            i = i + 1;
            col = col + 1;
        } else if (65 <= c && c <= 90) || (48 <= c && c <= 57) || c == 95 {
            let mut bytes: Vec<u8> = Vec::new();
            bytes.push(c);
            let mut j: usize = i + 1;
            while j < n && byte_continues_ident(input[j])
                invariant
                    n == s.len(),
                    s == input@,
                    i < n,
                    i + 1 <= j <= n,
                    forall|k: int| i < k < j ==> is_ident_cont(s[k]),
                    bytes@ == s.subrange(i as int, j as int),
                decreases n - j,
            {
                let ghost bb = bytes@;
                bytes.push(input[j]);
                proof {
                    assert(bytes@ =~= s.subrange(i as int, j + 1));
                }
                j = j + 1;
            }
            proof {
                lemma_ident_end_at(s, i as int + 1, j as int);
                assert forall|k: int| 0 <= k < bytes@.len() implies bytes@[k] < 128 by {
                    if k == 0 {
                        assert(bytes@[0] == c);
                    } else {
                        assert(bytes@[k] == s[i + k]);
                        assert(is_ident_cont(s[i + k]));
                    }
                }
            }
            let text = string_from_ascii(bytes);
            let ghost before = vec@;
            let scol = col;
            let srow = row;
            proof {
                assert(text@ =~= ident_chars(s, i as int, j as int));
            }
            vec.push(TokenPos { tok: Token::Capitalized(text), row: srow, col: scol });
            proof {
                assert(toks_model(vec@) =~= toks_model(before) + seq![
                    (
                        TokModel::Ident(ident_chars(s, i as int, j as int)),
                        row as int,
                        col as int,
                    ),
                ]);
                lemma_out_prepend_assoc(
                    toks_model(before),
                    seq![
                        (
                            TokModel::Ident(ident_chars(s, i as int, j as int)),
                            row as int,
                            col as int,
                        ),
                    ],
                    lex_from(s, j as int, row as int, col as int + (j - i)),
                );
            }
            col = col + ((j - i) as u32);
            i = j;
        } else {
            return Err(LexError { row, col, byte: c });
        }
    }
    proof {
        assert(lex_from(s, i as int, row as int, col as int) == LexOut::Toks(
            Seq::<(TokModel, int, int)>::empty(),
        ));
        assert(toks_model(vec@) + Seq::<(TokModel, int, int)>::empty() =~= toks_model(vec@));
    }
    Ok(vec)
}

} // verus!
