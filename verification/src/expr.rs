use vstd::prelude::*;

verus! {

/// Lowercase ASCII letters are the only legal bound-variable identifiers.
pub const VAR_FIRST: u8 = 97;

pub const VAR_LAST: u8 = 122;

pub open spec fn is_var_byte(b: u8) -> bool {
    VAR_FIRST <= b && b <= VAR_LAST
}

/// An expression of the untyped lambda calculus: a pure owned tree.
#[derive(Debug)]
pub enum Expr {
    Variable(u8),
    Name(String),
    Abstr(u8, Box<Expr>),
    Appl(Box<Expr>, Box<Expr>),
}

/// A top-level definition: the fully parsed expression bound to a name.
#[derive(Debug)]
pub struct Def {
    pub value: Box<Expr>,
}

/// Node count: variables and names weigh one, abstractions add one for the
/// binder, applications are counted through their children only.
pub open spec fn size_spec(e: Expr) -> nat
    decreases e,
{
    match e {
        Expr::Variable(_) => 1,
        Expr::Name(_) => 1,
        Expr::Abstr(_, b) => 1 + size_spec(*b),
        Expr::Appl(a, b) => size_spec(*a) + size_spec(*b),
    }
}

/// The free variables of an expression.
pub open spec fn fv(e: Expr) -> Set<u8>
    decreases e,
{
    match e {
        Expr::Variable(v) => Set::empty().insert(v),
        Expr::Name(_) => Set::empty(),
        Expr::Abstr(p, b) => fv(*b).remove(p),
        Expr::Appl(a, b) => fv(*a).union(fv(*b)),
    }
}

/// Well-formedness: every variable and binder is a lowercase letter, and
/// every name is a non-empty ASCII string.
pub open spec fn wf(e: Expr) -> bool
    decreases e,
{
    match e {
        Expr::Variable(v) => is_var_byte(v),
        Expr::Name(s) => s@.len() > 0 && vstd::utf8::is_ascii_chars(s@),
        Expr::Abstr(p, b) => is_var_byte(p) && wf(*b),
        Expr::Appl(a, b) => wf(*a) && wf(*b),
    }
}

/// The set of letter bytes strictly below `l`.
pub open spec fn letters_below(l: u8) -> Set<u8> {
    Set::new(|x: u8| VAR_FIRST <= x && x < l)
}

pub proof fn lemma_size_pos(e: Expr)
    ensures
        size_spec(e) >= 1,
    decreases e,
{
    match e {
        Expr::Appl(a, b) => {
            lemma_size_pos(*a);
            lemma_size_pos(*b);
        },
        _ => {},
    }
}

pub proof fn lemma_fv_letters(e: Expr)
    requires
        wf(e),
    ensures
        forall|b: u8| fv(e).contains(b) ==> is_var_byte(b),
    decreases e,
{
    match e {
        Expr::Abstr(_, b) => {
            lemma_fv_letters(*b);
        },
        Expr::Appl(a, b) => {
            lemma_fv_letters(*a);
            lemma_fv_letters(*b);
        },
        _ => {},
    }
}

impl Expr {
    /// Structural deep copy with a known result, used wherever the tree
    /// must be duplicated (definition lookup, repeated substitution).
    pub fn duplicate(&self) -> (r: Expr)
        ensures
            r == *self,
        decreases self,
    {
        match self {
            Expr::Variable(v) => Expr::Variable(*v),
            Expr::Name(s) => Expr::Name(s.clone()),
            Expr::Abstr(p, b) => Expr::Abstr(*p, Box::new(b.duplicate())),
            Expr::Appl(a, b) => Expr::Appl(Box::new(a.duplicate()), Box::new(b.duplicate())),
        }
    }

    /// Whether `v` occurs free in the expression.
    pub fn free_in(&self, v: u8) -> (r: bool)
        ensures
            r == fv(*self).contains(v),
        decreases self,
    {
        match self {
            Expr::Variable(w) => *w == v,
            Expr::Name(_) => false,
            Expr::Abstr(p, b) => *p != v && b.free_in(v),
            Expr::Appl(a, b) => a.free_in(v) || b.free_in(v),
        }
    }
}

/// Translation applied to right-hand variables when comparing for
/// alpha-equivalence: the latest binder pairing wins, absent entries map to
/// themselves.
pub open spec fn conv(m: Map<u8, u8>, w: u8) -> u8 {
    if m.contains_key(w) {
        m[w]
    } else {
        w
    }
}

/// Alpha-comparison under an accumulated right-to-left binder translation.
pub open spec fn alpha_eq_map_spec(a: Expr, b: Expr, m: Map<u8, u8>) -> bool
    decreases a,
{
    match (a, b) {
        (Expr::Variable(v), Expr::Variable(w)) => v == conv(m, w),
        (Expr::Name(n), Expr::Name(o)) => n@ == o@,
        (Expr::Abstr(v, c), Expr::Abstr(w, d)) => alpha_eq_map_spec(
            *c,
            *d,
            if v != w {
                m.insert(w, v)
            } else {
                m
            },
        ),
        (Expr::Appl(f, x), Expr::Appl(g, y)) => alpha_eq_map_spec(*f, *g, m) && alpha_eq_map_spec(
            *x,
            *y,
            m,
        ),
        _ => false,
    }
}

/// Two expressions are alpha-equal when they differ only in the names of
/// bound variables, tracked by a translation built at each binder pair.
pub open spec fn alpha_eq_spec(a: Expr, b: Expr) -> bool
    decreases a,
{
    match (a, b) {
        (Expr::Variable(v), Expr::Variable(w)) => v == w,
        (Expr::Name(n), Expr::Name(o)) => n@ == o@,
        (Expr::Abstr(v, c), Expr::Abstr(w, d)) => {
            if v == w {
                alpha_eq_spec(*c, *d)
            } else {
                alpha_eq_map_spec(*c, *d, Map::empty().insert(w, v))
            }
        },
        (Expr::Appl(f, x), Expr::Appl(g, y)) => alpha_eq_spec(*f, *g) && alpha_eq_spec(*x, *y),
        _ => false,
    }
}

/// Alpha-equivalence is reflexive: every expression is alpha-equal to itself.
pub proof fn lemma_alpha_eq_refl(e: Expr)
    ensures
        alpha_eq_spec(e, e),
    decreases e,
{
    match e {
        Expr::Abstr(_, b) => {
            lemma_alpha_eq_refl(*b);
        },
        Expr::Appl(a, b) => {
            lemma_alpha_eq_refl(*a);
            lemma_alpha_eq_refl(*b);
        },
        _ => {},
    }
}

/// The body of the Church numeral `n`: a spine of `n` applications of `f`
/// (byte 102) ending in `x` (byte 120).
pub open spec fn church_body(n: nat) -> Expr
    decreases n,
{
    if n == 0 {
        Expr::Variable(120)
    } else {
        Expr::Appl(Box::new(Expr::Variable(102)), Box::new(church_body((n - 1) as nat)))
    }
}

/// The Church numeral `\f.\x. f (f ... (f x))` with `n` applications.
pub open spec fn church_spec(n: nat) -> Expr {
    Expr::Abstr(102, Box::new(Expr::Abstr(120, Box::new(church_body(n)))))
}

/// The application count of a spine `f (f ... (f x))`, or `None` when the
/// expression is not such a spine.
pub open spec fn spine_count(e: Expr, f: u8, x: u8) -> Option<nat>
    decreases e,
{
    match e {
        Expr::Variable(y) => if y == x {
            Some(0nat)
        } else {
            None
        },
        Expr::Appl(h, rest) => match *h {
            Expr::Variable(g) => if g == f {
                match spine_count(*rest, f, x) {
                    Some(k) => Some((k + 1) as nat),
                    None => None,
                }
            } else {
                None
            },
            _ => None,
        },
        _ => None,
    }
}

/// The number a Church numeral denotes, or `None` when the expression is not
/// a Church numeral.
pub open spec fn unchurch_spec(e: Expr) -> Option<nat> {
    match e {
        Expr::Abstr(f, inner) => match *inner {
            Expr::Abstr(x, body) => spine_count(*body, f, x),
            _ => None,
        },
        _ => None,
    }
}

/// Decoding inverts encoding: the Church numeral of `n` decodes to `n`.
pub proof fn lemma_unchurch_church(n: nat)
    ensures
        unchurch_spec(church_spec(n)) == Some(n),
{
    lemma_spine_count_church_body(n);
}

proof fn lemma_spine_count_church_body(n: nat)
    ensures
        spine_count(church_body(n), 102, 120) == Some(n),
    decreases n,
{
    if n > 0 {
        lemma_spine_count_church_body((n - 1) as nat);
    }
}

/// A Church numeral is well formed.
pub proof fn lemma_church_wf(n: nat)
    ensures
        wf(church_spec(n)),
        size_spec(church_spec(n)) == n + 3,
{
    lemma_church_body_wf(n);
    let body = church_body(n);
    let inner = Expr::Abstr(120, Box::new(body));
    let outer = Expr::Abstr(102, Box::new(inner));
    assert(church_spec(n) == outer);
    assert(wf(inner));
    assert(size_spec(inner) == 1 + size_spec(body));
    assert(wf(outer));
    assert(size_spec(outer) == 2 + size_spec(body));
}

proof fn lemma_church_body_wf(n: nat)
    ensures
        wf(church_body(n)),
        fv(church_body(n)).subset_of(Set::empty().insert(102u8).insert(120u8)),
        size_spec(church_body(n)) == n + 1,
    decreases n,
{
    if n == 0 {
        assert(church_body(0) == Expr::Variable(120));
        assert(size_spec(Expr::Variable(120)) == 1);
        assert(fv(Expr::Variable(120)) =~= Set::empty().insert(120u8));
    } else {
        lemma_church_body_wf((n - 1) as nat);
        let prev = church_body((n - 1) as nat);
        let whole = Expr::Appl(Box::new(Expr::Variable(102)), Box::new(prev));
        assert(church_body(n) == whole);
        assert(wf(Expr::Variable(102)));
        assert(size_spec(Expr::Variable(102)) == 1);
        assert(fv(Expr::Variable(102)) =~= Set::empty().insert(102u8));
        assert(wf(whole));
        assert(size_spec(whole) == 1 + size_spec(prev));
        assert(fv(whole) =~= Set::empty().insert(102u8).union(fv(prev)));
    }
}

/// A spine's count never exceeds its size.
pub proof fn lemma_spine_count_le_size(e: Expr, f: u8, x: u8)
    ensures
        spine_count(e, f, x) matches Some(k) ==> k < size_spec(e),
    decreases e,
{
    match e {
        Expr::Appl(h, rest) => {
            lemma_spine_count_le_size(*rest, f, x);
            lemma_size_pos(*h);
        },
        _ => {},
    }
}

impl Expr {
    /// The exact algorithmic alpha-equality of the evaluator: structural
    /// comparison that pairs up binder names as it descends.
    pub fn alpha_eq(&self, other: &Self) -> (r: bool)
        ensures
            r == alpha_eq_spec(*self, *other),
        decreases self,
    {
        match (self, other) {
            (Expr::Variable(v), Expr::Variable(w)) => *v == *w,
            (Expr::Name(n), Expr::Name(o)) => n.eq(o),
            (Expr::Abstr(a_var, a_body), Expr::Abstr(b_var, b_body)) => {
                if *a_var == *b_var {
                    a_body.alpha_eq(b_body)
                } else {
                    let mut map: std::collections::HashMap<u8, u8> = std::collections::HashMap::new();
                    map.insert(*b_var, *a_var);
                    Expr::alpha_eq_mapped(a_body, b_body, map)
                }
            },
            (Expr::Appl(a_f, a_x), Expr::Appl(b_f, b_x)) => a_f.alpha_eq(b_f) && a_x.alpha_eq(
                b_x,
            ),
            _ => false,
        }
    }

    fn alpha_eq_mapped(&self, other: &Self, map: std::collections::HashMap<u8, u8>) -> (r: bool)
        ensures
            r == alpha_eq_map_spec(*self, *other, map@),
        decreases self,
    {
        let mut map = map;
        match (self, other) {
            (Expr::Variable(v), Expr::Variable(w)) => {
                let c: u8 = match map.get(w) {
                    Some(x) => *x,
                    None => *w,
                };
                *v == c
            },
            (Expr::Name(n), Expr::Name(o)) => n.eq(o),
            (Expr::Abstr(v, b), Expr::Abstr(w, c)) => {
                if *v != *w {
                    map.insert(*w, *v);
                }
                Expr::alpha_eq_mapped(b, c, map)
            },
            (Expr::Appl(f, x), Expr::Appl(g, y)) => {
                Expr::alpha_eq_mapped(f, g, map.clone()) && Expr::alpha_eq_mapped(x, y, map)
            },
            _ => false,
        }
    }

    /// The node count of the expression.
    pub fn size(&self) -> (r: u32)
        requires
            size_spec(*self) <= u32::MAX,
        ensures
            r == size_spec(*self),
        decreases self,
    {
        match self {
            Expr::Variable(_) => 1,
            Expr::Name(_) => 1,
            Expr::Abstr(_, b) => 1 + b.size(),
            Expr::Appl(a, b) => {
                proof {
                    lemma_size_pos(**a);
                    lemma_size_pos(**b);
                }
                a.size() + b.size()
            },
        }
    }

    /// The node count, clamped to `u64::MAX` so that arbitrarily large trees
    /// can still be measured against a budget.
    pub fn size_clamped(&self) -> (r: u64)
        ensures
            r == if size_spec(*self) <= u64::MAX {
                size_spec(*self)
            } else {
                u64::MAX as nat
            },
        decreases self,
    {
        match self {
            Expr::Variable(_) => 1,
            Expr::Name(_) => 1,
            Expr::Abstr(_, b) => {
                let s = b.size_clamped();
                if s == u64::MAX {
                    u64::MAX
                } else {
                    1 + s
                }
            },
            Expr::Appl(a, b) => {
                proof {
                    lemma_size_pos(**a);
                    lemma_size_pos(**b);
                }
                let sa = a.size_clamped();
                let sb = b.size_clamped();
                if sa > u64::MAX - sb {
                    u64::MAX
                } else {
                    sa + sb
                }
            },
        }
    }

    /// The set of free (unbound) variables of a well-formed expression.
    pub fn unbounds(&self) -> (r: std::collections::HashSet<u8>)
        requires
            wf(*self),
        ensures
            r@ == fv(*self),
        decreases self,
    {
        match self {
            Expr::Variable(v) => {
                let mut set: std::collections::HashSet<u8> = std::collections::HashSet::new();
                set.insert(*v);
                proof {
                    assert(set@ =~= fv(*self));
                }
                set
            },
            Expr::Name(_) => {
                let set: std::collections::HashSet<u8> = std::collections::HashSet::new();
                proof {
                    assert(set@ =~= fv(*self));
                }
                set
            },
            Expr::Abstr(v, b) => {
                let mut set = b.unbounds();
                set.remove(v);
                proof {
                    assert(set@ =~= fv(*self));
                }
                set
            },
            Expr::Appl(a, b) => {
                let mut set = a.unbounds();
                let other = b.unbounds();
                proof {
                    assert(set@ =~= fv(**a).union(fv(**b).intersect(letters_below(VAR_FIRST))));
                }
                let mut l: u8 = VAR_FIRST;
                while l <= VAR_LAST
                    invariant
                        VAR_FIRST <= l <= VAR_LAST + 1,
                        set@ == fv(**a).union(fv(**b).intersect(letters_below(l))),
                        other@ == fv(**b),
                    decreases VAR_LAST + 1 - l,
                {
                    if other.contains(&l) {
                        set.insert(l);
                    }
                    proof {
                        assert(set@ =~= fv(**a).union(
                            fv(**b).intersect(letters_below((l + 1) as u8)),
                        ));
                    }
                    l = l + 1;
                }
                proof {
                    lemma_fv_letters(**b);
                    assert forall|x: u8| fv(**b).contains(x) implies letters_below(l).contains(
                        x,
                    ) by {
                        assert(is_var_byte(x));
                    }
                    assert(fv(**b).intersect(letters_below(l)) =~= fv(**b));
                    assert(set@ =~= fv(*self));
                }
                set
            },
        }
    }

    /// Builds the Church numeral for `n`.
    pub fn church_num(n: u32) -> (r: Box<Expr>)
        ensures
            *r == church_spec(n as nat),
            wf(*r),
    {
        let mut left: u32 = n;
        let mut ret: Box<Expr> = Box::new(Expr::Variable(120));
        while left > 0
            invariant
                left <= n,
                *ret == church_body((n - left) as nat),
            decreases left,
        {
            ret = Box::new(Expr::Appl(Box::new(Expr::Variable(102)), ret));
            left = left - 1;
        }
        proof {
            lemma_church_wf(n as nat);
        }
        Box::new(Expr::Abstr(102, Box::new(Expr::Abstr(120, ret))))
    }

    /// Reads a Church numeral back into the number it encodes.
    pub fn try_unchurch_num(&self) -> (r: Option<u32>)
        requires
            size_spec(*self) <= u32::MAX,
        ensures
            r == match unchurch_spec(*self) {
                Some(k) => Some(k as u32),
                None => None::<u32>,
            },
    {
        match self {
            Expr::Abstr(f, inner) => match &**inner {
                Expr::Abstr(x, body) => {
                    proof {
                        assert(size_spec(*self) == 1 + size_spec(**inner));
                        assert(size_spec(**inner) == 1 + size_spec(**body));
                    }
                    Expr::spine_len(body, *f, *x)
                },
                _ => None,
            },
            _ => None,
        }
    }

    fn spine_len(e: &Expr, f: u8, x: u8) -> (r: Option<u32>)
        requires
            size_spec(*e) <= u32::MAX,
        ensures
            r == match spine_count(*e, f, x) {
                Some(k) => Some(k as u32),
                None => None::<u32>,
            },
        decreases e,
    {
        match e {
            Expr::Variable(y) => if *y == x {
                Some(0)
            } else {
                None
            },
            Expr::Appl(h, rest) => match &**h {
                Expr::Variable(g) => if *g == f {
                    proof {
                        lemma_spine_count_le_size(**rest, f, x);
                        lemma_size_pos(**h);
                    }
                    match Expr::spine_len(rest, f, x) {
                        Some(k) => Some(k + 1),
                        None => None,
                    }
                } else {
                    None
                },
                _ => None,
            },
            _ => None,
        }
    }
}

impl Expr {
    /// Decides well-formedness.
    pub fn is_wf(&self) -> (r: bool)
        ensures
            r == wf(*self),
        decreases self,
    {
        match self {
            Expr::Variable(v) => VAR_FIRST <= *v && *v <= VAR_LAST,
            Expr::Name(s) => !s.as_str().is_empty() && s.as_str().is_ascii(),
            Expr::Abstr(p, b) => VAR_FIRST <= *p && *p <= VAR_LAST && b.is_wf(),
            Expr::Appl(a, b) => a.is_wf() && b.is_wf(),
        }
    }
}

/// Every definition in the environment is well formed.
pub open spec fn defs_wf(m: Map<Seq<char>, Expr>) -> bool {
    forall|k: Seq<char>| #[trigger] m.contains_key(k) ==> wf(m[k])
}

impl Clone for Expr {
    /// A clone of an expression is the same tree.
    fn clone(&self) -> (r: Self)
        ensures
            r == *self,
    {
        self.duplicate()
    }
}

/// Builds a variable expression from a lowercase letter.
pub fn var(v: u8) -> (r: Box<Expr>)
    requires
        is_var_byte(v),
    ensures
        *r == Expr::Variable(v),
        wf(*r),
{
    Box::new(Expr::Variable(v))
}

/// Builds a name expression from a non-empty ASCII identifier.
pub fn name(s: String) -> (r: Box<Expr>)
    requires
        s@.len() > 0,
        vstd::utf8::is_ascii_chars(s@),
    ensures
        *r == Expr::Name(s),
        wf(*r),
{
    Box::new(Expr::Name(s))
}

/// Builds an abstraction binding the lowercase letter `p` over `e`.
pub fn abstr(p: u8, e: Box<Expr>) -> (r: Box<Expr>)
    requires
        is_var_byte(p),
    ensures
        *r == Expr::Abstr(p, e),
        wf(*e) ==> wf(*r),
{
    Box::new(Expr::Abstr(p, e))
}

/// Builds the application of `f` to `x`.
pub fn appl(f: Box<Expr>, x: Box<Expr>) -> (r: Box<Expr>)
    ensures
        *r == Expr::Appl(f, x),
        wf(*f) && wf(*x) ==> wf(*r),
{
    Box::new(Expr::Appl(f, x))
}

/// Builds the Church numeral for `n`.
pub fn chnum(n: u32) -> (r: Box<Expr>)
    ensures
        *r == church_spec(n as nat),
        wf(*r),
{
    Expr::church_num(n)
}

/// The definitions environment: a mapping from names to definitions in which
/// a later insertion for the same name overwrites the earlier one.
#[derive(Debug)]
pub struct Defs {
    entries: Vec<(String, Def)>,
}

spec fn assoc_map(s: Seq<(String, Def)>) -> Map<Seq<char>, Expr>
    decreases s.len(),
{
    if s.len() == 0 {
        Map::empty()
    } else {
        assoc_map(s.drop_last()).insert(s.last().0@, *s.last().1.value)
    }
}

impl View for Defs {
    type V = Map<Seq<char>, Expr>;

    closed spec fn view(&self) -> Map<Seq<char>, Expr> {
        assoc_map(self.entries@)
    }
}

impl Defs {
    pub closed spec fn inv(&self) -> bool {
        forall|i: int, j: int|
            0 <= i < j < self.entries@.len() ==> self.entries@[i].0@ != self.entries@[j].0@
    }

    /// An empty environment.
    pub fn new() -> (r: Defs)
        ensures
            r@ == Map::<Seq<char>, Expr>::empty(),
            r.inv(),
    {
        Defs { entries: Vec::new() }
    }

    /// Binds `name` to `d`, replacing any earlier binding of the same name.
    pub fn insert(&mut self, name: String, d: Def)
        requires
            old(self).inv(),
        ensures
            final(self)@ == old(self)@.insert(name@, *d.value),
            final(self).inv(),
    {
        let n = self.entries.len();
        let mut i: usize = 0;
        while i < n
            invariant
                0 <= i <= n,
                self.entries@ == old(self).entries@,
                n == self.entries@.len(),
                self.inv(),
                forall|k: int| 0 <= k < i ==> self.entries@[k].0@ != name@,
            decreases n - i,
        {
            if self.entries[i].0.eq(&name) {
                let ghost old_entries = self.entries@;
                let ghost gname = name;
                let ghost gd = d;
                self.entries.set(i, (name, d));
                proof {
                    assert(self.entries@ == old_entries.update(i as int, (gname, gd)));
                    lemma_assoc_map_update(old_entries, i as int, gname, gd);
                }
                return ;
            }
            i = i + 1;
        }
        let ghost old_entries = self.entries@;
        self.entries.push((name, d));
        proof {
            assert(self.entries@.drop_last() =~= old_entries);
            lemma_assoc_map_absent(old_entries, name@);
            assert(self@ == assoc_map(old_entries).insert(name@, *d.value));
        }
    }

    /// Looks a name up, returning the stored definition when one exists.
    pub fn get(&self, name: &String) -> (r: Option<&Def>)
        requires
            self.inv(),
        ensures
            match r {
                Some(d) => self@.contains_key(name@) && *d.value == self@[name@],
                None => !self@.contains_key(name@),
            },
    {
        let n = self.entries.len();
        let mut i: usize = 0;
        while i < n
            invariant
                0 <= i <= n,
                n == self.entries@.len(),
                self.inv(),
                forall|k: int| 0 <= k < i ==> self.entries@[k].0@ != name@,
            decreases n - i,
        {
            if self.entries[i].0.eq(name) {
                proof {
                    lemma_assoc_map_found(self.entries@, i as int);
                }
                return Some(&self.entries[i].1);
            }
            i = i + 1;
        }
        proof {
            lemma_assoc_map_absent(self.entries@, name@);
        }
        None
    }

    /// How many names are bound.
    pub fn len(&self) -> (r: usize)
        requires
            self.inv(),
        ensures
            r == self@.dom().len(),
            self@.dom().finite(),
    {
        proof {
            lemma_assoc_map_len(self.entries@);
        }
        self.entries.len()
    }

    /// Decides whether every stored definition is well formed.
    pub fn all_wf(&self) -> (r: bool)
        requires
            self.inv(),
        ensures
            r == defs_wf(self@),
    {
        let n = self.entries.len();
        let mut i: usize = 0;
        while i < n
            invariant
                0 <= i <= n,
                n == self.entries@.len(),
                self.inv(),
                forall|k: int| 0 <= k < i ==> wf(*self.entries@[k].1.value),
            decreases n - i,
        {
            if !self.entries[i].1.value.is_wf() {
                proof {
                    lemma_assoc_map_found(self.entries@, i as int);
                    assert(self@.contains_key(self.entries@[i as int].0@));
                    assert(!wf(self@[self.entries@[i as int].0@]));
                }
                return false;
            }
            i = i + 1;
        }
        proof {
            assert forall|k: Seq<char>| #[trigger] self@.contains_key(k) implies wf(self@[k]) by {
                lemma_assoc_map_covered(self.entries@, k);
                let j = choose|j: int| 0 <= j < self.entries@.len() && self.entries@[j].0@ == k;
                lemma_assoc_map_found(self.entries@, j);
            }
        }
        true
    }

    /// The name and definition at a position, for walking the environment.
    pub fn entry_at(&self, i: usize) -> (r: (&String, &Def))
        requires
            self.inv(),
            i < self@.dom().len(),
        ensures
            self@.contains_key(r.0@) && *r.1.value == self@[r.0@],
    {
        proof {
            lemma_assoc_map_len(self.entries@);
            lemma_assoc_map_found(self.entries@, i as int);
        }
        (&self.entries[i].0, &self.entries[i].1)
    }
}

proof fn lemma_assoc_map_update(s: Seq<(String, Def)>, i: int, nk: String, nd: Def)
    requires
        0 <= i < s.len(),
        s[i].0@ == nk@,
        forall|a: int, b: int| 0 <= a < b < s.len() ==> s[a].0@ != s[b].0@,
    ensures
        assoc_map(s.update(i, (nk, nd))) == assoc_map(s).insert(nk@, *nd.value),
    decreases s.len(),
{
    let s2 = s.update(i, (nk, nd));
    if i == s.len() - 1 {
        assert(s2.drop_last() =~= s.drop_last());
        assert(assoc_map(s2) =~= assoc_map(s).insert(nk@, *nd.value));
    } else {
        lemma_assoc_map_update(s.drop_last(), i, nk, nd);
        assert(s2.drop_last() =~= s.drop_last().update(i, (nk, nd)));
        assert(s2.last() == s.last());
        assert(s.last().0@ != nk@);
        assert(assoc_map(s2) =~= assoc_map(s).insert(nk@, *nd.value));
    }
}

proof fn lemma_assoc_map_covered(s: Seq<(String, Def)>, k: Seq<char>)
    requires
        assoc_map(s).contains_key(k),
    ensures
        exists|i: int| 0 <= i < s.len() && s[i].0@ == k,
    decreases s.len(),
{
    if s.len() > 0 {
        if s.last().0@ == k {
            assert(0 <= s.len() - 1 < s.len() && s[s.len() - 1].0@ == k);
        } else {
            lemma_assoc_map_covered(s.drop_last(), k);
            let i = choose|i: int| 0 <= i < s.drop_last().len() && s.drop_last()[i].0@ == k;
            assert(0 <= i < s.len() && s[i].0@ == k);
        }
    }
}

proof fn lemma_assoc_map_found(s: Seq<(String, Def)>, i: int)
    requires
        0 <= i < s.len(),
        forall|a: int, b: int| 0 <= a < b < s.len() ==> s[a].0@ != s[b].0@,
    ensures
        assoc_map(s).contains_key(s[i].0@),
        assoc_map(s)[s[i].0@] == *s[i].1.value,
    decreases s.len(),
{
    if i < s.len() - 1 {
        lemma_assoc_map_found(s.drop_last(), i);
        assert(s.last().0@ != s[i].0@);
    }
}

proof fn lemma_assoc_map_absent(s: Seq<(String, Def)>, k: Seq<char>)
    requires
        forall|a: int| 0 <= a < s.len() ==> s[a].0@ != k,
    ensures
        !assoc_map(s).contains_key(k),
    decreases s.len(),
{
    if s.len() > 0 {
        lemma_assoc_map_absent(s.drop_last(), k);
    }
}

proof fn lemma_assoc_map_len(s: Seq<(String, Def)>)
    requires
        forall|a: int, b: int| 0 <= a < b < s.len() ==> s[a].0@ != s[b].0@,
    ensures
        assoc_map(s).dom().finite(),
        assoc_map(s).dom().len() == s.len(),
    decreases s.len(),
{
    if s.len() > 0 {
        lemma_assoc_map_len(s.drop_last());
        assert(!assoc_map(s.drop_last()).contains_key(s.last().0@)) by {
            lemma_assoc_map_absent(s.drop_last(), s.last().0@);
        }
    }
}

} // verus!
