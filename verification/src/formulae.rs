//! The constraint language: integer expressions and boolean formulae over
//! named variables, free-variable analysis, and the compiler that turns a
//! quantifier-free formula with at most one free variable into a predicate
//! on time.

use vstd::prelude::*;

verus! {

/// An integer-valued expression over named variables.
#[derive(Debug, PartialEq, Eq)]
pub enum Expr {
    Add(Box<Expr>, Box<Expr>),
    Sub(Box<Expr>, Box<Expr>),
    MulConst(i64, Box<Expr>),
    Mod(Box<Expr>, i64),
    Var(String),
    Const(i64),
}

/// A boolean constraint over integer expressions, with n-ary conjunction
/// and disjunction and first-order quantifiers.
#[derive(Debug, PartialEq, Eq)]
pub enum Formula {
    Forall(String, Box<Formula>),
    Exists(String, Box<Formula>),
    And(Vec<Formula>),
    Or(Vec<Formula>),
    Not(Box<Formula>),
    Eq(Box<Expr>, Box<Expr>),
    Neq(Box<Expr>, Box<Expr>),
    Lt(Box<Expr>, Box<Expr>),
    Le(Box<Expr>, Box<Expr>),
    Gt(Box<Expr>, Box<Expr>),
    Ge(Box<Expr>, Box<Expr>),
    True,
    False,
}

/// Whether `f` contains no quantifier anywhere in its tree.
pub open spec fn quantifier_free(f: Formula) -> bool
    decreases f,
{
    match f {
        Formula::Forall(_, _) => false,
        Formula::Exists(_, _) => false,
        Formula::And(fs) => quantifier_free_seq(fs@),
        Formula::Or(fs) => quantifier_free_seq(fs@),
        Formula::Not(g) => quantifier_free(*g),
        _ => true,
    }
}

/// Whether every formula of `fs` is quantifier-free.
pub open spec fn quantifier_free_seq(fs: Seq<Formula>) -> bool
    decreases fs,
{
    if fs.len() == 0 {
        true
    } else {
        quantifier_free(fs[0]) && quantifier_free_seq(fs.drop_first())
    }
}

/// A sequence of formulae is quantifier-free exactly when each member is.
pub proof fn lemma_quantifier_free_seq_elements(fs: Seq<Formula>)
    ensures
        quantifier_free_seq(fs) <==> (forall|i: int|
            0 <= i < fs.len() ==> quantifier_free(#[trigger] fs[i])),
    decreases fs.len(),
{
    if fs.len() > 0 {
        lemma_quantifier_free_seq_elements(fs.drop_first());
        assert(forall|i: int|
            0 <= i < fs.drop_first().len() ==> #[trigger] fs.drop_first()[i] == fs[i + 1]);
        assert(forall|i: int|
            0 < i < fs.len() ==> #[trigger] fs[i] == fs.drop_first()[i - 1]);
    }
}

/// The characters of each name in a list of names.
pub open spec fn name_views(v: Seq<String>) -> Seq<Seq<char>> {
    v.map_values(|s: String| s@)
}

/// The set of names (as character sequences) in a list of names.
pub open spec fn name_set(v: Seq<String>) -> Set<Seq<char>> {
    name_views(v).to_set()
}

/// The names of the variables occurring in `e`.
pub open spec fn free_vars_expr(e: Expr) -> Set<Seq<char>>
    decreases e,
{
    match e {
        Expr::Add(e1, e2) => free_vars_expr(*e1) + free_vars_expr(*e2),
        Expr::Sub(e1, e2) => free_vars_expr(*e1) + free_vars_expr(*e2),
        Expr::MulConst(_, e1) => free_vars_expr(*e1),
        Expr::Mod(e1, _) => free_vars_expr(*e1),
        Expr::Var(v) => Set::empty().insert(v@),
        Expr::Const(_) => Set::empty(),
    }
}

/// The names of the variables occurring free in `f`: occurrences under a
/// quantifier binding the same name are not free.
pub open spec fn free_vars(f: Formula) -> Set<Seq<char>>
    decreases f,
{
    match f {
        Formula::Forall(v, b) => free_vars(*b).remove(v@),
        Formula::Exists(v, b) => free_vars(*b).remove(v@),
        Formula::And(fs) => free_vars_seq(fs@),
        Formula::Or(fs) => free_vars_seq(fs@),
        Formula::Not(g) => free_vars(*g),
        Formula::Eq(e1, e2) => free_vars_expr(*e1) + free_vars_expr(*e2),
        Formula::Neq(e1, e2) => free_vars_expr(*e1) + free_vars_expr(*e2),
        Formula::Lt(e1, e2) => free_vars_expr(*e1) + free_vars_expr(*e2),
        Formula::Le(e1, e2) => free_vars_expr(*e1) + free_vars_expr(*e2),
        Formula::Gt(e1, e2) => free_vars_expr(*e1) + free_vars_expr(*e2),
        Formula::Ge(e1, e2) => free_vars_expr(*e1) + free_vars_expr(*e2),
        Formula::True => Set::empty(),
        Formula::False => Set::empty(),
    }
}

/// The union of the free-variable sets of the formulae of `fs`.
pub open spec fn free_vars_seq(fs: Seq<Formula>) -> Set<Seq<char>>
    decreases fs,
{
    if fs.len() == 0 {
        Set::empty()
    } else {
        free_vars_seq(fs.drop_last()) + free_vars(fs.last())
    }
}

/// Whether some name in `v` has the same characters as `s`.
fn contains_name(v: &Vec<String>, s: &String) -> (r: bool)
    ensures
        r == name_set(v@).contains(s@),
{
    let mut i: usize = 0;
    let n: usize = v.len();
    while i < n
        invariant
            n == v@.len(),
            i <= n,
            forall|j: int| 0 <= j < i ==> name_views(v@)[j] != s@,
        decreases n - i,
    {
        if v[i] == *s {
            assert(name_views(v@)[i as int] == s@);
            return true;
        }
        i += 1;
    }
    assert(!name_views(v@).contains(s@));
    false
}

impl Expr {
    /// Adds to `free` every variable of `self` that is neither in `bound`
    /// nor already recorded, keeping `free` free of duplicates.
    #[verifier::loop_isolation(false)]
    fn collect_free_variables(&self, bound: &Vec<String>, free: &mut Vec<String>)
        requires
            name_views(old(free)@).no_duplicates(),
        ensures
            name_views(final(free)@).no_duplicates(),
            name_set(final(free)@) == name_set(old(free)@)
                + (free_vars_expr(*self) - name_set(bound@)),
        decreases *self,
    {
        match self {
            Expr::Add(e1, e2) | Expr::Sub(e1, e2) => {
                e1.collect_free_variables(bound, free);
                e2.collect_free_variables(bound, free);
            },
            Expr::MulConst(_, e1) => {
                e1.collect_free_variables(bound, free);
            },
            Expr::Mod(e1, _) => {
                e1.collect_free_variables(bound, free);
            },
            Expr::Var(v) => {
                if !contains_name(bound, v) && !contains_name(free, v) {
                    let ghost pre = free@;
                    free.push(v.clone());
                    proof {
                        assert(name_views(free@) =~= name_views(pre).push(v@));
                        vstd::seq_lib::lemma_seq_contains_after_push(
                            name_views(pre), v@, v@);
                        assert(name_views(free@).no_duplicates());
                        assert forall|x: Seq<char>|
                            name_views(pre).push(v@).contains(x)
                                <==> name_views(pre).contains(x) || x == v@ by {
                            vstd::seq_lib::lemma_seq_contains_after_push(
                                name_views(pre), v@, x);
                        }
                        assert(name_set(free@) =~= name_set(pre).insert(v@));
                    }
                }
            },
            Expr::Const(_) => {},
        }
    }
}

impl Formula {
    /// Adds to `free` every variable free in `self` and not in `bound`,
    /// keeping `free` free of duplicates; `bound` is used as a stack of
    /// names bound by the quantifiers passed on the way down.
    #[verifier::loop_isolation(false)]
    fn collect_free_variables(&self, bound: &mut Vec<String>, free: &mut Vec<String>)
        requires
            name_views(old(free)@).no_duplicates(),
        ensures
            final(bound)@ == old(bound)@,
            name_views(final(free)@).no_duplicates(),
            name_set(final(free)@) == name_set(old(free)@)
                + (free_vars(*self) - name_set(old(bound)@)),
        decreases *self,
    {
        match self {
            Formula::Forall(v, b) | Formula::Exists(v, b) => {
                let ghost bound0 = bound@;
                let ghost free0 = free@;
                bound.push(v.clone());
                proof {
                    assert(name_views(bound@) =~= name_views(bound0).push(v@));
                }
                let ghost bound1 = bound@;
                b.collect_free_variables(bound, free);
                bound.pop();
                proof {
                    assert(bound@ =~= bound0);
                    assert forall|x: Seq<char>|
                        name_set(bound1).contains(x)
                            <==> name_set(bound0).contains(x) || x == v@ by {
                        vstd::seq_lib::lemma_seq_contains_after_push(
                            name_views(bound0), v@, x);
                    }
                    assert(name_set(free@) =~= name_set(free0)
                        + (free_vars(*self) - name_set(bound0)));
                }
            },
            Formula::And(fs) | Formula::Or(fs) => {
                let mut i: usize = 0;
                let n: usize = fs.len();
                while i < n
                    invariant
                        i <= n,
                        bound@ == old(bound)@,
                        name_views(free@).no_duplicates(),
                        name_set(free@) == name_set(old(free)@)
                            + (free_vars_seq(fs@.take(i as int)) - name_set(bound@)),
                    decreases n - i,
                {
                    fs[i].collect_free_variables(bound, free);
                    proof {
                        assert(fs@.take(i + 1).drop_last() =~= fs@.take(i as int));
                        assert(fs@.take(i + 1).last() == fs@[i as int]);
                    }
                    i += 1;
                }
                proof {
                    assert(fs@.take(n as int) =~= fs@);
                }
            },
            Formula::Not(g) => {
                g.collect_free_variables(bound, free);
            },
            Formula::Eq(e1, e2)
            | Formula::Neq(e1, e2)
            | Formula::Lt(e1, e2)
            | Formula::Le(e1, e2)
            | Formula::Gt(e1, e2)
            | Formula::Ge(e1, e2) => {
                e1.collect_free_variables(bound, free);
                e2.collect_free_variables(bound, free);
            },
            Formula::True | Formula::False => {},
        }
    }

    /// Returns the names of all variables occurring free in the formula,
    /// each name once.
    pub fn free_variables(&self) -> (r: Vec<String>)
        ensures
            name_set(r@) == free_vars(*self),
            name_views(r@).no_duplicates(),
    {
        let mut bound: Vec<String> = Vec::new();
        let mut free: Vec<String> = Vec::new();
        self.collect_free_variables(&mut bound, &mut free);
        free
    }

    /// Returns true if the formula has exactly one free variable named `t`.
    pub fn has_exactly_one_free_variable(&self, t: &str) -> (r: bool)
        ensures
            r <==> (free_vars(*self) =~= Set::<Seq<char>>::empty().insert(t@)),
    {
        let free = self.free_variables();
        if free.len() != 1 {
            proof {
                let target = Set::<Seq<char>>::empty().insert(t@);
                if free.len() == 0 {
                    assert(!name_views(free@).contains(t@));
                    assert(!free_vars(*self).contains(t@));
                    assert(target.contains(t@));
                } else {
                    let vs = name_views(free@);
                    assert(vs.contains(vs[0]));
                    assert(vs.contains(vs[1]));
                    assert(free_vars(*self).contains(vs[0]));
                    assert(free_vars(*self).contains(vs[1]));
                    assert(vs[0] != vs[1]);
                    assert(!(target.contains(vs[0]) && target.contains(vs[1])));
                }
            }
            false
        } else {
            let t_string = t.to_owned();
            let r = free[0] == t_string;
            proof {
                let vs = name_views(free@);
                assert(vs[0] == free@[0]@);
                assert(vs.contains(vs[0]));
                assert forall|x: Seq<char>| name_set(free@).contains(x) implies x == vs[0] by {
                    let j = choose|j: int| 0 <= j < vs.len() && vs[j] == x;
                    assert(j == 0);
                }
                if r {
                    assert(vs[0] == t@);
                    assert(free_vars(*self) =~= Set::<Seq<char>>::empty().insert(t@));
                } else {
                    assert(vs[0] != t@);
                    assert(free_vars(*self).contains(vs[0]));
                    assert(!Set::<Seq<char>>::empty().insert(t@).contains(vs[0]));
                }
            }
            r
        }
    }

    /// Returns true if the formula contains no quantifiers (Forall or Exists).
    #[verifier::loop_isolation(false)]
    pub fn is_quantifier_free(&self) -> (r: bool)
        ensures
            r == quantifier_free(*self),
        decreases *self,
    {
        match self {
            Formula::Forall(_, _) | Formula::Exists(_, _) => false,
            Formula::And(fs) | Formula::Or(fs) => {
                let mut i: usize = 0;
                let n: usize = fs.len();
                proof {
                    lemma_quantifier_free_seq_elements(fs@);
                }
                while i < n
                    invariant
                        i <= n,
                        forall|j: int| 0 <= j < i ==> quantifier_free(#[trigger] fs@[j]),
                    decreases n - i,
                {
                    if !fs[i].is_quantifier_free() {
                        return false;
                    }
                    i += 1;
                }
                true
            },
            Formula::Not(g) => g.is_quantifier_free(),
            _ => true,
        }
    }
}

/// An integer expression over the single time parameter: the compiled form
/// of an `Expr` once its one admissible free variable is resolved to the
/// time parameter and every other variable to the constant zero.
#[derive(Debug, PartialEq, Eq)]
pub enum TimeTerm {
    Add(Box<TimeTerm>, Box<TimeTerm>),
    Sub(Box<TimeTerm>, Box<TimeTerm>),
    MulConst(i64, Box<TimeTerm>),
    Mod(Box<TimeTerm>, i64),
    Time,
    Const(i64),
}

/// A time-indexed boolean predicate: the compiled form of a quantifier-free
/// formula with at most one free variable.
#[derive(Debug, PartialEq, Eq)]
pub enum Predicate {
    All(Vec<Predicate>),
    Any(Vec<Predicate>),
    Not(Box<Predicate>),
    Eq(TimeTerm, TimeTerm),
    Neq(TimeTerm, TimeTerm),
    Lt(TimeTerm, TimeTerm),
    Le(TimeTerm, TimeTerm),
    Gt(TimeTerm, TimeTerm),
    Ge(TimeTerm, TimeTerm),
    True,
    False,
}

/// The error returned when a formula cannot be compiled into a predicate.
#[derive(Debug, Clone, Copy, PartialEq, Eq)]
pub enum CompileError {
    /// The formula contains a quantifier.
    ContainsQuantifiers,
    /// The formula has two or more distinct free variables.
    MoreThanOneFreeVariable,
}

/// The time parameter read as a 64-bit signed value, wrapping around as a
/// cast from `usize` to `i64` does.
pub open spec fn wrap_to_i64(t: usize) -> i64 {
    if t as int <= i64::MAX as int {
        t as i64
    } else {
        (t as int - 0x1_0000_0000_0000_0000) as i64
    }
}

/// The remainder of `a` by `m` with the sign following the dividend
/// (truncating-division semantics), and zero when `m` is zero.
pub open spec fn trunc_rem(a: i64, m: i64) -> i64 {
    if m == 0 {
        0
    } else {
        let x = a as int;
        let d = m as int;
        let r = if x == 0 {
            0
        } else if x > 0 && d > 0 {
            x % d
        } else if x < 0 && d < 0 {
            -((-x) % (-d))
        } else if x < 0 {
            -((-x) % d)
        } else {
            x % (-d)
        };
        r as i64
    }
}

/// The value of a compiled term at time `t`, on wrapping 64-bit arithmetic.
pub open spec fn term_value(tm: TimeTerm, t: usize) -> i64
    decreases tm,
{
    match tm {
        TimeTerm::Add(a, b) => vstd::wrapping::i64_specs::wrapping_add(
            term_value(*a, t), term_value(*b, t)),
        TimeTerm::Sub(a, b) => vstd::wrapping::i64_specs::wrapping_sub(
            term_value(*a, t), term_value(*b, t)),
        TimeTerm::MulConst(c, e) => vstd::wrapping::i64_specs::wrapping_mul(
            c, term_value(*e, t)),
        TimeTerm::Mod(e, m) => trunc_rem(term_value(*e, t), m),
        TimeTerm::Time => wrap_to_i64(t),
        TimeTerm::Const(c) => c,
    }
}

/// The value of a source expression at time `t` when `v` names the variable
/// standing for time: that variable reads the time parameter, any other
/// variable reads zero.
pub open spec fn expr_value(e: Expr, v: Option<Seq<char>>, t: usize) -> i64
    decreases e,
{
    match e {
        Expr::Add(e1, e2) => vstd::wrapping::i64_specs::wrapping_add(
            expr_value(*e1, v, t), expr_value(*e2, v, t)),
        Expr::Sub(e1, e2) => vstd::wrapping::i64_specs::wrapping_sub(
            expr_value(*e1, v, t), expr_value(*e2, v, t)),
        Expr::MulConst(c, e1) => vstd::wrapping::i64_specs::wrapping_mul(
            c, expr_value(*e1, v, t)),
        Expr::Mod(e1, m) => trunc_rem(expr_value(*e1, v, t), m),
        Expr::Var(name) => if v == Some(name@) {
            wrap_to_i64(t)
        } else {
            0
        },
        Expr::Const(c) => c,
    }
}

/// Whether a compiled predicate holds at time `t`.
pub open spec fn pred_holds(p: Predicate, t: usize) -> bool
    decreases p,
{
    match p {
        Predicate::All(ps) => pred_all_hold(ps@, t),
        Predicate::Any(ps) => pred_any_holds(ps@, t),
        Predicate::Not(q) => !pred_holds(*q, t),
        Predicate::Eq(a, b) => term_value(a, t) == term_value(b, t),
        Predicate::Neq(a, b) => term_value(a, t) != term_value(b, t),
        Predicate::Lt(a, b) => term_value(a, t) < term_value(b, t),
        Predicate::Le(a, b) => term_value(a, t) <= term_value(b, t),
        Predicate::Gt(a, b) => term_value(a, t) > term_value(b, t),
        Predicate::Ge(a, b) => term_value(a, t) >= term_value(b, t),
        Predicate::True => true,
        Predicate::False => false,
    }
}

/// Whether every predicate of `ps` holds at time `t`.
pub open spec fn pred_all_hold(ps: Seq<Predicate>, t: usize) -> bool
    decreases ps,
{
    if ps.len() == 0 {
        true
    } else {
        pred_holds(ps[0], t) && pred_all_hold(ps.drop_first(), t)
    }
}

/// Whether some predicate of `ps` holds at time `t`.
pub open spec fn pred_any_holds(ps: Seq<Predicate>, t: usize) -> bool
    decreases ps,
{
    if ps.len() == 0 {
        false
    } else {
        pred_holds(ps[0], t) || pred_any_holds(ps.drop_first(), t)
    }
}

/// Whether a quantifier-free formula holds at time `t` when `v` names the
/// variable standing for time.  A formula with a quantifier at its root
/// never holds; no compiled predicate ever comes from one.
pub open spec fn formula_holds(f: Formula, v: Option<Seq<char>>, t: usize) -> bool
    decreases f,
{
    match f {
        Formula::Forall(_, _) => false,
        Formula::Exists(_, _) => false,
        Formula::And(fs) => formula_all_hold(fs@, v, t),
        Formula::Or(fs) => formula_any_holds(fs@, v, t),
        Formula::Not(g) => !formula_holds(*g, v, t),
        Formula::Eq(e1, e2) => expr_value(*e1, v, t) == expr_value(*e2, v, t),
        Formula::Neq(e1, e2) => expr_value(*e1, v, t) != expr_value(*e2, v, t),
        Formula::Lt(e1, e2) => expr_value(*e1, v, t) < expr_value(*e2, v, t),
        Formula::Le(e1, e2) => expr_value(*e1, v, t) <= expr_value(*e2, v, t),
        Formula::Gt(e1, e2) => expr_value(*e1, v, t) > expr_value(*e2, v, t),
        Formula::Ge(e1, e2) => expr_value(*e1, v, t) >= expr_value(*e2, v, t),
        Formula::True => true,
        Formula::False => false,
    }
}

/// Whether every formula of `fs` holds at time `t`.
pub open spec fn formula_all_hold(fs: Seq<Formula>, v: Option<Seq<char>>, t: usize) -> bool
    decreases fs,
{
    if fs.len() == 0 {
        true
    } else {
        formula_holds(fs[0], v, t) && formula_all_hold(fs.drop_first(), v, t)
    }
}

/// Whether some formula of `fs` holds at time `t`.
pub open spec fn formula_any_holds(fs: Seq<Formula>, v: Option<Seq<char>>, t: usize) -> bool
    decreases fs,
{
    if fs.len() == 0 {
        false
    } else {
        formula_holds(fs[0], v, t) || formula_any_holds(fs.drop_first(), v, t)
    }
}

/// A conjunction over a sequence holds exactly when every member holds.
pub proof fn lemma_pred_all_hold_elements(ps: Seq<Predicate>, t: usize)
    ensures
        pred_all_hold(ps, t) <==> (forall|i: int|
            0 <= i < ps.len() ==> pred_holds(#[trigger] ps[i], t)),
    decreases ps.len(),
{
    if ps.len() > 0 {
        lemma_pred_all_hold_elements(ps.drop_first(), t);
        assert(forall|i: int|
            0 <= i < ps.drop_first().len() ==> #[trigger] ps.drop_first()[i] == ps[i + 1]);
        assert(forall|i: int|
            0 < i < ps.len() ==> #[trigger] ps[i] == ps.drop_first()[i - 1]);
    }
}

/// A disjunction over a sequence holds exactly when some member holds.
pub proof fn lemma_pred_any_holds_elements(ps: Seq<Predicate>, t: usize)
    ensures
        pred_any_holds(ps, t) <==> (exists|i: int|
            0 <= i < ps.len() && pred_holds(#[trigger] ps[i], t)),
    decreases ps.len(),
{
    if ps.len() > 0 {
        lemma_pred_any_holds_elements(ps.drop_first(), t);
        assert(forall|i: int|
            0 <= i < ps.drop_first().len() ==> #[trigger] ps.drop_first()[i] == ps[i + 1]);
        assert(forall|i: int|
            0 < i < ps.len() ==> #[trigger] ps[i] == ps.drop_first()[i - 1]);
    }
}

/// A source conjunction holds exactly when every member holds.
pub proof fn lemma_formula_all_hold_elements(fs: Seq<Formula>, v: Option<Seq<char>>, t: usize)
    ensures
        formula_all_hold(fs, v, t) <==> (forall|i: int|
            0 <= i < fs.len() ==> formula_holds(#[trigger] fs[i], v, t)),
    decreases fs.len(),
{
    if fs.len() > 0 {
        lemma_formula_all_hold_elements(fs.drop_first(), v, t);
        assert(forall|i: int|
            0 <= i < fs.drop_first().len() ==> #[trigger] fs.drop_first()[i] == fs[i + 1]);
        assert(forall|i: int|
            0 < i < fs.len() ==> #[trigger] fs[i] == fs.drop_first()[i - 1]);
    }
}

/// A source disjunction holds exactly when some member holds.
pub proof fn lemma_formula_any_holds_elements(fs: Seq<Formula>, v: Option<Seq<char>>, t: usize)
    ensures
        formula_any_holds(fs, v, t) <==> (exists|i: int|
            0 <= i < fs.len() && formula_holds(#[trigger] fs[i], v, t)),
    decreases fs.len(),
{
    if fs.len() > 0 {
        lemma_formula_any_holds_elements(fs.drop_first(), v, t);
        assert(forall|i: int|
            0 <= i < fs.drop_first().len() ==> #[trigger] fs.drop_first()[i] == fs[i + 1]);
        assert(forall|i: int|
            0 < i < fs.len() ==> #[trigger] fs[i] == fs.drop_first()[i - 1]);
    }
}

/// The characters of the variable name standing for time, if any.
pub open spec fn opt_name_view(v: Option<String>) -> Option<Seq<char>> {
    match v {
        Some(s) => Some(s@),
        None => None,
    }
}

/// The variable that a compiled formula reads the time through: the one
/// free variable where there is one, nothing where the formula is closed.
pub open spec fn free_var_choice(f: Formula) -> Option<Seq<char>> {
    if free_vars(f).is_empty() {
        None
    } else {
        Some(free_vars(f).choose())
    }
}

/// The time parameter as an `i64`, wrapping around above `i64::MAX`.
fn wrap_time(time: usize) -> (r: i64)
    ensures
        r == wrap_to_i64(time),
{
    let tu: u64 = time as u64;
    if tu <= i64::MAX as u64 {
        tu as i64
    } else {
        let d: u64 = tu - 0x8000_0000_0000_0000u64;
        i64::MIN + (d as i64)
    }
}

impl TimeTerm {
    /// The value of the term at the given time.
    fn value_at(&self, time: usize) -> (r: i64)
        ensures
            r == term_value(*self, time),
        decreases *self,
    {
        match self {
            TimeTerm::Add(a, b) => a.value_at(time).wrapping_add(b.value_at(time)),
            TimeTerm::Sub(a, b) => a.value_at(time).wrapping_sub(b.value_at(time)),
            TimeTerm::MulConst(c, e) => c.wrapping_mul(e.value_at(time)),
            TimeTerm::Mod(e, m) => {
                let v: i64 = e.value_at(time);
                match v.checked_rem(*m) {
                    Some(r) => r,
                    None => 0,
                }
            },
            TimeTerm::Time => wrap_time(time),
            TimeTerm::Const(c) => *c,
        }
    }
}

impl Predicate {
    /// Evaluates the predicate at the given time.
    #[verifier::loop_isolation(false)]
    pub fn eval(&self, time: usize) -> (r: bool)
        ensures
            r == pred_holds(*self, time),
        decreases *self,
    {
        match self {
            Predicate::All(ps) => {
                let mut i: usize = 0;
                let n: usize = ps.len();
                proof {
                    lemma_pred_all_hold_elements(ps@, time);
                }
                while i < n
                    invariant
                        i <= n,
                        forall|j: int| 0 <= j < i ==> pred_holds(#[trigger] ps@[j], time),
                    decreases n - i,
                {
                    if !ps[i].eval(time) {
                        return false;
                    }
                    i += 1;
                }
                true
            },
            Predicate::Any(ps) => {
                let mut i: usize = 0;
                let n: usize = ps.len();
                proof {
                    lemma_pred_any_holds_elements(ps@, time);
                }
                while i < n
                    invariant
                        i <= n,
                        forall|j: int| 0 <= j < i ==> !pred_holds(#[trigger] ps@[j], time),
                    decreases n - i,
                {
                    if ps[i].eval(time) {
                        return true;
                    }
                    i += 1;
                }
                false
            },
            Predicate::Not(q) => !q.eval(time),
            Predicate::Eq(a, b) => a.value_at(time) == b.value_at(time),
            Predicate::Neq(a, b) => a.value_at(time) != b.value_at(time),
            Predicate::Lt(a, b) => a.value_at(time) < b.value_at(time),
            Predicate::Le(a, b) => a.value_at(time) <= b.value_at(time),
            Predicate::Gt(a, b) => a.value_at(time) > b.value_at(time),
            Predicate::Ge(a, b) => a.value_at(time) >= b.value_at(time),
            Predicate::True => true,
            Predicate::False => false,
        }
    }
}

/// Lowers an expression: the variable named by `var` becomes the time
/// parameter, any other variable the constant zero.
fn compile_expr(e: &Expr, var: &Option<String>) -> (r: TimeTerm)
    ensures
        forall|t: usize|
            #[trigger] term_value(r, t) == expr_value(*e, opt_name_view(*var), t),
    decreases *e,
{
    match e {
        Expr::Add(e1, e2) => {
            let a = compile_expr(e1, var);
            let b = compile_expr(e2, var);
            let r = TimeTerm::Add(Box::new(a), Box::new(b));
            proof {
                assert forall|t: usize| #[trigger] term_value(r, t)
                    == expr_value(*e, opt_name_view(*var), t) by {
                    assert(term_value(a, t) == expr_value(**e1, opt_name_view(*var), t));
                    assert(term_value(b, t) == expr_value(**e2, opt_name_view(*var), t));
                }
            }
            r
        },
        Expr::Sub(e1, e2) => {
            let a = compile_expr(e1, var);
            let b = compile_expr(e2, var);
            let r = TimeTerm::Sub(Box::new(a), Box::new(b));
            proof {
                assert forall|t: usize| #[trigger] term_value(r, t)
                    == expr_value(*e, opt_name_view(*var), t) by {
                    assert(term_value(a, t) == expr_value(**e1, opt_name_view(*var), t));
                    assert(term_value(b, t) == expr_value(**e2, opt_name_view(*var), t));
                }
            }
            r
        },
        Expr::MulConst(c, e1) => {
            let a = compile_expr(e1, var);
            let r = TimeTerm::MulConst(*c, Box::new(a));
            proof {
                assert forall|t: usize| #[trigger] term_value(r, t)
                    == expr_value(*e, opt_name_view(*var), t) by {
                    assert(term_value(a, t) == expr_value(**e1, opt_name_view(*var), t));
                }
            }
            r
        },
        Expr::Mod(e1, m) => {
            let a = compile_expr(e1, var);
            let r = TimeTerm::Mod(Box::new(a), *m);
            proof {
                assert forall|t: usize| #[trigger] term_value(r, t)
                    == expr_value(*e, opt_name_view(*var), t) by {
                    assert(term_value(a, t) == expr_value(**e1, opt_name_view(*var), t));
                }
            }
            r
        },
        Expr::Var(name) => match var {
            Some(vn) => if *name == *vn {
                TimeTerm::Time
            } else {
                TimeTerm::Const(0)
            },
            None => TimeTerm::Const(0),
        },
        Expr::Const(c) => TimeTerm::Const(*c),
    }
}

/// Lowers a formula node by node; quantifier nodes, which never pass
/// validation, lower to the constantly false predicate.
#[verifier::loop_isolation(false)]
fn compile_formula(f: &Formula, var: &Option<String>) -> (r: Predicate)
    ensures
        forall|t: usize|
            pred_holds(r, t) == formula_holds(*f, opt_name_view(*var), t),
    decreases *f,
{
    match f {
        Formula::Forall(_, _) | Formula::Exists(_, _) => Predicate::False,
        Formula::And(fs) => {
            let mut out: Vec<Predicate> = Vec::new();
            let mut i: usize = 0;
            let n: usize = fs.len();
            while i < n
                invariant
                    i <= n,
                    out@.len() == i,
                    forall|j: int, t: usize| 0 <= j < i
                        ==> #[trigger] pred_holds(out@[j], t)
                            == formula_holds(fs@[j], opt_name_view(*var), t),
                decreases n - i,
            {
                let p = compile_formula(&fs[i], var);
                out.push(p);
                i += 1;
            }
            let ghost compiled = out@;
            let r = Predicate::All(out);
            proof {
                assert forall|t: usize|
                    pred_holds(r, t) == formula_holds(*f, opt_name_view(*var), t) by {
                    lemma_pred_all_hold_elements(compiled, t);
                    lemma_formula_all_hold_elements(fs@, opt_name_view(*var), t);
                    assert forall|j: int|
                        #![trigger compiled[j]]
                        #![trigger fs@[j]]
                        0 <= j < fs@.len() implies pred_holds(compiled[j], t)
                            == formula_holds(fs@[j], opt_name_view(*var), t) by {
                    }
                }
            }
            r
        },
        Formula::Or(fs) => {
            let mut out: Vec<Predicate> = Vec::new();
            let mut i: usize = 0;
            let n: usize = fs.len();
            while i < n
                invariant
                    i <= n,
                    out@.len() == i,
                    forall|j: int, t: usize| 0 <= j < i
                        ==> #[trigger] pred_holds(out@[j], t)
                            == formula_holds(fs@[j], opt_name_view(*var), t),
                decreases n - i,
            {
                let p = compile_formula(&fs[i], var);
                out.push(p);
                i += 1;
            }
            let ghost compiled = out@;
            let r = Predicate::Any(out);
            proof {
                assert forall|t: usize|
                    pred_holds(r, t) == formula_holds(*f, opt_name_view(*var), t) by {
                    lemma_pred_any_holds_elements(compiled, t);
                    lemma_formula_any_holds_elements(fs@, opt_name_view(*var), t);
                    assert forall|j: int|
                        #![trigger compiled[j]]
                        #![trigger fs@[j]]
                        0 <= j < fs@.len() implies pred_holds(compiled[j], t)
                            == formula_holds(fs@[j], opt_name_view(*var), t) by {
                    }
                }
            }
            r
        },
        Formula::Not(g) => {
            let q = compile_formula(g, var);
            let r = Predicate::Not(Box::new(q));
            proof {
                assert forall|t: usize|
                    pred_holds(r, t) == formula_holds(*f, opt_name_view(*var), t) by {
                    assert(pred_holds(q, t) == formula_holds(**g, opt_name_view(*var), t));
                }
            }
            r
        },
        Formula::Eq(e1, e2) => Predicate::Eq(compile_expr(e1, var), compile_expr(e2, var)),
        Formula::Neq(e1, e2) => Predicate::Neq(compile_expr(e1, var), compile_expr(e2, var)),
        Formula::Lt(e1, e2) => Predicate::Lt(compile_expr(e1, var), compile_expr(e2, var)),
        Formula::Le(e1, e2) => Predicate::Le(compile_expr(e1, var), compile_expr(e2, var)),
        Formula::Gt(e1, e2) => Predicate::Gt(compile_expr(e1, var), compile_expr(e2, var)),
        Formula::Ge(e1, e2) => Predicate::Ge(compile_expr(e1, var), compile_expr(e2, var)),
        Formula::True => Predicate::True,
        Formula::False => Predicate::False,
    }
}

impl Formula {
    /// Attempts to compile the formula into a predicate on time.  Succeeds
    /// exactly when the formula is quantifier-free and has at most one free
    /// variable; the predicate then agrees with the formula at every time,
    /// the one free variable (if any) standing for the time parameter.
    pub fn as_closure(&self) -> (r: Result<Predicate, CompileError>)
        ensures
            match r {
                Ok(p) => quantifier_free(*self) && free_vars(*self).len() <= 1
                    && (forall|t: usize|
                        pred_holds(p, t) == formula_holds(*self, free_var_choice(*self), t)),
                Err(CompileError::ContainsQuantifiers) => !quantifier_free(*self),
                Err(CompileError::MoreThanOneFreeVariable) =>
                    quantifier_free(*self) && free_vars(*self).len() > 1,
            },
    {
        if !self.is_quantifier_free() {
            return Err(CompileError::ContainsQuantifiers);
        }
        let mut free = self.free_variables();
        proof {
            name_views(free@).unique_seq_to_set();
            assert(free_vars(*self).len() == free@.len());
        }
        if free.len() > 1 {
            return Err(CompileError::MoreThanOneFreeVariable);
        }
        let ghost free0 = free@;
        let var = free.pop();
        proof {
            let vs = name_views(free0);
            if free0.len() == 0 {
                assert(name_set(free0) =~= Set::<Seq<char>>::empty());
                assert(free_vars(*self).is_empty());
                assert(opt_name_view(var) == free_var_choice(*self));
            } else {
                assert(vs[0] == free0[0]@);
                assert(vs.contains(vs[0]));
                assert(free_vars(*self).contains(vs[0]));
                assert(!free_vars(*self).is_empty());
                assert forall|x: Seq<char>|
                    name_set(free0).contains(x) implies x == vs[0] by {
                    let j = choose|j: int| 0 <= j < vs.len() && vs[j] == x;
                    assert(j == 0);
                }
                assert(free_vars(*self).choose() == vs[0]);
                assert(var == Some(free0[0]));
                assert(opt_name_view(var) == free_var_choice(*self));
            }
        }
        let p = compile_formula(self, &var);
        Ok(p)
    }
}

} // verus!
