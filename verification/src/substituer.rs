use crate::text::{chars_of, decimal, push_decimal, string_from_chars};
use vstd::prelude::*;

verus! {

/// A lambda term whose variables are known by name.
#[derive(Debug)]
pub enum NamedExpr {
    Var(String),
    Lambda(String, Box<NamedExpr>),
    App(Box<NamedExpr>, Box<NamedExpr>),
}

pub enum NamedView {
    Var(Seq<char>),
    Lambda(Seq<char>, Box<NamedView>),
    App(Box<NamedView>, Box<NamedView>),
}

impl NamedExpr {
    pub open spec fn view(&self) -> NamedView
        decreases self,
    {
        match self {
            NamedExpr::Var(n) => NamedView::Var(n@),
            NamedExpr::Lambda(p, b) => NamedView::Lambda(p@, Box::new(b.view())),
            NamedExpr::App(l, r) => NamedView::App(Box::new(l.view()), Box::new(r.view())),
        }
    }
}

impl Clone for NamedExpr {
    fn clone(&self) -> (res: Self)
        ensures
            res == *self,
        decreases self,
    {
        match self {
            NamedExpr::Var(n) => NamedExpr::Var(n.clone()),
            NamedExpr::Lambda(p, b) => NamedExpr::Lambda(p.clone(), Box::new((**b).clone())),
            NamedExpr::App(l, r) => NamedExpr::App(Box::new((**l).clone()), Box::new((**r).clone())),
        }
    }
}

/// Whether `x` occurs free in `e`.
pub open spec fn occurs_free(x: Seq<char>, e: NamedView) -> bool
    decreases e,
{
    match e {
        NamedView::Var(n) => x == n,
        NamedView::Lambda(p, b) => x != p && occurs_free(x, *b),
        NamedView::App(l, r) => occurs_free(x, *l) || occurs_free(x, *r),
    }
}

/// The number of variables, lambdas and applications in `e`.
pub open spec fn size(e: NamedView) -> nat
    decreases e,
{
    match e {
        NamedView::Var(_) => 1,
        NamedView::Lambda(_, b) => 1 + size(*b),
        NamedView::App(l, r) => 1 + size(*l) + size(*r),
    }
}

/// The length of the longest variable occurrence in `e`.
pub open spec fn longest_var(e: NamedView) -> nat
    decreases e,
{
    match e {
        NamedView::Var(n) => n.len(),
        NamedView::Lambda(_, b) => longest_var(*b),
        NamedView::App(l, r) => if longest_var(*l) >= longest_var(*r) {
            longest_var(*l)
        } else {
            longest_var(*r)
        },
    }
}

/// How many renamings of a binder named `p` can still meet a free variable of `v`:
/// each renaming makes the name longer.
pub open spec fn renaming_room(e: NamedView, v: NamedView) -> nat {
    match e {
        NamedView::Lambda(p, _) => if p.len() <= longest_var(v) {
            (longest_var(v) + 1 - p.len()) as nat
        } else {
            0
        },
        _ => 0,
    }
}

/// The name made from `base` with the counter after `counter`.
pub open spec fn fresh_name_spec(base: Seq<char>, counter: nat) -> Seq<char> {
    base + decimal(counter + 1)
}

pub proof fn lemma_occurs_free_len(x: Seq<char>, e: NamedView)
    requires
        occurs_free(x, e),
    ensures
        x.len() <= longest_var(e),
    decreases e,
{
    match e {
        NamedView::Var(_) => {},
        NamedView::Lambda(_, b) => lemma_occurs_free_len(x, *b),
        NamedView::App(l, r) => {
            if occurs_free(x, *l) {
                lemma_occurs_free_len(x, *l);
            } else {
                lemma_occurs_free_len(x, *r);
            }
        },
    }
}

pub proof fn lemma_decimal_nonempty(n: nat)
    ensures
        decimal(n).len() >= 1,
    decreases n,
{
    if n >= 10 {
        lemma_decimal_nonempty(n / 10);
    }
}

/// Capture-avoiding substitution of `v` for the free occurrences of `x` in `e`, with the
/// counter of fresh names at `c`: the result and the counter after it. A lambda whose
/// parameter occurs free in `v` first has its parameter renamed to a fresh name (and is
/// looked at again); `n` bounds the size of the terms walked into.
pub open spec fn subst_within(n: nat, c: nat, x: Seq<char>, e: NamedView, v: NamedView) -> (
    NamedView,
    nat,
)
    decreases n, renaming_room(e, v),
{
    if size(e) > n {
        (e, c)
    } else {
        match e {
            NamedView::Var(name) => if name == x {
                (v, c)
            } else {
                (e, c)
            },
            NamedView::Lambda(p, b) => if p == x {
                (e, c)
            } else if occurs_free(p, v) {
                let f = fresh_name_spec(p, c);
                let (fb, c2) = subst_within(size(*b), c + 1, p, *b, NamedView::Var(f));
                proof {
                    lemma_occurs_free_len(p, v);
                    lemma_decimal_nonempty(c + 1);
                }
                subst_within(n, c2, x, NamedView::Lambda(f, Box::new(fb)), v)
            } else {
                let (nb, c1) = subst_within(size(*b), c, x, *b, v);
                (NamedView::Lambda(p, Box::new(nb)), c1)
            },
            NamedView::App(l, r) => {
                let (nl, c1) = subst_within(size(*l), c, x, *l, v);
                let (nr, c2) = subst_within(size(*r), c1, x, *r, v);
                (NamedView::App(Box::new(nl), Box::new(nr)), c2)
            },
        }
    }
}

/// Capture-avoiding substitution (see `subst_within`).
pub open spec fn subst_spec(c: nat, x: Seq<char>, e: NamedView, v: NamedView) -> (NamedView, nat) {
    subst_within(size(e), c, x, e, v)
}


/// The counter never goes back.
pub proof fn lemma_counter_grows(n: nat, c: nat, x: Seq<char>, e: NamedView, v: NamedView)
    ensures
        subst_within(n, c, x, e, v).1 >= c,
    decreases n, renaming_room(e, v),
{
    if size(e) <= n {
        match e {
            NamedView::Var(_) => {},
            NamedView::Lambda(p, b) => {
                if p != x {
                    if occurs_free(p, v) {
                        let f = fresh_name_spec(p, c);
                        let (fb, c2) = subst_within(size(*b), c + 1, p, *b, NamedView::Var(f));
                        lemma_occurs_free_len(p, v);
                        lemma_decimal_nonempty(c + 1);
                        lemma_counter_grows(size(*b), c + 1, p, *b, NamedView::Var(f));
                        lemma_counter_grows(n, c2, x, NamedView::Lambda(f, Box::new(fb)), v);
                    } else {
                        lemma_counter_grows(size(*b), c, x, *b, v);
                    }
                }
            },
            NamedView::App(l, r) => {
                let (nl, c1) = subst_within(size(*l), c, x, *l, v);
                lemma_counter_grows(size(*l), c, x, *l, v);
                lemma_counter_grows(size(*r), c1, x, *r, v);
            },
        }
    }
}

/// Capture-avoiding substitution on named terms, with a counter for fresh names.
pub struct Substituer {
    counter: u32,
}

impl Substituer {
    /// The number of fresh names handed out so far.
    pub closed spec fn counter(&self) -> nat {
        self.counter as nat
    }

    /// The counter always fits in a `u32`.
    pub proof fn lemma_counter_fits(&self)
        ensures
            self.counter() <= u32::MAX,
    {
    }

    pub fn new() -> (res: Self)
        ensures
            res.counter() == 0,
    {
        Self { counter: 0 }
    }

    /// Moves the counter on and returns `base` followed by it.
    fn fresh_name(&mut self, base: &str) -> (res: String)
        requires
            old(self).counter() < u32::MAX,
        ensures
            final(self).counter() == old(self).counter() + 1,
            res@ == fresh_name_spec(base@, old(self).counter()),
    {
        self.counter = self.counter + 1;
        let mut chars = chars_of(base);
        push_decimal(&mut chars, self.counter);
        string_from_chars(chars)
    }

    /// Whether `var` occurs free in `expr`.
    fn is_free(var: &String, expr: &NamedExpr) -> (res: bool)
        ensures
            res == occurs_free(var@, expr.view()),
        decreases expr,
    {
        match expr {
            NamedExpr::Var(name) => *var == *name,
            NamedExpr::Lambda(param, body) => *var != *param && Self::is_free(var, body),
            NamedExpr::App(l, r) => Self::is_free(var, l) || Self::is_free(var, r),
        }
    }

    /// Substitutes `value` for the free occurrences of `var` in `expr` (see `subst_spec`).
    /// The counter must not pass `u32::MAX` on the way.
    pub fn substitute(&mut self, var: &str, expr: &NamedExpr, value: &NamedExpr) -> (res: NamedExpr)
        requires
            subst_spec(old(self).counter(), var@, expr.view(), value.view()).1 <= u32::MAX,
        ensures
            (res.view(), final(self).counter()) == subst_spec(
                old(self).counter(),
                var@,
                expr.view(),
                value.view(),
            ),
    {
        let var = String::from_str(var);
        self.substitute_name(&var, expr, value)
    }

    fn substitute_name(&mut self, var: &String, expr: &NamedExpr, value: &NamedExpr) -> (res: NamedExpr)
        requires
            subst_spec(old(self).counter(), var@, expr.view(), value.view()).1 <= u32::MAX,
        ensures
            (res.view(), final(self).counter()) == subst_spec(
                old(self).counter(),
                var@,
                expr.view(),
                value.view(),
            ),
            value.view() is Var ==> size(res.view()) == size(expr.view()),
        decreases size(expr.view()), renaming_room(expr.view(), value.view()),
    {
        let ghost c = self.counter();
        proof {
            lemma_counter_grows(size(expr.view()), c, var@, expr.view(), value.view());
        }
        match expr {
            NamedExpr::Var(name) => {
                if *name == *var {
                    value.clone()
                } else {
                    expr.clone()
                }
            },
            NamedExpr::Lambda(param, body) => {
                if *param == *var {
                    expr.clone()
                } else if Self::is_free(param, value) {
                    let ghost f = fresh_name_spec(param@, c);
                    let ghost inner = subst_within(size(body.view()), c + 1, param@, body.view(), NamedView::Var(f));
                    proof {
                        lemma_counter_grows(size(body.view()), c + 1, param@, body.view(), NamedView::Var(f));
                        lemma_counter_grows(
                            size(expr.view()),
                            inner.1,
                            var@,
                            NamedView::Lambda(f, Box::new(inner.0)),
                            value.view(),
                        );
                        lemma_occurs_free_len(param@, value.view());
                        lemma_decimal_nonempty(c + 1);
                    }
                    let fresh = self.fresh_name(param.as_str());
                    let fresh_var = NamedExpr::Var(fresh.clone());
                    let fresh_body = self.substitute_name(param, body, &fresh_var);
                    let fresh_lambda = NamedExpr::Lambda(fresh, Box::new(fresh_body));
                    assert(fresh_lambda.view() == NamedView::Lambda(f, Box::new(inner.0)));
                    self.substitute_name(var, &fresh_lambda, value)
                } else {
                    let new_body = self.substitute_name(var, body, value);
                    NamedExpr::Lambda(param.clone(), Box::new(new_body))
                }
            },
            NamedExpr::App(l, r) => {
                let ghost left = subst_within(size(l.view()), c, var@, l.view(), value.view());
                proof {
                    lemma_counter_grows(size(r.view()), left.1, var@, r.view(), value.view());
                }
                let nl = self.substitute_name(var, l, value);
                let nr = self.substitute_name(var, r, value);
                NamedExpr::App(Box::new(nl), Box::new(nr))
            },
        }
    }
}

} // verus!
