use crate::substituer::{
    fresh_name_spec, lemma_counter_grows, lemma_decimal_nonempty, lemma_occurs_free_len, occurs_free,
    renaming_room, size, subst_spec, subst_within, NamedView,
};
use crate::text::{decimal, digit};
use vstd::prelude::*;

verus! {

pub open spec fn is_digit(ch: char) -> bool {
    48 <= (ch as u32) && (ch as u32) <= 57
}

pub open spec fn digit_value(ch: char) -> nat {
    ((ch as u32) - 48) as nat
}

/// The number that the digits at the end of `s` spell; 0 where `s` ends in no digit.
pub open spec fn trailing_number(s: Seq<char>) -> nat
    decreases s.len(),
{
    if s.len() == 0 || !is_digit(s.last()) {
        0
    } else {
        trailing_number(s.drop_last()) * 10 + digit_value(s.last())
    }
}

/// Whether `s` names a variable or a parameter somewhere in `e`.
pub open spec fn has_name(e: NamedView, s: Seq<char>) -> bool
    decreases e,
{
    match e {
        NamedView::Var(n) => n == s,
        NamedView::Lambda(p, b) => p == s || has_name(*b, s),
        NamedView::App(l, r) => has_name(*l, s) || has_name(*r, s),
    }
}

/// Whether `s` is the parameter of a lambda somewhere in `e`.
pub open spec fn has_binder(e: NamedView, s: Seq<char>) -> bool
    decreases e,
{
    match e {
        NamedView::Var(_) => false,
        NamedView::Lambda(p, b) => p == s || has_binder(*b, s),
        NamedView::App(l, r) => has_binder(*l, s) || has_binder(*r, s),
    }
}

/// No name in `e` ends in a number above `c`: none of them is a fresh name still to come.
pub open spec fn names_below(e: NamedView, c: nat) -> bool {
    forall|s: Seq<char>| #[trigger] has_name(e, s) ==> trailing_number(s) <= c
}

/// Every parameter of `e` that occurs free in `v`, and so may be renamed, ends in no number.
pub open spec fn renamable_plain(e: NamedView, v: NamedView) -> bool {
    forall|s: Seq<char>| #[trigger] has_binder(e, s) && occurs_free(s, v) ==> trailing_number(s) == 0
}

proof fn lemma_free_has_name(s: Seq<char>, e: NamedView)
    requires
        occurs_free(s, e),
    ensures
        has_name(e, s),
    decreases e,
{
    match e {
        NamedView::Var(_) => {},
        NamedView::Lambda(_, b) => lemma_free_has_name(s, *b),
        NamedView::App(l, r) => {
            if occurs_free(s, *l) {
                lemma_free_has_name(s, *l);
            } else {
                lemma_free_has_name(s, *r);
            }
        },
    }
}

proof fn lemma_binder_has_name(s: Seq<char>, e: NamedView)
    requires
        has_binder(e, s),
    ensures
        has_name(e, s),
    decreases e,
{
    match e {
        NamedView::Var(_) => {},
        NamedView::Lambda(p, b) => {
            if p != s {
                lemma_binder_has_name(s, *b);
            }
        },
        NamedView::App(l, r) => {
            if has_binder(*l, s) {
                lemma_binder_has_name(s, *l);
            } else {
                lemma_binder_has_name(s, *r);
            }
        },
    }
}

proof fn lemma_digit(d: nat)
    requires
        d < 10,
    ensures
        is_digit(digit(d)),
        digit_value(digit(d)) == d,
{
}

/// A name that ends in no number, followed by the numeral of `n`, ends in `n`.
proof fn lemma_fresh_number(p: Seq<char>, n: nat)
    requires
        trailing_number(p) == 0,
    ensures
        trailing_number(p + decimal(n)) == n,
    decreases n,
{
    if n < 10 {
        lemma_digit(n);
        let s = p + decimal(n);
        assert(s.drop_last() =~= p);
        assert(s.last() == digit(n));
    } else {
        lemma_fresh_number(p, n / 10);
        lemma_digit(n % 10);
        let s = p + decimal(n);
        assert(s.drop_last() =~= p + decimal(n / 10));
        assert(s.last() == digit(n % 10));
        assert((n / 10) * 10 + n % 10 == n) by (nonlinear_arith);
    }
}

proof fn lemma_subst_var_size(n: nat, c: nat, x: Seq<char>, e: NamedView, f: Seq<char>)
    ensures
        size(subst_within(n, c, x, e, NamedView::Var(f)).0) == size(e),
    decreases n, renaming_room(e, NamedView::Var(f)),
{
    let v = NamedView::Var(f);
    if size(e) <= n {
        match e {
            NamedView::Var(_) => {},
            NamedView::Lambda(p, b) => {
                if p != x {
                    if occurs_free(p, v) {
                        let g = fresh_name_spec(p, c);
                        let (gb, c2) = subst_within(size(*b), c + 1, p, *b, NamedView::Var(g));
                        lemma_occurs_free_len(p, v);
                        lemma_decimal_nonempty(c + 1);
                        lemma_subst_var_size(size(*b), c + 1, p, *b, g);
                        lemma_subst_var_size(n, c2, x, NamedView::Lambda(g, Box::new(gb)), f);
                    } else {
                        lemma_subst_var_size(size(*b), c, x, *b, f);
                    }
                }
            },
            NamedView::App(l, r) => {
                let (nl, c1) = subst_within(size(*l), c, x, *l, v);
                lemma_subst_var_size(size(*l), c, x, *l, f);
                lemma_subst_var_size(size(*r), c1, x, *r, f);
            },
        }
    }
}

/// How many times `y` occurs free in `e`.
pub open spec fn free_count(y: Seq<char>, e: NamedView) -> nat
    decreases e,
{
    match e {
        NamedView::Var(n) => if n == y {
            1
        } else {
            0
        },
        NamedView::Lambda(p, b) => if p == y {
            0
        } else {
            free_count(y, *b)
        },
        NamedView::App(l, r) => free_count(y, *l) + free_count(y, *r),
    }
}

proof fn lemma_free_count_zero(y: Seq<char>, e: NamedView)
    requires
        !occurs_free(y, e),
    ensures
        free_count(y, e) == 0,
    decreases e,
{
    match e {
        NamedView::Var(_) => {},
        NamedView::Lambda(p, b) => {
            if p != y {
                lemma_free_count_zero(y, *b);
            }
        },
        NamedView::App(l, r) => {
            lemma_free_count_zero(y, *l);
            lemma_free_count_zero(y, *r);
        },
    }
}

/// The count law of substitution: `y` occurs free in the result as often as in `e`
/// (none for `x` itself), plus as often as in `v` for each free occurrence of `x` in `e`.
pub open spec fn counts_after(x: Seq<char>, e: NamedView, v: NamedView, r: NamedView) -> bool {
    forall|y: Seq<char>|
        #[trigger] free_count(y, r) == (if y == x {
            0
        } else {
            free_count(y, e)
        }) + free_count(x, e) * free_count(y, v)
}

/// What substitution keeps, step by step: the counter only grows, the free variables are
/// those of `e` with `x` replaced by those of `v`, no name is a fresh name still to come,
/// and every parameter comes from `e` or `v` or is a fresh name.
spec fn subst_keeps(n: nat, c: nat, x: Seq<char>, e: NamedView, v: NamedView) -> bool {
    let r = subst_within(n, c, x, e, v).0;
    let c2 = subst_within(n, c, x, e, v).1;
    &&& c <= c2
    &&& forall|y: Seq<char>|
        #[trigger] occurs_free(y, r) <==> (occurs_free(y, e) && y != x) || (occurs_free(x, e) && occurs_free(y, v))
    &&& names_below(r, c2)
    &&& forall|q: Seq<char>|
        #[trigger] has_binder(r, q) ==> has_binder(e, q) || has_binder(v, q) || trailing_number(q) > c
    &&& counts_after(x, e, v, r)
}

proof fn lemma_subst_within_free(n: nat, c: nat, x: Seq<char>, e: NamedView, v: NamedView)
    requires
        size(e) <= n,
        names_below(e, c),
        names_below(v, c),
        renamable_plain(e, v),
    ensures
        subst_keeps(n, c, x, e, v),
    decreases n, renaming_room(e, v),
{
    lemma_counter_grows(n, c, x, e, v);
    match e {
        NamedView::Var(name) => {
            if name == x {
                assert(subst_within(n, c, x, e, v) == (v, c));
                assert forall|y: Seq<char>| #[trigger] free_count(y, v) == (if y == x {
                    0
                } else {
                    free_count(y, e)
                }) + free_count(x, e) * free_count(y, v) by {
                    assert(free_count(x, e) == 1);
                }
            } else {
                assert(subst_within(n, c, x, e, v) == (e, c));
                assert forall|y: Seq<char>| #[trigger] free_count(y, e) == (if y == x {
                    0
                } else {
                    free_count(y, e)
                }) + free_count(x, e) * free_count(y, v) by {
                    assert(free_count(x, e) == 0);
                }
            }
        },
        NamedView::Lambda(p, b) => {
            if p == x {
                assert(subst_within(n, c, x, e, v) == (e, c));
                assert(!occurs_free(x, e));
                assert(free_count(x, e) == 0);
                assert forall|y: Seq<char>| #[trigger] free_count(y, e) == (if y == x {
                    0
                } else {
                    free_count(y, e)
                }) + free_count(x, e) * free_count(y, v) by {
                    let k = free_count(y, v);
                    assert(free_count(x, e) * k == 0) by (nonlinear_arith)
                        requires
                            free_count(x, e) == 0,
                    ;
                }
                assert(subst_keeps(n, c, x, e, v));
            } else if occurs_free(p, v) {
                let f = fresh_name_spec(p, c);
                let fv = NamedView::Var(f);
                lemma_occurs_free_len(p, v);
                lemma_decimal_nonempty(c + 1);
                assert(has_binder(e, p));
                lemma_fresh_number(p, c + 1);
                assert(trailing_number(f) == c + 1);
                assert(names_below(*b, c + 1)) by {
                    assert forall|s: Seq<char>| #[trigger] has_name(*b, s) implies trailing_number(s) <= c + 1 by {
                        assert(has_name(e, s));
                    }
                }
                assert(renamable_plain(*b, fv)) by {
                    assert forall|s: Seq<char>| #[trigger] has_binder(*b, s) && occurs_free(s, fv) implies
                        trailing_number(s) == 0 by {
                        lemma_binder_has_name(s, *b);
                        assert(has_name(e, s));
                    }
                }
                lemma_subst_within_free(size(*b), c + 1, p, *b, fv);
                let (fb, c2) = subst_within(size(*b), c + 1, p, *b, fv);
                lemma_subst_var_size(size(*b), c + 1, p, *b, f);
                let e2 = NamedView::Lambda(f, Box::new(fb));
                assert(!occurs_free(f, *b)) by {
                    if occurs_free(f, *b) {
                        lemma_free_has_name(f, *b);
                        assert(has_name(e, f));
                    }
                }
                assert(!occurs_free(f, v)) by {
                    if occurs_free(f, v) {
                        lemma_free_has_name(f, v);
                    }
                }
                assert(names_below(e2, c2)) by {
                    assert forall|s: Seq<char>| #[trigger] has_name(e2, s) implies trailing_number(s) <= c2 by {
                        if s != f {
                            assert(has_name(fb, s));
                        }
                    }
                }
                assert(renamable_plain(e2, v)) by {
                    assert forall|s: Seq<char>| #[trigger] has_binder(e2, s) && occurs_free(s, v) implies
                        trailing_number(s) == 0 by {
                        lemma_free_has_name(s, v);
                        if s != f {
                            assert(has_binder(fb, s));
                            if has_binder(*b, s) {
                                assert(has_binder(e, s));
                            }
                        }
                    }
                }
                assert forall|y: Seq<char>| #[trigger] occurs_free(y, e2) == occurs_free(y, e) by {
                    assert(occurs_free(y, fb) <==> (occurs_free(y, *b) && y != p) || (occurs_free(p, *b) && occurs_free(y, fv)));
                }
                lemma_subst_within_free(n, c2, x, e2, v);
                let (r, c3) = subst_within(n, c2, x, e2, v);
                assert(subst_within(n, c, x, e, v) == (r, c3));
                assert(occurs_free(x, e2) == occurs_free(x, e));
                assert(f != p) by {
                    assert(f.len() == p.len() + decimal(c + 1).len());
                }
                assert forall|y: Seq<char>| #[trigger] free_count(y, e2) == free_count(y, e) by {
                    assert(free_count(y, fb) == (if y == p {
                        0
                    } else {
                        free_count(y, *b)
                    }) + free_count(p, *b) * free_count(y, fv));
                    if y == f {
                        lemma_free_count_zero(f, *b);
                    } else {
                        assert(free_count(y, fv) == 0);
                        let k = free_count(p, *b);
                        assert(k * free_count(y, fv) == 0) by (nonlinear_arith)
                            requires
                                free_count(y, fv) == 0,
                        ;
                    }
                }
                assert(counts_after(x, e2, v, r));
                assert(counts_after(x, e, v, r)) by {
                    assert forall|y: Seq<char>| #[trigger] free_count(y, r) == (if y == x {
                        0
                    } else {
                        free_count(y, e)
                    }) + free_count(x, e) * free_count(y, v) by {
                        assert(free_count(y, e2) == free_count(y, e));
                        assert(free_count(x, e2) == free_count(x, e));
                    }
                }
                assert forall|q: Seq<char>| #[trigger] has_binder(r, q) implies has_binder(e, q) || has_binder(v, q)
                    || trailing_number(q) > c by {
                    if has_binder(e2, q) && q != f {
                        assert(has_binder(fb, q));
                        if has_binder(*b, q) {
                            assert(has_binder(e, q));
                        }
                    }
                }
                assert(subst_keeps(n, c, x, e, v));
            } else {
                assert(names_below(*b, c)) by {
                    assert forall|s: Seq<char>| #[trigger] has_name(*b, s) implies trailing_number(s) <= c by {
                        assert(has_name(e, s));
                    }
                }
                assert(renamable_plain(*b, v)) by {
                    assert forall|s: Seq<char>| #[trigger] has_binder(*b, s) && occurs_free(s, v) implies
                        trailing_number(s) == 0 by {
                        assert(has_binder(e, s));
                    }
                }
                lemma_subst_within_free(size(*b), c, x, *b, v);
                let (nb, c1) = subst_within(size(*b), c, x, *b, v);
                let r = NamedView::Lambda(p, Box::new(nb));
                assert(subst_within(n, c, x, e, v) == (r, c1));
                assert(has_name(e, p));
                assert(names_below(r, c1)) by {
                    assert forall|s: Seq<char>| #[trigger] has_name(r, s) implies trailing_number(s) <= c1 by {
                        if s != p {
                            assert(has_name(nb, s));
                        }
                    }
                }
                assert forall|q: Seq<char>| #[trigger] has_binder(r, q) implies has_binder(e, q) || has_binder(v, q)
                    || trailing_number(q) > c by {
                    if q != p {
                        assert(has_binder(nb, q));
                    }
                }
                assert forall|y: Seq<char>| #[trigger] occurs_free(y, r) <==> (occurs_free(y, e) && y != x) || (
                    occurs_free(x, e) && occurs_free(y, v)) by {
                    assert(occurs_free(y, nb) <==> (occurs_free(y, *b) && y != x) || (occurs_free(x, *b)
                        && occurs_free(y, v)));
                }
                lemma_free_count_zero(p, v);
                assert forall|y: Seq<char>| #[trigger] free_count(y, r) == (if y == x {
                    0
                } else {
                    free_count(y, e)
                }) + free_count(x, e) * free_count(y, v) by {
                    assert(free_count(y, nb) == (if y == x {
                        0
                    } else {
                        free_count(y, *b)
                    }) + free_count(x, *b) * free_count(y, v));
                    if y == p {
                        let k = free_count(x, *b);
                        assert(k * free_count(p, v) == 0) by (nonlinear_arith)
                            requires
                                free_count(p, v) == 0,
                        ;
                    }
                }
                assert(subst_keeps(n, c, x, e, v));
            }
        },
        NamedView::App(l, r) => {
            assert(names_below(*l, c) && names_below(*r, c)) by {
                assert forall|s: Seq<char>| #[trigger] has_name(*l, s) implies trailing_number(s) <= c by {
                    assert(has_name(e, s));
                }
                assert forall|s: Seq<char>| #[trigger] has_name(*r, s) implies trailing_number(s) <= c by {
                    assert(has_name(e, s));
                }
            }
            assert(renamable_plain(*l, v) && renamable_plain(*r, v)) by {
                assert forall|s: Seq<char>| #[trigger] has_binder(*l, s) && occurs_free(s, v) implies
                    trailing_number(s) == 0 by {
                    assert(has_binder(e, s));
                }
                assert forall|s: Seq<char>| #[trigger] has_binder(*r, s) && occurs_free(s, v) implies
                    trailing_number(s) == 0 by {
                    assert(has_binder(e, s));
                }
            }
            lemma_subst_within_free(size(*l), c, x, *l, v);
            let (nl, c1) = subst_within(size(*l), c, x, *l, v);
            lemma_subst_within_free(size(*r), c1, x, *r, v);
            let (nr, c2) = subst_within(size(*r), c1, x, *r, v);
            let res = NamedView::App(Box::new(nl), Box::new(nr));
            assert(subst_within(n, c, x, e, v) == (res, c2));
            assert(names_below(res, c2)) by {
                assert forall|s: Seq<char>| #[trigger] has_name(res, s) implies trailing_number(s) <= c2 by {
                    if has_name(nl, s) {
                        assert(trailing_number(s) <= c1);
                    } else {
                        assert(has_name(nr, s));
                    }
                }
            }
            assert forall|q: Seq<char>| #[trigger] has_binder(res, q) implies has_binder(e, q) || has_binder(v, q)
                || trailing_number(q) > c by {
                if has_binder(nl, q) {
                } else {
                    assert(has_binder(nr, q));
                }
            }
            assert forall|y: Seq<char>| #[trigger] occurs_free(y, res) <==> (occurs_free(y, e) && y != x) || (
                occurs_free(x, e) && occurs_free(y, v)) by {
                assert(occurs_free(y, nl) <==> (occurs_free(y, *l) && y != x) || (occurs_free(x, *l)
                    && occurs_free(y, v)));
                assert(occurs_free(y, nr) <==> (occurs_free(y, *r) && y != x) || (occurs_free(x, *r)
                    && occurs_free(y, v)));
            }
            assert forall|y: Seq<char>| #[trigger] free_count(y, res) == (if y == x {
                0
            } else {
                free_count(y, e)
            }) + free_count(x, e) * free_count(y, v) by {
                assert(free_count(y, nl) == (if y == x {
                    0
                } else {
                    free_count(y, *l)
                }) + free_count(x, *l) * free_count(y, v));
                assert(free_count(y, nr) == (if y == x {
                    0
                } else {
                    free_count(y, *r)
                }) + free_count(x, *r) * free_count(y, v));
                let a = free_count(x, *l);
                let b2 = free_count(x, *r);
                let k = free_count(y, v);
                assert((a + b2) * k == a * k + b2 * k) by (nonlinear_arith);
            }
            assert(subst_keeps(n, c, x, e, v));
        },
    }
}

/// Substitution avoids capture: a variable occurs free in the result exactly when it occurs
/// free in `e` and is not `x`, or `x` occurs free in `e` and it occurs free in `v`.
/// This holds when no fresh name that the substitution may make is already a name in `e`
/// or `v` (no name there ends in a number above the counter `c`), and every parameter of
/// `e` that may be renamed ends in no number.
pub proof fn lemma_subst_free_vars(c: nat, x: Seq<char>, e: NamedView, v: NamedView)
    requires
        names_below(e, c),
        names_below(v, c),
        renamable_plain(e, v),
    ensures
        forall|y: Seq<char>|
            #[trigger] occurs_free(y, subst_spec(c, x, e, v).0) <==> (occurs_free(y, e) && y != x) || (
            occurs_free(x, e) && occurs_free(y, v)),
{
    lemma_subst_within_free(size(e), c, x, e, v);
}

/// Substituting one variable for another only renames: the term keeps its size.
pub proof fn lemma_subst_var_keeps_size(c: nat, x: Seq<char>, e: NamedView, f: Seq<char>)
    ensures
        size(subst_spec(c, x, e, NamedView::Var(f)).0) == size(e),
{
    lemma_subst_var_size(size(e), c, x, e, f);
}

proof fn lemma_subst_within_same_var(n: nat, c: nat, x: Seq<char>, e: NamedView)
    ensures
        subst_within(n, c, x, e, NamedView::Var(x)) == (e, c),
    decreases e,
{
    match e {
        NamedView::Var(_) => {},
        NamedView::Lambda(p, b) => {
            lemma_subst_within_same_var(size(*b), c, x, *b);
        },
        NamedView::App(l, r) => {
            lemma_subst_within_same_var(size(*l), c, x, *l);
            lemma_subst_within_same_var(size(*r), c, x, *r);
        },
    }
}

/// Substituting a variable for itself changes nothing and hands out no fresh name.
pub proof fn lemma_subst_same_var(c: nat, x: Seq<char>, e: NamedView)
    ensures
        subst_spec(c, x, e, NamedView::Var(x)) == (e, c),
{
    lemma_subst_within_same_var(size(e), c, x, e);
}

proof fn lemma_subst_within_unused(n: nat, c: nat, x: Seq<char>, e: NamedView, v: NamedView)
    requires
        !occurs_free(x, e),
        forall|p: Seq<char>| #[trigger] has_binder(e, p) ==> !occurs_free(p, v),
    ensures
        subst_within(n, c, x, e, v) == (e, c),
    decreases e,
{
    match e {
        NamedView::Var(_) => {},
        NamedView::Lambda(p, b) => {
            assert(has_binder(e, p));
            if p != x {
                assert forall|q: Seq<char>| #[trigger] has_binder(*b, q) implies !occurs_free(q, v) by {
                    assert(has_binder(e, q));
                }
                lemma_subst_within_unused(size(*b), c, x, *b, v);
            }
        },
        NamedView::App(l, r) => {
            assert forall|q: Seq<char>| #[trigger] has_binder(*l, q) implies !occurs_free(q, v) by {
                assert(has_binder(e, q));
            }
            assert forall|q: Seq<char>| #[trigger] has_binder(*r, q) implies !occurs_free(q, v) by {
                assert(has_binder(e, q));
            }
            lemma_subst_within_unused(size(*l), c, x, *l, v);
            lemma_subst_within_unused(size(*r), c, x, *r, v);
        },
    }
}

/// Substituting for a variable that does not occur free changes nothing and hands out no
/// fresh name, as long as no parameter of `e` occurs free in `v` (else that parameter is
/// still renamed).
pub proof fn lemma_subst_unused(c: nat, x: Seq<char>, e: NamedView, v: NamedView)
    requires
        !occurs_free(x, e),
        forall|p: Seq<char>| #[trigger] has_binder(e, p) ==> !occurs_free(p, v),
    ensures
        subst_spec(c, x, e, v) == (e, c),
{
    lemma_subst_within_unused(size(e), c, x, e, v);
}

/// Substitution counts right: every variable `y` occurs free in the result as often as it
/// occurs free in `e` (never, for `x` itself), plus as often as in `v` once for each free
/// occurrence of `x` in `e`. Renaming a binder changes no count. This holds under the
/// naming conditions of `lemma_subst_free_vars`.
pub proof fn lemma_subst_counts(c: nat, x: Seq<char>, e: NamedView, v: NamedView)
    requires
        names_below(e, c),
        names_below(v, c),
        renamable_plain(e, v),
    ensures
        forall|y: Seq<char>|
            #[trigger] free_count(y, subst_spec(c, x, e, v).0) == (if y == x {
                0
            } else {
                free_count(y, e)
            }) + free_count(x, e) * free_count(y, v),
{
    lemma_subst_within_free(size(e), c, x, e, v);
}

/// Textbook substitution, for terms where nothing can be captured: each free occurrence
/// of `x` replaced by `v`.
pub open spec fn replace_free(x: Seq<char>, e: NamedView, v: NamedView) -> NamedView
    decreases e,
{
    match e {
        NamedView::Var(n) => if n == x {
            v
        } else {
            e
        },
        NamedView::Lambda(p, b) => if p == x {
            e
        } else {
            NamedView::Lambda(p, Box::new(replace_free(x, *b, v)))
        },
        NamedView::App(l, r) => NamedView::App(Box::new(replace_free(x, *l, v)), Box::new(replace_free(x, *r, v))),
    }
}

proof fn lemma_subst_within_no_capture(n: nat, c: nat, x: Seq<char>, e: NamedView, v: NamedView)
    requires
        size(e) <= n,
        forall|p: Seq<char>| #[trigger] has_binder(e, p) ==> !occurs_free(p, v),
    ensures
        subst_within(n, c, x, e, v) == (replace_free(x, e, v), c),
    decreases e,
{
    match e {
        NamedView::Var(_) => {},
        NamedView::Lambda(p, b) => {
            assert(has_binder(e, p));
            if p != x {
                assert forall|q: Seq<char>| #[trigger] has_binder(*b, q) implies !occurs_free(q, v) by {
                    assert(has_binder(e, q));
                }
                lemma_subst_within_no_capture(size(*b), c, x, *b, v);
            }
        },
        NamedView::App(l, r) => {
            assert forall|q: Seq<char>| #[trigger] has_binder(*l, q) implies !occurs_free(q, v) by {
                assert(has_binder(e, q));
            }
            assert forall|q: Seq<char>| #[trigger] has_binder(*r, q) implies !occurs_free(q, v) by {
                assert(has_binder(e, q));
            }
            lemma_subst_within_no_capture(size(*l), c, x, *l, v);
            lemma_subst_within_no_capture(size(*r), c, x, *r, v);
        },
    }
}

/// Where no parameter of `e` occurs free in `v`, substitution is the textbook one: every
/// free occurrence of `x` in `e` is replaced by `v`, nothing else changes, and no fresh
/// name is handed out.
pub proof fn lemma_subst_no_capture(c: nat, x: Seq<char>, e: NamedView, v: NamedView)
    requires
        forall|p: Seq<char>| #[trigger] has_binder(e, p) ==> !occurs_free(p, v),
    ensures
        subst_spec(c, x, e, v) == (replace_free(x, e, v), c),
{
    lemma_subst_within_no_capture(size(e), c, x, e, v);
}

} // verus!
