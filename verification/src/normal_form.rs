use crate::expr::{
    env_extend, env_lookup, force_spec, forces_to, reduce_spec, reduces_to, suspend, EnvView, ExprView,
    ThunkView,
};
use vstd::prelude::*;

verus! {

/// A variable applied to zero or more arguments.
pub open spec fn is_neutral(e: ExprView) -> bool
    decreases e,
{
    match e {
        ExprView::BoundVar(_) | ExprView::FreeVar(_) => true,
        ExprView::App(h, _) => is_neutral(*h),
        _ => false,
    }
}

/// A lambda or a neutral expression.
pub open spec fn is_value(e: ExprView) -> bool {
    e is Lambda || is_neutral(e)
}

/// Weak head normal form, where a lambda may stand suspended with its environment.
pub open spec fn is_whnf(e: ExprView) -> bool {
    is_value(e) || (e matches ExprView::Thunk(t) && t.expr is Lambda)
}

/// The head of an application once its left side is reduced to `lr`: a suspension is
/// forced and its environment laid over `env`.
pub open spec fn head_step(f: nat, lr: ExprView, env: EnvView) -> Option<(ExprView, EnvView)> {
    match lr {
        ExprView::Thunk(t) => match force_spec(f, *t) {
            None => None,
            Some((fe, fenv)) => Some((fe, env_extend(env, fenv))),
        },
        _ => Some((lr, env)),
    }
}

/// An application whose head is `head` in `env2` and whose argument is `r`: a lambda
/// binds the argument (suspended unless `env2` is empty) and its body is reduced;
/// any other head stays applied to the suspended argument.
pub open spec fn apply_spec(f: nat, head: ExprView, env2: EnvView, r: ExprView) -> Option<ExprView> {
    match head {
        ExprView::Lambda(bv, body) => match bv {
            None => reduce_spec(f, *body, env2),
            Some(id) => {
                let arg = if env2 is Empty {
                    r
                } else {
                    suspend(r, env2)
                };
                reduce_spec(f, *body, EnvView::Bind(id, Box::new(arg), Box::new(env2)))
            },
        },
        _ => Some(ExprView::App(Box::new(head), Box::new(suspend(r, env2)))),
    }
}

proof fn lemma_force_value(fuel: nat, t: ThunkView)
    ensures
        force_spec(fuel, t) matches Some((fe, fenv)) ==> is_value(fe),
    decreases fuel, 0nat,
{
    if fuel > 0 {
        lemma_reduce_whnf((fuel - 1) as nat, t.expr, t.env);
    }
}

/// Reduction ends in a weak head normal form.
pub proof fn lemma_reduce_whnf(fuel: nat, e: ExprView, env: EnvView)
    ensures
        reduce_spec(fuel, e, env) matches Some(r) ==> is_whnf(r),
    decreases fuel, 1nat,
{
    if fuel > 0 {
        let f = (fuel - 1) as nat;
        match e {
            ExprView::BoundVar(id) => {
                if let Some(v) = env_lookup(env, id) {
                    lemma_reduce_whnf(f, v, env);
                }
            },
            ExprView::App(l, r) => {
                lemma_reduce_whnf(f, *l, env);
                if let Some(lr) = reduce_spec(f, *l, env) {
                    if let ExprView::Thunk(t) = lr {
                        lemma_force_value(f, *t);
                    }
                    if let Some((head, env2)) = head_step(f, lr, env) {
                        assert(is_value(head));
                        if let ExprView::Lambda(bv, body) = head {
                            if let Some(id) = bv {
                                let arg = if env2 is Empty {
                                    *r
                                } else {
                                    suspend(*r, env2)
                                };
                                lemma_reduce_whnf(f, *body, EnvView::Bind(id, Box::new(arg), Box::new(env2)));
                            } else {
                                lemma_reduce_whnf(f, *body, env2);
                            }
                        } else {
                            assert(is_neutral(ExprView::App(Box::new(head), Box::new(suspend(*r, env2)))));
                        }
                    }
                }
            },
            ExprView::Thunk(t) => {
                if let Some((fe, fenv)) = force_spec(f, *t) {
                    lemma_reduce_whnf(f, fe, env_extend(env, fenv));
                }
            },
            _ => {},
        }
    }
}

proof fn lemma_force_more_fuel(f1: nat, f2: nat, t: ThunkView)
    requires
        f1 <= f2,
        force_spec(f1, t) is Some,
    ensures
        force_spec(f2, t) == force_spec(f1, t),
    decreases f1, 0nat,
{
    lemma_reduce_more_fuel((f1 - 1) as nat, (f2 - 1) as nat, t.expr, t.env);
}

/// Fuel only bounds the work: a reduction that finishes with some fuel gives the same
/// result with any more fuel.
pub proof fn lemma_reduce_more_fuel(f1: nat, f2: nat, e: ExprView, env: EnvView)
    requires
        f1 <= f2,
        reduce_spec(f1, e, env) is Some,
    ensures
        reduce_spec(f2, e, env) == reduce_spec(f1, e, env),
    decreases f1, 1nat,
{
    let g1 = (f1 - 1) as nat;
    let g2 = (f2 - 1) as nat;
    match e {
        ExprView::BoundVar(id) => {
            if let Some(v) = env_lookup(env, id) {
                lemma_reduce_more_fuel(g1, g2, v, env);
            }
        },
        ExprView::App(l, r) => {
            lemma_reduce_more_fuel(g1, g2, *l, env);
            let lr = reduce_spec(g1, *l, env)->Some_0;
            if let ExprView::Thunk(t) = lr {
                lemma_force_more_fuel(g1, g2, *t);
            }
            if let Some((head, env2)) = head_step(g1, lr, env) {
                if let ExprView::Lambda(bv, body) = head {
                    match bv {
                        None => lemma_reduce_more_fuel(g1, g2, *body, env2),
                        Some(id) => {
                            let arg = if env2 is Empty {
                                *r
                            } else {
                                suspend(*r, env2)
                            };
                            lemma_reduce_more_fuel(g1, g2, *body, EnvView::Bind(id, Box::new(arg), Box::new(env2)));
                        },
                    }
                }
            }
        },
        ExprView::Thunk(t) => {
            lemma_force_more_fuel(g1, g2, *t);
            if let Some((fe, fenv)) = force_spec(g1, *t) {
                lemma_reduce_more_fuel(g1, g2, fe, env_extend(env, fenv));
            }
        },
        _ => {},
    }
}

/// A reduction has at most one result, whatever fuel it is given.
pub proof fn lemma_reduce_unique(k1: nat, k2: nat, e: ExprView, env: EnvView)
    requires
        reduce_spec(k1, e, env) is Some,
        reduce_spec(k2, e, env) is Some,
    ensures
        reduce_spec(k1, e, env) == reduce_spec(k2, e, env),
{
    if k1 <= k2 {
        lemma_reduce_more_fuel(k1, k2, e, env);
    } else {
        lemma_reduce_more_fuel(k2, k1, e, env);
    }
}

/// Forcing has at most one result, whatever fuel it is given.
pub proof fn lemma_force_unique(k1: nat, k2: nat, t: ThunkView)
    requires
        force_spec(k1, t) is Some,
        force_spec(k2, t) is Some,
    ensures
        force_spec(k1, t) == force_spec(k2, t),
{
    if k1 <= k2 {
        lemma_force_more_fuel(k1, k2, t);
    } else {
        lemma_force_more_fuel(k2, k1, t);
    }
}

proof fn lemma_head_step_more(f1: nat, f2: nat, lr: ExprView, env: EnvView)
    requires
        f1 <= f2,
        head_step(f1, lr, env) is Some,
    ensures
        head_step(f2, lr, env) == head_step(f1, lr, env),
{
    if let ExprView::Thunk(t) = lr {
        lemma_force_more_fuel(f1, f2, *t);
    }
}

proof fn lemma_apply_more(f1: nat, f2: nat, head: ExprView, env2: EnvView, r: ExprView)
    requires
        f1 <= f2,
        apply_spec(f1, head, env2, r) is Some,
    ensures
        apply_spec(f2, head, env2, r) == apply_spec(f1, head, env2, r),
{
    if let ExprView::Lambda(bv, body) = head {
        match bv {
            None => lemma_reduce_more_fuel(f1, f2, *body, env2),
            Some(id) => {
                let arg = if env2 is Empty {
                    r
                } else {
                    suspend(r, env2)
                };
                lemma_reduce_more_fuel(f1, f2, *body, EnvView::Bind(id, Box::new(arg), Box::new(env2)));
            },
        }
    }
}

/// An application reduces to `x` when its left side, its head and its body do.
pub(crate) proof fn lemma_app_some(
    k1: nat,
    k2: nat,
    k3: nat,
    l: ExprView,
    r: ExprView,
    env: EnvView,
    lr: ExprView,
    head: ExprView,
    env2: EnvView,
    x: ExprView,
)
    requires
        reduce_spec(k1, l, env) == Some(lr),
        head_step(k2, lr, env) == Some((head, env2)),
        apply_spec(k3, head, env2, r) == Some(x),
    ensures
        reduces_to(ExprView::App(Box::new(l), Box::new(r)), env, x),
{
    let m = if k1 >= k2 && k1 >= k3 {
        k1
    } else if k2 >= k3 {
        k2
    } else {
        k3
    };
    lemma_reduce_more_fuel(k1, m, l, env);
    lemma_head_step_more(k2, m, lr, env);
    lemma_apply_more(k3, m, head, env2, r);
    assert(reduce_spec(m + 1, ExprView::App(Box::new(l), Box::new(r)), env) == Some(x));
}

/// An application does not reduce with fuel `f + 1` when the step that its left side
/// `lr` leads to fails with fuel `f`.
pub(crate) proof fn lemma_app_none_head(f: nat, k1: nat, l: ExprView, r: ExprView, env: EnvView, lr: ExprView)
    requires
        reduce_spec(k1, l, env) == Some(lr),
        head_step(f, lr, env) is None,
    ensures
        reduce_spec(f + 1, ExprView::App(Box::new(l), Box::new(r)), env) is None,
{
    if reduce_spec(f, l, env) is Some {
        lemma_reduce_unique(f, k1, l, env);
    }
}

/// An application does not reduce with fuel `f + 1` when its head is reached and the
/// rest fails with fuel `f`.
pub(crate) proof fn lemma_app_none_body(
    f: nat,
    k1: nat,
    k2: nat,
    l: ExprView,
    r: ExprView,
    env: EnvView,
    lr: ExprView,
    head: ExprView,
    env2: EnvView,
)
    requires
        reduce_spec(k1, l, env) == Some(lr),
        head_step(k2, lr, env) == Some((head, env2)),
        apply_spec(f, head, env2, r) is None,
    ensures
        reduce_spec(f + 1, ExprView::App(Box::new(l), Box::new(r)), env) is None,
{
    if reduce_spec(f, l, env) is Some {
        lemma_reduce_unique(f, k1, l, env);
        if head_step(f, lr, env) is Some {
            if f <= k2 {
                lemma_head_step_more(f, k2, lr, env);
            } else {
                lemma_head_step_more(k2, f, lr, env);
            }
        }
    }
}

/// A suspension in `env` reduces to `x` when forcing it does and its result does.
pub(crate) proof fn lemma_thunk_some(k1: nat, k2: nat, t: ThunkView, env: EnvView, fe: ExprView, fenv: EnvView, x: ExprView)
    requires
        force_spec(k1, t) == Some((fe, fenv)),
        reduce_spec(k2, fe, env_extend(env, fenv)) == Some(x),
    ensures
        reduces_to(ExprView::Thunk(Box::new(t)), env, x),
{
    let m = if k1 >= k2 {
        k1
    } else {
        k2
    };
    lemma_force_more_fuel(k1, m, t);
    lemma_reduce_more_fuel(k2, m, fe, env_extend(env, fenv));
    assert(reduce_spec(m + 1, ExprView::Thunk(Box::new(t)), env) == Some(x));
}

/// A suspension in `env` does not reduce with fuel `f + 1` when its forced result does
/// not reduce with fuel `f`.
pub(crate) proof fn lemma_thunk_none(f: nat, k1: nat, t: ThunkView, env: EnvView, fe: ExprView, fenv: EnvView)
    requires
        force_spec(k1, t) == Some((fe, fenv)),
        reduce_spec(f, fe, env_extend(env, fenv)) is None,
    ensures
        reduce_spec(f + 1, ExprView::Thunk(Box::new(t)), env) is None,
{
    if force_spec(f, t) is Some {
        lemma_force_unique(f, k1, t);
    }
}

/// A bound variable reduces as the value it is bound to does: the value is reduced
/// further, never handed back as it stands.
pub proof fn lemma_bound_var_reduces(id: u64, env: EnvView, v: ExprView, r: ExprView)
    requires
        env_lookup(env, id) == Some(v),
    ensures
        reduces_to(ExprView::BoundVar(id), env, r) <==> reduces_to(v, env, r),
{
    if reduces_to(v, env, r) {
        let k = choose|k: nat| reduce_spec(k, v, env) == Some(r);
        assert(reduce_spec(k + 1, ExprView::BoundVar(id), env) == Some(r));
    }
    if reduces_to(ExprView::BoundVar(id), env, r) {
        let k = choose|k: nat| reduce_spec(k, ExprView::BoundVar(id), env) == Some(r);
        assert(reduce_spec((k - 1) as nat, v, env) == Some(r));
    }
}

/// `h` applied to `args`, left to right: `h a0 a1 ...`.
pub open spec fn apply_all(h: ExprView, args: Seq<ExprView>) -> ExprView
    decreases args.len(),
{
    if args.len() == 0 {
        h
    } else {
        ExprView::App(Box::new(apply_all(h, args.drop_last())), Box::new(args.last()))
    }
}

/// A free variable applied to arguments reduces to that variable applied to the same
/// arguments, in the same order, each left unreduced and suspended in the environment:
/// no argument is lost, added or reduced. Fuel of one step more than the number of
/// arguments is enough.
pub proof fn lemma_free_var_spine(x: Seq<char>, args: Seq<ExprView>, env: EnvView, k: nat)
    ensures
        reduce_spec(k, apply_all(ExprView::FreeVar(x), args), env) matches Some(r) ==> r == apply_all(
            ExprView::FreeVar(x),
            args.map_values(|a: ExprView| suspend(a, env)),
        ),
        reduce_spec(args.len() + 1, apply_all(ExprView::FreeVar(x), args), env) is Some,
    decreases args.len(),
{
    let h = ExprView::FreeVar(x);
    let sus = args.map_values(|a: ExprView| suspend(a, env));
    if args.len() > 0 {
        let init = args.drop_last();
        let a = args.last();
        let l = apply_all(h, init);
        let sus_init = init.map_values(|a: ExprView| suspend(a, env));
        assert(sus.drop_last() =~= sus_init);
        assert(sus.last() == suspend(a, env));
        assert(apply_all(h, args) == ExprView::App(Box::new(l), Box::new(a)));
        if k > 0 {
            lemma_free_var_spine(x, init, env, (k - 1) as nat);
        }
        lemma_free_var_spine(x, init, env, args.len() as nat);
        let r0 = apply_all(h, sus_init);
        assert(!(r0 is Lambda) && !(r0 is Thunk));
        assert(apply_all(h, sus) == ExprView::App(Box::new(r0), Box::new(suspend(a, env))));
    }
}

/// Reduction is lazy: a lambda applied to an argument, in the empty environment, reduces
/// as its body does with its parameter bound to the argument as it stands, unreduced; a
/// lambda whose parameter is never used drops the argument without looking at it.
pub proof fn lemma_beta_lazy(bv: Option<u64>, body: ExprView, arg: ExprView, x: ExprView)
    ensures
        reduces_to(
            ExprView::App(Box::new(ExprView::Lambda(bv, Box::new(body))), Box::new(arg)),
            EnvView::Empty,
            x,
        ) <==> reduces_to(
            body,
            match bv {
                Some(id) => EnvView::Bind(id, Box::new(arg), Box::new(EnvView::Empty)),
                None => EnvView::Empty,
            },
            x,
        ),
{
    let lam = ExprView::Lambda(bv, Box::new(body));
    let e = ExprView::App(Box::new(lam), Box::new(arg));
    let env2 = match bv {
        Some(id) => EnvView::Bind(id, Box::new(arg), Box::new(EnvView::Empty)),
        None => EnvView::Empty,
    };
    assert forall|k: nat| k >= 2 implies #[trigger] reduce_spec(k, e, EnvView::Empty) == reduce_spec(
        (k - 1) as nat,
        body,
        env2,
    ) by {
        let f = (k - 1) as nat;
        assert(reduce_spec(f, lam, EnvView::Empty) == Some(lam));
        assert(head_step(f, lam, EnvView::Empty) == Some((lam, EnvView::Empty)));
    }
    if reduces_to(e, EnvView::Empty, x) {
        let k = choose|k: nat| reduce_spec(k, e, EnvView::Empty) == Some(x);
        if k < 2 {
            assert(reduce_spec(0, lam, EnvView::Empty) is None);
            assert(reduce_spec(k, e, EnvView::Empty) is None);
        }
        assert(reduce_spec((k - 1) as nat, body, env2) == Some(x));
    }
    if reduces_to(body, env2, x) {
        let k = choose|k: nat| reduce_spec(k, body, env2) == Some(x);
        assert(k >= 1);
        assert(reduce_spec(k + 1, e, EnvView::Empty) == Some(x));
    }
}

/// The first-projection combinator `\x \y x` applied to `a` and then `b` reduces to
/// `a`, for any free variables `a` and `b`: the suspension built after the first
/// argument keeps the binding of `x`.
pub proof fn lemma_first_projection(i: u64, a: Seq<char>, b: Seq<char>)
    ensures
        reduces_to(
            ExprView::App(
                Box::new(
                    ExprView::App(
                        Box::new(
                            ExprView::Lambda(
                                Some(i),
                                Box::new(ExprView::Lambda(None, Box::new(ExprView::BoundVar(i)))),
                            ),
                        ),
                        Box::new(ExprView::FreeVar(a)),
                    ),
                ),
                Box::new(ExprView::FreeVar(b)),
            ),
            EnvView::Empty,
            ExprView::FreeVar(a),
        ),
{
    let fa = ExprView::FreeVar(a);
    let fb = ExprView::FreeVar(b);
    let inner = ExprView::Lambda(None, Box::new(ExprView::BoundVar(i)));
    let k = ExprView::Lambda(Some(i), Box::new(inner));
    let l = ExprView::App(Box::new(k), Box::new(fa));
    let e = ExprView::App(Box::new(l), Box::new(fb));
    let env3 = EnvView::Bind(i, Box::new(fa), Box::new(EnvView::Empty));
    let t = ThunkView { expr: inner, env: env3 };
    assert(reduce_spec(3, k, EnvView::Empty) == Some(k));
    assert(head_step(3, k, EnvView::Empty) == Some((k, EnvView::Empty)));
    assert(reduce_spec(3, inner, env3) == Some(suspend(inner, env3)));
    assert(apply_spec(3, k, EnvView::Empty, fa) == Some(suspend(inner, env3)));
    assert(reduce_spec(4, l, EnvView::Empty) == Some(suspend(inner, env3)));
    let big = env_extend(env3, env3);
    assert(force_spec(4, t) == Some((inner, big)));
    assert(env_extend(EnvView::Empty, EnvView::Empty) == EnvView::Empty);
    assert(env_extend(EnvView::Empty, env3) == env3);
    assert(env_extend(env3, EnvView::Empty) == env3);
    assert(big == EnvView::Bind(i, Box::new(fa), Box::new(env3)));
    assert(env_extend(EnvView::Empty, big) == big);
    assert(head_step(4, suspend(inner, env3), EnvView::Empty) == Some((inner, big)));
    assert(env_lookup(big, i) == Some(fa));
    assert(reduce_spec(3, fa, big) == Some(fa));
    assert(reduce_spec(4, ExprView::BoundVar(i), big) == Some(fa));
    assert(apply_spec(4, inner, big, fb) == Some(fa));
    assert(reduce_spec(5, e, EnvView::Empty) == Some(fa));
}

} // verus!
