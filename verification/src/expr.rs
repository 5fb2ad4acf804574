use crate::normal_form::{
    apply_spec, head_step, is_whnf, lemma_app_none_body, lemma_app_none_head, lemma_app_some,
    lemma_reduce_whnf, lemma_thunk_none, lemma_thunk_some,
};
use std::rc::Rc;
use vstd::cell::invcell::InvCell;
use vstd::predicate::Predicate;
use vstd::prelude::*;

verus! {

#[verifier::external_body]
pub(crate) fn rc_clone<T>(rc: &Rc<T>) -> (res: Rc<T>)
    ensures
        res == *rc,
{
    Rc::clone(rc)
}

/// A variable bound by a lambda; `id` tells the binders of one parse apart.
#[derive(Debug)]
pub struct BoundVar {
    pub id: u64,
}

impl BoundVar {
    pub fn new(id: u64) -> (res: Self)
        ensures
            res.id == id,
    {
        Self { id }
    }
}

#[derive(Debug)]
pub struct FreeVar {
    pub name: String,
}

pub struct Lambda {
    pub body: Expr,
    pub bound_var: Option<Rc<BoundVar>>,
}

pub enum Env {
    Empty,
    Bind(u64, Expr, Rc<Env>),
}

/// A suspended computation: an expression with the environment it is to be reduced in.
/// Forcing it stores the result in `memo`, whose invariant says that a stored result is
/// what forcing gives; a later force reads it from there.
pub struct Thunk {
    expr: Expr,
    env: Rc<Env>,
    memo: InvCell<Option<(Expr, Rc<Env>)>, MemoInv>,
}

/// What a suspension's memo may hold: nothing yet, or what forcing the suspension gives.
pub struct MemoInv {
    pub origin: ThunkView,
}

impl Predicate<Option<(Expr, Rc<Env>)>> for MemoInv {
    open spec fn predicate(&self, v: Option<(Expr, Rc<Env>)>) -> bool {
        match v {
            None => true,
            Some((e, env)) => forces_to(self.origin, e.view(), env.view()),
        }
    }
}

pub enum Expr {
    BoundVar(Rc<BoundVar>),
    FreeVar(Rc<FreeVar>),
    Lambda(Rc<Lambda>),
    App(Box<Expr>, Box<Expr>),
    Thunk(Rc<Thunk>),
}

impl Clone for Expr {
    fn clone(&self) -> (res: Self)
        ensures
            res == *self,
        decreases self,
    {
        match self {
            Expr::BoundVar(b) => Expr::BoundVar(rc_clone(b)),
            Expr::FreeVar(f) => Expr::FreeVar(rc_clone(f)),
            Expr::Lambda(l) => Expr::Lambda(rc_clone(l)),
            Expr::App(l, r) => Expr::App(Box::new((**l).clone()), Box::new((**r).clone())),
            Expr::Thunk(t) => Expr::Thunk(rc_clone(t)),
        }
    }
}

pub enum ExprView {
    BoundVar(u64),
    FreeVar(Seq<char>),
    Lambda(Option<u64>, Box<ExprView>),
    App(Box<ExprView>, Box<ExprView>),
    Thunk(Box<ThunkView>),
}

pub struct ThunkView {
    pub expr: ExprView,
    pub env: EnvView,
}

pub enum EnvView {
    Empty,
    Bind(u64, Box<ExprView>, Box<EnvView>),
}

impl Lambda {
    /// A lambda whose parameter no occurrence refers to (yet).
    pub fn new(body: Expr) -> (res: Self)
        ensures
            res.body == body,
            res.bound_var is None,
    {
        Self { body, bound_var: None }
    }

    pub fn associated_bound_var(&self) -> (res: Option<Rc<BoundVar>>)
        ensures
            res == self.bound_var,
    {
        match &self.bound_var {
            Some(b) => Some(rc_clone(b)),
            None => None,
        }
    }

    pub fn set_bound_var(&mut self, bound_var: Rc<BoundVar>)
        ensures
            final(self).bound_var == Some(bound_var),
            final(self).body == old(self).body,
    {
        self.bound_var = Some(bound_var);
    }

    pub open spec fn binder(&self) -> Option<u64> {
        match self.bound_var {
            Some(b) => Some(b.id),
            None => None,
        }
    }
}

impl Expr {
    pub open spec fn view(&self) -> ExprView
        decreases self,
    {
        match self {
            Expr::BoundVar(b) => ExprView::BoundVar(b.id),
            Expr::FreeVar(f) => ExprView::FreeVar(f.name@),
            Expr::Lambda(l) => ExprView::Lambda(l.binder(), Box::new(l.body.view())),
            Expr::App(l, r) => ExprView::App(Box::new(l.view()), Box::new(r.view())),
            Expr::Thunk(t) => ExprView::Thunk(Box::new(t.view())),
        }
    }
}

impl Thunk {
    /// The suspended expression and its environment; forcing never changes them.
    pub closed spec fn view(&self) -> ThunkView
        decreases self,
    {
        ThunkView { expr: self.expr.view(), env: self.env.view() }
    }

    #[verifier::type_invariant]
    spec fn memo_matches(&self) -> bool {
        self.memo.predicate() == (MemoInv { origin: self.view() })
    }
}

impl Env {
    pub open spec fn view(&self) -> EnvView
        decreases self,
    {
        match self {
            Env::Empty => EnvView::Empty,
            Env::Bind(k, v, rest) => EnvView::Bind(*k, Box::new(v.view()), Box::new(rest.view())),
        }
    }
}


pub open spec fn opt_view(o: Option<Expr>) -> Option<ExprView> {
    match o {
        Some(e) => Some(e.view()),
        None => None,
    }
}

/// The value bound to `id` in `env`: the most recent binding wins.
pub open spec fn env_lookup(env: EnvView, id: u64) -> Option<ExprView>
    decreases env,
{
    match env {
        EnvView::Empty => None,
        EnvView::Bind(k, v, rest) => if k == id {
            Some(*v)
        } else {
            env_lookup(*rest, id)
        },
    }
}

/// `base` with the bindings of `top` laid over it.
pub open spec fn env_extend(base: EnvView, top: EnvView) -> EnvView
    decreases top,
{
    match top {
        EnvView::Empty => base,
        EnvView::Bind(k, v, rest) => EnvView::Bind(k, v, Box::new(env_extend(base, *rest))),
    }
}

pub open spec fn suspend(e: ExprView, env: EnvView) -> ExprView {
    ExprView::Thunk(Box::new(ThunkView { expr: e, env }))
}

/// Forcing a suspended computation: its expression reduced in its own environment,
/// with one level of suspension that the reduction returns taken apart.
/// `None` when `fuel` runs out.
pub open spec fn force_spec(fuel: nat, t: ThunkView) -> Option<(ExprView, EnvView)>
    decreases fuel, 0nat,
{
    if fuel == 0 {
        None
    } else {
        match reduce_spec((fuel - 1) as nat, t.expr, t.env) {
            None => None,
            Some(r) => match r {
                ExprView::Thunk(n) => Some((n.expr, env_extend(t.env, n.env))),
                _ => Some((r, t.env)),
            },
        }
    }
}

/// Forcing `t` gives `e` in `env`, with enough fuel.
pub open spec fn forces_to(t: ThunkView, e: ExprView, env: EnvView) -> bool {
    exists|k: nat| force_spec(k, t) == Some((e, env))
}

/// Reducing `e` in `env` gives `r`, with enough fuel.
pub open spec fn reduces_to(e: ExprView, env: EnvView, r: ExprView) -> bool {
    exists|k: nat| reduce_spec(k, e, env) == Some(r)
}

/// Lazy reduction of `e` in the environment `env`; `None` when `fuel` runs out.
///
/// Environments are keyed by binder ids, and forcing a suspension lays its environment
/// over the current one. A lambda that is active twice at once therefore sees its later
/// binding in its earlier use: `(\l l b (l a)) (\x \g g x)` reduces to `a` applied to
/// a suspended `a`, where substitution would give `b a`.
pub open spec fn reduce_spec(fuel: nat, e: ExprView, env: EnvView) -> Option<ExprView>
    decreases fuel, 1nat,
{
    if fuel == 0 {
        None
    } else {
        let f = (fuel - 1) as nat;
        match e {
            ExprView::BoundVar(id) => match env_lookup(env, id) {
                Some(v) => reduce_spec(f, v, env),
                None => Some(e),
            },
            ExprView::FreeVar(_) => Some(e),
            ExprView::Lambda(_, _) => if env is Empty {
                Some(e)
            } else {
                Some(suspend(e, env))
            },
            ExprView::App(l, r) => match reduce_spec(f, *l, env) {
                None => None,
                Some(lr) => {
                    let step = match lr {
                        ExprView::Thunk(t) => match force_spec(f, *t) {
                            None => None,
                            Some((fe, fenv)) => Some((fe, env_extend(env, fenv))),
                        },
                        _ => Some((lr, env)),
                    };
                    match step {
                        None => None,
                        Some((head, env2)) => match head {
                            ExprView::Lambda(bv, body) => match bv {
                                None => reduce_spec(f, *body, env2),
                                Some(id) => {
                                    let arg = if env2 is Empty {
                                        *r
                                    } else {
                                        suspend(*r, env2)
                                    };
                                    reduce_spec(f, *body, EnvView::Bind(id, Box::new(arg), Box::new(env2)))
                                },
                            },
                            _ => Some(ExprView::App(Box::new(head), Box::new(suspend(*r, env2)))),
                        },
                    }
                },
            },
            ExprView::Thunk(t) => match force_spec(f, *t) {
                None => None,
                Some((fe, fenv)) => reduce_spec(f, fe, env_extend(env, fenv)),
            },
        }
    }
}

fn env_lookup_exec(env: &Env, id: u64) -> (res: Option<Expr>)
    ensures
        opt_view(res) == env_lookup(env.view(), id),
    decreases env,
{
    match env {
        Env::Empty => None,
        Env::Bind(k, v, rest) => if *k == id {
            Some(v.clone())
        } else {
            env_lookup_exec(rest, id)
        },
    }
}

fn env_extend_exec(base: &Rc<Env>, top: &Env) -> (res: Rc<Env>)
    ensures
        res.view() == env_extend(base.view(), top.view()),
    decreases top,
{
    match top {
        Env::Empty => rc_clone(base),
        Env::Bind(k, v, rest) => Rc::new(Env::Bind(*k, v.clone(), env_extend_exec(base, rest))),
    }
}


impl Thunk {
    fn new(expr: Expr, env: Rc<Env>) -> (res: Thunk)
        ensures
            res.view() == (ThunkView { expr: expr.view(), env: env.view() }),
    {
        let ghost origin = ThunkView { expr: expr.view(), env: env.view() };
        let memo = InvCell::new(None, Ghost(MemoInv { origin }));
        Thunk { expr, env, memo }
    }

    /// What forcing gives: taken from the memo when it has been done, else computed with
    /// `fuel` and stored in the memo.
    fn force_with_fuel(&self, fuel: u64) -> (res: Option<(Expr, Rc<Env>)>)
        ensures
            match res {
                Some((e, env)) => forces_to(self.view(), e.view(), env.view()),
                None => force_spec(fuel as nat, self.view()) is None,
            },
        decreases fuel, 0nat,
    {
        proof {
            use_type_invariant(self);
        }
        if let Some((e, env)) = self.memo.replace(None) {
            self.memo.set(Some((e.clone(), rc_clone(&env))));
            return Some((e, env));
        }
        if fuel == 0 {
            return None;
        }
        let r = match reduce(self.expr.clone(), &self.env, fuel - 1) {
            None => return None,
            Some(r) => r,
        };
        let ghost rv = r.view();
        let ghost t = self.view();
        assert(reduces_to(t.expr, t.env, rv));
        let ghost k = choose|k: nat| reduce_spec(k, t.expr, t.env) == Some(rv);
        let forced = match r {
            Expr::Thunk(n) => {
                assert(rv == ExprView::Thunk(Box::new(n.view())));
                let e = n.expr.clone();
                let env = env_extend_exec(&self.env, &n.env);
                assert(e.view() == n.view().expr && env.view() == env_extend(t.env, n.view().env));
                (e, env)
            },
            _ => (r, rc_clone(&self.env)),
        };
        assert(force_spec(k + 1, self.view()) == Some((forced.0.view(), forced.1.view())));
        self.memo.set(Some((forced.0.clone(), rc_clone(&forced.1))));
        Some(forced)
    }

    /// Forces this suspended computation and stores what it gives in its memo. Returns
    /// whether forcing finished; it fails only when it takes more than `u64::MAX`
    /// reduction steps.
    pub fn force(&self) -> (res: bool)
        ensures
            res ==> exists|e: ExprView, env: EnvView| forces_to(self.view(), e, env),
            !res ==> force_spec(u64::MAX as nat, self.view()) is None,
    {
        match self.force_with_fuel(u64::MAX) {
            Some((e, env)) => {
                assert(forces_to(self.view(), e.view(), env.view()));
                true
            },
            None => false,
        }
    }
}

/// The head of an application whose left side reduced to `lr` (see `head_step`).
fn head_step_exec(lr: Expr, env: &Rc<Env>, f: u64) -> (res: Option<(Expr, Rc<Env>)>)
    ensures
        match res {
            Some((h, e2)) => exists|k: nat| head_step(k, lr.view(), env.view()) == Some((h.view(), e2.view())),
            None => head_step(f as nat, lr.view(), env.view()) is None,
        },
    decreases f, 1nat,
{
    let ghost lrv = lr.view();
    match lr {
        Expr::Thunk(t) => match t.force_with_fuel(f) {
            None => None,
            Some((fe, fenv)) => {
                let env2 = env_extend_exec(env, &fenv);
                let ghost k = choose|k: nat| force_spec(k, t.view()) == Some((fe.view(), fenv.view()));
                assert(head_step(k, lrv, env.view()) == Some((fe.view(), env2.view())));
                Some((fe, env2))
            },
        },
        _ => {
            assert(head_step(0, lrv, env.view()) == Some((lrv, env.view())));
            Some((lr, rc_clone(env)))
        },
    }
}

/// An application whose head is `head` in `env2` and whose argument is `r` (see
/// `apply_spec`).
fn apply_exec(head: Expr, env2: Rc<Env>, r: Expr, f: u64) -> (res: Option<Expr>)
    ensures
        match res {
            Some(x) => exists|k: nat| apply_spec(k, head.view(), env2.view(), r.view()) == Some(x.view()),
            None => apply_spec(f as nat, head.view(), env2.view(), r.view()) is None,
        },
    decreases f, 2nat,
{
    let ghost hv = head.view();
    let ghost e2v = env2.view();
    let ghost rv = r.view();
    match head {
        Expr::Lambda(lam) => match &lam.bound_var {
            None => {
                let res = reduce(lam.body.clone(), &env2, f);
                proof {
                    if res is Some {
                        let x = res->Some_0;
                        let k = choose|k: nat| reduce_spec(k, lam.body.view(), e2v) == Some(x.view());
                        assert(apply_spec(k, hv, e2v, rv) == Some(x.view()));
                    }
                }
                res
            },
            Some(bv) => {
                let arg = if let Env::Empty = &*env2 {
                    r
                } else {
                    Expr::Thunk(Rc::new(Thunk::new(r, rc_clone(&env2))))
                };
                assert(arg.view() == (if e2v is Empty { rv } else { suspend(rv, e2v) }));
                let env3 = Rc::new(Env::Bind(bv.id, arg, env2));
                let res = reduce(lam.body.clone(), &env3, f);
                proof {
                    if res is Some {
                        let x = res->Some_0;
                        let k = choose|k: nat| reduce_spec(k, lam.body.view(), env3.view()) == Some(x.view());
                        assert(apply_spec(k, hv, e2v, rv) == Some(x.view()));
                    }
                }
                res
            },
        },
        _ => {
            let th = Thunk::new(r, env2);
            assert(th.view() == ThunkView { expr: rv, env: e2v });
            let e_th = Expr::Thunk(Rc::new(th));
            assert(e_th.view() == suspend(rv, e2v));
            let res = Expr::App(Box::new(head), Box::new(e_th));
            assert(res.view() == ExprView::App(Box::new(hv), Box::new(suspend(rv, e2v))));
            assert(apply_spec(0, hv, e2v, rv) == Some(res.view()));
            Some(res)
        },
    }
}

/// Lazy reduction with at most `fuel` nested steps; suspensions forced on the way keep
/// their results.
fn reduce(expr: Expr, env: &Rc<Env>, fuel: u64) -> (res: Option<Expr>)
    ensures
        match res {
            Some(r) => reduces_to(expr.view(), env.view(), r.view()),
            None => reduce_spec(fuel as nat, expr.view(), env.view()) is None,
        },
    decreases fuel, 1nat,
{
    if fuel == 0 {
        return None;
    }
    let f = fuel - 1;
    let ghost ev = expr.view();
    let ghost envv = env.view();
    match expr {
        Expr::BoundVar(bv) => match env_lookup_exec(env, bv.id) {
            Some(v) => {
                let ghost vv = v.view();
                let res = reduce(v, env, f);
                proof {
                    if res is Some {
                        let x = res->Some_0;
                        let k = choose|k: nat| reduce_spec(k, vv, envv) == Some(x.view());
                        assert(reduce_spec(k + 1, ev, envv) == Some(x.view()));
                    }
                }
                res
            },
            None => {
                assert(reduce_spec(1, ev, envv) == Some(ev));
                Some(Expr::BoundVar(bv))
            },
        },
        Expr::FreeVar(fv) => {
            assert(reduce_spec(1, ev, envv) == Some(ev));
            Some(Expr::FreeVar(fv))
        },
        Expr::Lambda(l) => {
            if let Env::Empty = &**env {
                assert(reduce_spec(1, ev, envv) == Some(ev));
                Some(Expr::Lambda(l))
            } else {
                let res = Expr::Thunk(Rc::new(Thunk::new(Expr::Lambda(l), rc_clone(env))));
                assert(reduce_spec(1, ev, envv) == Some(res.view()));
                Some(res)
            }
        },
        Expr::App(l, r) => {
            let ghost lv = l.view();
            let ghost rv = r.view();
            assert(ev == ExprView::App(Box::new(lv), Box::new(rv)));
            let lr = match reduce(*l, env, f) {
                None => return None,
                Some(lr) => lr,
            };
            let ghost lrv = lr.view();
            let ghost k1 = choose|k: nat| reduce_spec(k, lv, envv) == Some(lrv);
            match head_step_exec(lr, env, f) {
                None => {
                    proof {
                        lemma_app_none_head(f as nat, k1, lv, rv, envv, lrv);
                    }
                    None
                },
                Some((head, env2)) => {
                    let ghost hv = head.view();
                    let ghost e2v = env2.view();
                    let ghost k2 = choose|k: nat| head_step(k, lrv, envv) == Some((hv, e2v));
                    let res = apply_exec(head, env2, *r, f);
                    proof {
                        if res is Some {
                            let x = res->Some_0;
                            let k3 = choose|k: nat| apply_spec(k, hv, e2v, rv) == Some(x.view());
                            lemma_app_some(k1, k2, k3, lv, rv, envv, lrv, hv, e2v, x.view());
                        } else {
                            lemma_app_none_body(f as nat, k1, k2, lv, rv, envv, lrv, hv, e2v);
                        }
                    }
                    res
                },
            }
        },
        Expr::Thunk(t) => {
            let ghost tv = t.view();
            match t.force_with_fuel(f) {
                None => None,
                Some((fe, fenv)) => {
                    let ghost k1 = choose|k: nat| force_spec(k, tv) == Some((fe.view(), fenv.view()));
                    let env2 = env_extend_exec(env, &fenv);
                    let ghost fev = fe.view();
                    let res = reduce(fe, &env2, f);
                    proof {
                        if res is Some {
                            let x = res->Some_0;
                            let k2 = choose|k: nat| reduce_spec(k, fev, env2.view()) == Some(x.view());
                            lemma_thunk_some(k1, k2, tv, envv, fev, fenv.view(), x.view());
                        } else {
                            lemma_thunk_none(f as nat, k1, tv, envv, fev, fenv.view());
                        }
                    }
                    res
                },
            }
        },
    }
}

/// Reduction of whole expressions.
pub struct Reducer;

impl Reducer {
    /// Reduces `expr` lazily in the empty environment, to weak head normal form.
    /// `None` only when the reduction takes more than `u64::MAX` nested steps; a result is
    /// the only one the reduction has (see `lemma_reduce_unique`).
    pub fn whnf(expr: Expr) -> (res: Option<Expr>)
        ensures
            match res {
                Some(r) => reduces_to(expr.view(), EnvView::Empty, r.view()) && is_whnf(r.view()),
                None => reduce_spec(u64::MAX as nat, expr.view(), EnvView::Empty) is None,
            },
    {
        let env = Rc::new(Env::Empty);
        let res = reduce(expr, &env, u64::MAX);
        proof {
            if res is Some {
                let r = res->Some_0;
                let k = choose|k: nat| reduce_spec(k, expr.view(), EnvView::Empty) == Some(r.view());
                lemma_reduce_whnf(k, expr.view(), EnvView::Empty);
            }
        }
        res
    }
}

} // verus!
