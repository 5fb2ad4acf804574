use crate::expr::{Expr, ExprView};
use crate::text::{copy_chars, push_str, string_from_chars};
use vstd::prelude::*;

verus! {

/// Binding strength of an expression's outermost form: variables and suspended
/// computations bind tightest, then application, then lambda.
pub open spec fn prec_spec(e: ExprView) -> nat {
    match e {
        ExprView::BoundVar(_) | ExprView::FreeVar(_) | ExprView::Thunk(_) => 2,
        ExprView::App(_, _) => 1,
        ExprView::Lambda(_, _) => 0,
    }
}

/// Names given to binders so far: the most recent entry for an id wins.
pub open spec fn name_lookup(names: Seq<(u64, Seq<char>)>, id: u64) -> Option<Seq<char>>
    decreases names.len(),
{
    if names.len() == 0 {
        None
    } else if names.last().0 == id {
        Some(names.last().1)
    } else {
        name_lookup(names.drop_last(), id)
    }
}

/// The name that follows `name` in the sequence `a`, `b`, ..., `z`, `aa`, `ab`, ...:
/// the last letter moves on by one; after a `z` comes a run of `a`s one longer.
pub open spec fn next_name(name: Seq<char>) -> Seq<char> {
    if name.last() == 'z' {
        Seq::new((name.len() + 1) as nat, |i: int| 'a')
    } else {
        name.drop_last().push(((name.last() as u8) + 1) as char)
    }
}

pub open spec fn lowercase_name(name: Seq<char>) -> bool {
    &&& name.len() > 0
    &&& forall|i: int| 0 <= i < name.len() ==> 'a' <= #[trigger] name[i] && name[i] <= 'z'
}

pub open spec fn has_fv_prefix(name: Seq<char>) -> bool {
    name.len() >= 3 && name.take(3) == seq!['f', 'v', '_']
}

/// The text of `e` printed where a form binding at least `min_prec` is needed, given the
/// names of the enclosing binders and the next name to give out; together with the names
/// and the next name after it.
pub open spec fn pp_spec(
    e: ExprView,
    names: Seq<(u64, Seq<char>)>,
    next: Seq<char>,
    min_prec: nat,
) -> (Seq<char>, Seq<(u64, Seq<char>)>, Seq<char>)
    decreases e,
{
    match e {
        ExprView::Thunk(_) => ("<unevaluated-thunk>"@, names, next),
        _ => {
            let (text, names2, next2) = match e {
                ExprView::BoundVar(id) => (
                    match name_lookup(names, id) {
                        Some(n) => n,
                        None => seq!['_'],
                    },
                    names,
                    next,
                ),
                ExprView::FreeVar(n) => (
                    if has_fv_prefix(n) {
                        n
                    } else {
                        seq!['f', 'v', '_'] + n
                    },
                    names,
                    next,
                ),
                ExprView::Lambda(bv, body) => {
                    let names1 = match bv {
                        Some(id) => names.push((id, next)),
                        None => names,
                    };
                    let (b, names2, next2) = pp_spec(*body, names1, next_name(next), 0);
                    (seq!['\\'] + next + seq![' '] + b, names2, next2)
                },
                ExprView::App(l, r) => {
                    let (a, names1, next1) = pp_spec(*l, names, next, 1);
                    let (b, names2, next2) = pp_spec(*r, names1, next1, 2);
                    (a + seq![' '] + b, names2, next2)
                },
                _ => (seq![], names, next),
            };
            if prec_spec(e) < min_prec {
                (seq!['('] + text + seq![')'], names2, next2)
            } else {
                (text, names2, next2)
            }
        },
    }
}

/// The text of an expression: binders are named `a`, `b`, ... in the order printing
/// meets them, free variables carry the prefix `fv_`.
pub open spec fn render_spec(e: ExprView) -> Seq<char> {
    pp_spec(e, seq![], seq!['a'], 0).0
}

proof fn lemma_next_name(name: Seq<char>)
    requires
        lowercase_name(name),
    ensures
        lowercase_name(next_name(name)),
        next_name(name).len() <= name.len() + 1,
{
    if name.last() != 'z' {
        let c = name.last();
        assert('a' <= c && c < 'z');
        assert((c as u8) as int == c as int);
        assert(((c as u8) + 1) as char <= 'z');
        assert('a' <= ((c as u8) + 1) as char);
        let n = next_name(name);
        assert forall|i: int| 0 <= i < n.len() implies 'a' <= #[trigger] n[i] && n[i] <= 'z' by {
            if i < name.len() - 1 {
                assert(n[i] == name[i]);
            }
        }
    }
}

/// A suspended computation prints as `<unevaluated-thunk>` wherever it stands; any other
/// expression prints as it does on its own, in parentheses where it binds less tightly
/// than the place needs.
pub proof fn lemma_pp_parens(e: ExprView, names: Seq<(u64, Seq<char>)>, next: Seq<char>, min_prec: nat)
    ensures
        e is Thunk ==> pp_spec(e, names, next, min_prec).0 == "<unevaluated-thunk>"@,
        !(e is Thunk) ==> {
            let (t, names2, next2) = pp_spec(e, names, next, 0);
            pp_spec(e, names, next, min_prec) == (if prec_spec(e) < min_prec {
                (seq!['('] + t + seq![')'], names2, next2)
            } else {
                (t, names2, next2)
            })
        },
{
}

/// `a` comes before `b` when it is shorter, or as long and before it in alphabetical order.
pub open spec fn shortlex_less(a: Seq<char>, b: Seq<char>) -> bool {
    ||| a.len() < b.len()
    ||| a.len() == b.len() && exists|i: int| 0 <= i < a.len() && a.take(i) == b.take(i) && a[i] < b[i]
}

/// The name after a name of lowercase letters is again one, and comes after it: longer,
/// or as long and later in alphabetical order.
pub proof fn lemma_next_name_grows(name: Seq<char>)
    requires
        lowercase_name(name),
    ensures
        lowercase_name(next_name(name)),
        shortlex_less(name, next_name(name)),
{
    lemma_next_name(name);
    if name.last() != 'z' {
        let n = next_name(name);
        let i = name.len() - 1;
        let c = name.last();
        assert((c as u8) as int == c as int);
        assert(n.take(i) =~= name.take(i));
        assert(name[i] < n[i]);
    }
}

/// The name given to the `k`-th binder that printing meets, counting from 0.
pub open spec fn nth_name(k: nat) -> Seq<char>
    decreases k,
{
    if k == 0 {
        seq!['a']
    } else {
        next_name(nth_name((k - 1) as nat))
    }
}

/// A run of `a`s ended by one lowercase letter.
spec fn a_run_name(s: Seq<char>) -> bool {
    &&& s.len() >= 1
    &&& forall|i: int| 0 <= i < s.len() - 1 ==> #[trigger] s[i] == 'a'
    &&& 'a' <= s.last() && s.last() <= 'z'
}

/// The place of such a name in the order `a`, ..., `z`, `aa`, ..., `az`, `aaa`, ...
spec fn name_rank(s: Seq<char>) -> int {
    26 * (s.len() - 1) + ((s.last() as int) - ('a' as int))
}

proof fn lemma_nth_name_rank(k: nat)
    ensures
        a_run_name(nth_name(k)),
        name_rank(nth_name(k)) == k,
    decreases k,
{
    if k > 0 {
        lemma_nth_name_rank((k - 1) as nat);
        let s = nth_name((k - 1) as nat);
        let t = nth_name(k);
        assert(t == next_name(s));
        if s.last() == 'z' {
            assert(t.last() == 'a');
        } else {
            let c = s.last();
            assert((c as u8) as int == c as int);
            let d = ((c as u8) + 1) as char;
            assert(d as int == c as int + 1);
            assert(t == s.drop_last().push(d));
            assert forall|i: int| 0 <= i < t.len() - 1 implies #[trigger] t[i] == 'a' by {
                assert(t[i] == s[i]);
            }
        }
    }
}

/// Printing never gives two binders the same name: the names it hands out one after
/// another, starting from `a`, never repeat.
pub proof fn lemma_binder_names_distinct(i: nat, j: nat)
    requires
        i != j,
    ensures
        nth_name(i) != nth_name(j),
{
    lemma_nth_name_rank(i);
    lemma_nth_name_rank(j);
}

/// Hands out `next` as a binder name and moves `next` on.
fn fresh(next: &mut Vec<char>) -> (name: Vec<char>)
    requires
        lowercase_name(old(next)@),
        old(next)@.len() < usize::MAX,
    ensures
        name@ == old(next)@,
        final(next)@ == next_name(old(next)@),
{
    let name = copy_chars(next);
    let n = next.len();
    let last = next[n - 1];
    if last == 'z' {
        let mut all_a: Vec<char> = Vec::new();
        let mut i: usize = 0;
        let len = n + 1;
        while i < len
            invariant
                i <= len,
                all_a@ == Seq::new(i as nat, |j: int| 'a'),
            decreases len - i,
        {
            all_a.push('a');
            i = i + 1;
        }
        *next = all_a;
    } else {
        proof {
            assert('a' <= last && last < 'z');
        }
        let bumped = ((last as u8) + 1) as char;
        next.set(n - 1, bumped);
        assert(next@ == name@.drop_last().push(bumped));
    }
    name
}

fn name_lookup_exec(names: &Vec<(u64, Vec<char>)>, id: u64) -> (res: Option<Vec<char>>)
    ensures
        match res {
            Some(n) => name_lookup(names_view(names@), id) == Some(n@),
            None => name_lookup(names_view(names@), id) is None,
        },
{
    let mut i = names.len();
    assert(names@.take(i as int) == names@);
    while i > 0
        invariant
            i <= names.len(),
            name_lookup(names_view(names@), id) == name_lookup(names_view(names@.take(i as int)), id),
        decreases i,
    {
        assert(names_view(names@.take(i as int)).drop_last() == names_view(names@.take(i - 1)));
        if names[i - 1].0 == id {
            return Some(copy_chars(&names[i - 1].1));
        }
        i = i - 1;
    }
    assert(names_view(names@.take(0)) == Seq::<(u64, Seq<char>)>::empty());
    None
}

fn push_chars(out: &mut Vec<char>, s: &Vec<char>)
    ensures
        final(out)@ == old(out)@ + s@,
{
    let ghost start = out@;
    let mut i: usize = 0;
    while i < s.len()
        invariant
            i <= s.len(),
            out@ == start + s@.take(i as int),
        decreases s.len() - i,
    {
        out.push(s[i]);
        i = i + 1;
    }
    assert(s@.take(s@.len() as int) == s@);
}

pub open spec fn names_view(names: Seq<(u64, Vec<char>)>) -> Seq<(u64, Seq<char>)> {
    names.map_values(|p: (u64, Vec<char>)| (p.0, p.1@))
}

impl Expr {
    /// Binding strength of this expression's outermost form.
    fn prec(&self) -> (res: u8)
        ensures
            res == prec_spec(self.view()),
    {
        match self {
            Expr::BoundVar(_) | Expr::FreeVar(_) => 2,
            Expr::App(..) => 1,
            Expr::Lambda(_) => 0,
            Expr::Thunk(_) => 2,
        }
    }

    /// Appends the text of this expression to `out` (see `pp_spec`).
    fn pp(
        &self,
        out: &mut Vec<char>,
        names: &mut Vec<(u64, Vec<char>)>,
        next: &mut Vec<char>,
        min_prec: u8,
    )
        requires
            lowercase_name(old(next)@),
        ensures
            ({
                let (text, names2, next2) = pp_spec(
                    self.view(),
                    names_view(old(names)@),
                    old(next)@,
                    min_prec as nat,
                );
                &&& final(out)@ == old(out)@ + text
                &&& names_view(final(names)@) == names2
                &&& final(next)@ == next2
            }),
            lowercase_name(final(next)@),
        decreases self, 1nat,
    {
        if let Expr::Thunk(..) = self {
            push_str(out, "<unevaluated-thunk>");
            return;
        }
        let needs_parens = self.prec() < min_prec;
        if needs_parens {
            out.push('(');
        }
        let ghost out1 = out@;
        self.pp_form(out, names, next);
        if needs_parens {
            out.push(')');
            assert(out@ == old(out)@ + (seq!['('] + (out@.subrange(out1.len() as int, out@.len() - 1)) + seq![')']));
        }
    }

    /// Appends the text of this expression's form, without enclosing parentheses.
    fn pp_form(&self, out: &mut Vec<char>, names: &mut Vec<(u64, Vec<char>)>, next: &mut Vec<char>)
        requires
            !(self.view() is Thunk),
            lowercase_name(old(next)@),
        ensures
            ({
                let (text, names2, next2) = pp_spec(
                    self.view(),
                    names_view(old(names)@),
                    old(next)@,
                    prec_spec(self.view()),
                );
                &&& final(out)@ == old(out)@ + text
                &&& names_view(final(names)@) == names2
                &&& final(next)@ == next2
            }),
            lowercase_name(final(next)@),
        decreases self, 0nat,
    {
        match self {
            Expr::BoundVar(bv) => match name_lookup_exec(names, bv.id) {
                Some(name) => push_chars(out, &name),
                None => out.push('_'),
            },
            Expr::FreeVar(fv) => {
                let name = crate::text::chars_of(fv.name.as_str());
                let prefixed = name.len() >= 3 && name[0] == 'f' && name[1] == 'v' && name[2] == '_';
                proof {
                    if name@.len() >= 3 {
                        assert(prefixed == (name@.take(3) =~= seq!['f', 'v', '_']));
                    }
                }
                if !prefixed {
                    out.push('f');
                    out.push('v');
                    out.push('_');
                }
                push_chars(out, &name);
            },
            Expr::Lambda(l) => {
                proof {
                    lemma_next_name(next@);
                }
                out.push('\\');
                push_chars(out, next);
                let printed = out.len();
                assert(next@.len() < printed);
                let name = fresh(next);
                if let Some(w) = &l.bound_var {
                    names.push((w.id, name));
                    assert(names_view(names@) == names_view(old(names)@).push((w.id, old(next)@)));
                }
                out.push(' ');
                l.body.pp(out, names, next, 0);
            },
            Expr::App(lhs, rhs) => {
                lhs.pp(out, names, next, 1);
                out.push(' ');
                rhs.pp(out, names, next, 2);
            },
            Expr::Thunk(_) => {},
        }
    }

    /// The text of this expression (see `render_spec`).
    pub fn render(&self) -> (res: String)
        ensures
            res@ == render_spec(self.view()),
    {
        let mut out: Vec<char> = Vec::new();
        let mut names: Vec<(u64, Vec<char>)> = Vec::new();
        let mut next: Vec<char> = Vec::new();
        next.push('a');
        assert(names_view(names@) == Seq::<(u64, Seq<char>)>::empty());
        self.pp(&mut out, &mut names, &mut next, 0);
        string_from_chars(out)
    }
}

/// A free variable prints as its name when the name begins with `fv_`, and as `fv_`
/// followed by its name otherwise; an application of two free variables prints as the
/// two, in order, with one space between.
pub proof fn lemma_render_free_vars(n: Seq<char>, m: Seq<char>)
    ensures
        render_spec(ExprView::FreeVar(n)) == (if n.len() >= 3 && n[0] == 'f' && n[1] == 'v' && n[2] == '_' {
            n
        } else {
            seq!['f', 'v', '_'] + n
        }),
        render_spec(ExprView::App(Box::new(ExprView::FreeVar(n)), Box::new(ExprView::FreeVar(m)))) == render_spec(
            ExprView::FreeVar(n),
        ) + seq![' '] + render_spec(ExprView::FreeVar(m)),
{
    let fa = ExprView::FreeVar(n);
    let fb = ExprView::FreeVar(m);
    let start: Seq<char> = seq!['a'];
    assert(pp_spec(fa, seq![], start, 1) == (pp_spec(fa, seq![], start, 0).0, Seq::<(u64, Seq<char>)>::empty(), start));
    assert(pp_spec(fb, seq![], start, 2) == (pp_spec(fb, seq![], start, 0).0, Seq::<(u64, Seq<char>)>::empty(), start));
    let starts = n.len() >= 3 && n[0] == 'f' && n[1] == 'v' && n[2] == '_';
    if n.len() >= 3 {
        assert(has_fv_prefix(n) == starts) by {
            if starts {
                assert(n.take(3) =~= seq!['f', 'v', '_']);
            }
            if has_fv_prefix(n) {
                assert(n.take(3)[0] == 'f' && n.take(3)[1] == 'v' && n.take(3)[2] == '_');
            }
        }
    }
}

/// Binders are named `a`, `b`, ... in the order printing meets them, and each bound
/// variable prints as the name of its own binder: `\a a`, and `\a \b a b` for two
/// different binders.
pub proof fn lemma_render_binder_names(i: u64, j: u64)
    ensures
        render_spec(ExprView::Lambda(Some(i), Box::new(ExprView::BoundVar(i)))) == seq!['\\', 'a', ' ', 'a'],
        i != j ==> render_spec(
            ExprView::Lambda(
                Some(i),
                Box::new(
                    ExprView::Lambda(
                        Some(j),
                        Box::new(ExprView::App(Box::new(ExprView::BoundVar(i)), Box::new(ExprView::BoundVar(j)))),
                    ),
                ),
            ),
        ) == seq!['\\', 'a', ' ', '\\', 'b', ' ', 'a', ' ', 'b'],
{
    let a: Seq<char> = seq!['a'];
    let b: Seq<char> = seq!['b'];
    assert(next_name(a) == b) by {
        assert(((('a' as u8) + 1) as char) == 'b');
        assert(a.drop_last().push('b') =~= b);
    }
    let n1: Seq<(u64, Seq<char>)> = seq![(i, a)];
    let bvi = ExprView::BoundVar(i);
    assert(name_lookup(n1, i) == Some(a));
    assert(pp_spec(bvi, n1, b, 0) == (a, n1, b));
    assert(seq!['\\'] + a + seq![' '] + a =~= seq!['\\', 'a', ' ', 'a']);
    if i != j {
        let c = next_name(b);
        let n2: Seq<(u64, Seq<char>)> = n1.push((j, b));
        let bvj = ExprView::BoundVar(j);
        assert(n2.drop_last() =~= n1);
        assert(name_lookup(n2, i) == Some(a));
        assert(name_lookup(n2, j) == Some(b));
        assert(pp_spec(bvi, n2, c, 1) == (a, n2, c));
        assert(pp_spec(bvj, n2, c, 2) == (b, n2, c));
        let app = ExprView::App(Box::new(bvi), Box::new(bvj));
        assert(pp_spec(app, n2, c, 0) == (a + seq![' '] + b, n2, c));
        let inner = ExprView::Lambda(Some(j), Box::new(app));
        assert(pp_spec(inner, n1, b, 0).0 == seq!['\\'] + b + seq![' '] + (a + seq![' '] + b));
        assert(seq!['\\'] + a + seq![' '] + (seq!['\\'] + b + seq![' '] + (a + seq![' '] + b)) =~= seq![
            '\\',
            'a',
            ' ',
            '\\',
            'b',
            ' ',
            'a',
            ' ',
            'b',
        ]);
    }
}

/// A lambda applied to something prints in parentheses, and an application passed as
/// an argument prints in parentheses: `(\a ...) fv_x` and `fv_f (fv_g fv_x)`.
pub proof fn lemma_render_parens(bv: Option<u64>, body: ExprView, n: Seq<char>, m: Seq<char>, k: Seq<char>)
    ensures
        render_spec(
            ExprView::App(Box::new(ExprView::Lambda(bv, Box::new(body))), Box::new(ExprView::FreeVar(n))),
        ) == seq!['('] + render_spec(ExprView::Lambda(bv, Box::new(body))) + seq![')', ' '] + render_spec(
            ExprView::FreeVar(n),
        ),
        render_spec(
            ExprView::App(
                Box::new(ExprView::FreeVar(n)),
                Box::new(ExprView::App(Box::new(ExprView::FreeVar(m)), Box::new(ExprView::FreeVar(k)))),
            ),
        ) == render_spec(ExprView::FreeVar(n)) + seq![' ', '('] + render_spec(ExprView::FreeVar(m)) + seq![' ']
            + render_spec(ExprView::FreeVar(k)) + seq![')'],
{
    let start: Seq<char> = seq!['a'];
    let none: Seq<(u64, Seq<char>)> = seq![];
    let lam = ExprView::Lambda(bv, Box::new(body));
    lemma_pp_parens(lam, none, start, 1);
    let (t, names1, next1) = pp_spec(lam, none, start, 0);
    let fvn = ExprView::FreeVar(n);
    let fvm = ExprView::FreeVar(m);
    let fvk = ExprView::FreeVar(k);
    let tn = pp_spec(fvn, none, start, 0).0;
    let tm = pp_spec(fvm, none, start, 0).0;
    let tk = pp_spec(fvk, none, start, 0).0;
    assert(pp_spec(fvn, names1, next1, 2).0 == tn);
    assert(seq!['('] + t + seq![')'] + seq![' '] + tn =~= seq!['('] + t + seq![')', ' '] + tn);
    assert(pp_spec(fvn, none, start, 1).0 == tn);
    assert(pp_spec(fvm, none, start, 1).0 == tm);
    assert(pp_spec(fvk, none, start, 2).0 == tk);
    let inner = ExprView::App(Box::new(fvm), Box::new(fvk));
    assert(pp_spec(inner, none, start, 0).0 == tm + seq![' '] + tk);
    assert(pp_spec(inner, none, start, 2).0 == seq!['('] + (tm + seq![' '] + tk) + seq![')']);
    assert(tn + seq![' '] + (seq!['('] + (tm + seq![' '] + tk) + seq![')']) =~= tn + seq![' ', '('] + tm + seq![' ']
        + tk + seq![')']);
}

} // verus!
