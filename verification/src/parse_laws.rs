use crate::expr::ExprView;
use crate::parser::{
    name_end, parse_inner_spec, parse_lambda_spec, parse_name, parse_spec, parse_var_spec, scope_find, skip_ws,
    ParseError, ParseState,
};
use crate::text::ascii_alphabetic;
use vstd::prelude::*;

verus! {

/// A nonempty word of ASCII letters.
pub open spec fn letters(n: Seq<char>) -> bool {
    &&& n.len() > 0
    &&& forall|i: int| 0 <= i < n.len() ==> #[trigger] ascii_alphabetic(n[i])
}

/// Each name of `ns` with one space before it.
pub open spec fn spaced(ns: Seq<Seq<char>>) -> Seq<char>
    decreases ns.len(),
{
    if ns.len() == 0 {
        seq![]
    } else {
        seq![' '] + ns[0] + spaced(ns.drop_first())
    }
}

/// `f` applied to the free variables named by `ns`, left to right.
pub open spec fn apply_names(f: ExprView, ns: Seq<Seq<char>>) -> ExprView
    decreases ns.len(),
{
    if ns.len() == 0 {
        f
    } else {
        apply_names(ExprView::App(Box::new(f), Box::new(ExprView::FreeVar(ns[0]))), ns.drop_first())
    }
}

proof fn lemma_name_end_letters(s: Seq<char>, pos: int, end: int, var_chars: bool)
    requires
        0 <= pos <= end <= s.len(),
        forall|i: int| pos <= i < end ==> #[trigger] ascii_alphabetic(s[i]),
        end == s.len() || s[end] == ' ',
    ensures
        name_end(s, pos, var_chars) == end,
    decreases end - pos,
{
    if pos < end {
        assert(ascii_alphabetic(s[pos]));
        assert((s[pos] as u32) < 128);
        lemma_name_end_letters(s, pos + 1, end, var_chars);
    } else if end < s.len() {
        assert((s[end] as u32) < 128);
    }
}

/// A word of letters at `pos`, followed by a space or the end, reads as that name.
proof fn lemma_read_name(s: Seq<char>, pos: int, n: Seq<char>, var_chars: bool)
    requires
        0 <= pos,
        pos + n.len() <= s.len(),
        letters(n),
        s.subrange(pos, pos + n.len()) == n,
        pos + n.len() == s.len() || s[pos + n.len()] == ' ',
    ensures
        parse_name(s, pos, var_chars) == Ok::<(Seq<char>, int), ParseError>((n, pos + n.len())),
{
    assert(s[pos] == n[0]);
    assert(ascii_alphabetic(n[0]));
    assert(skip_ws(s, pos) == pos);
    assert forall|i: int| pos <= i < pos + n.len() implies #[trigger] ascii_alphabetic(s[i]) by {
        assert(s[i] == n[i - pos]);
    }
    lemma_name_end_letters(s, pos, pos + n.len(), var_chars);
}

proof fn lemma_read_spaced(st: ParseState, s: Seq<char>, pos: int, prev: ExprView, ns: Seq<Seq<char>>)
    requires
        0 <= pos <= s.len(),
        s.subrange(pos, s.len() as int) == spaced(ns),
        forall|i: int| 0 <= i < ns.len() ==> #[trigger] letters(ns[i]),
        forall|i: int| 0 <= i < ns.len() ==> scope_find(st.scope, #[trigger] ns[i]) is None,
    ensures
        parse_inner_spec(st, s, pos, Some(prev)) == Ok::<(ExprView, ParseState, int), ParseError>(
            (apply_names(prev, ns), st, s.len() as int),
        ),
    decreases ns.len(),
{
    if ns.len() == 0 {
        assert(pos == s.len());
    } else {
        let n = ns[0];
        let rest = ns.drop_first();
        assert(letters(n));
        let t = s.subrange(pos, s.len() as int);
        assert(t == seq![' '] + n + spaced(rest));
        assert(s[pos] == ' ') by {
            assert(t[0] == ' ');
        }
        let q = pos + 1 + n.len();
        assert(s.subrange(pos + 1, q) =~= n) by {
            assert forall|i: int| 0 <= i < n.len() implies s.subrange(pos + 1, q)[i] == n[i] by {
                assert(s[pos + 1 + i] == t[1 + i]);
            }
        }
        assert(s.subrange(q, s.len() as int) =~= spaced(rest)) by {
            assert forall|i: int| 0 <= i < s.len() - q implies s.subrange(q, s.len() as int)[i] == spaced(rest)[i] by {
                assert(s[q + i] == t[1 + n.len() + i]);
            }
        }
        if q < s.len() {
            assert(rest.len() > 0);
            assert(s[q] == s.subrange(q, s.len() as int)[0]);
        }
        assert(skip_ws(s, pos + 1) == pos + 1) by {
            assert(s[pos + 1] == n[0]);
            assert(ascii_alphabetic(n[0]));
        }
        assert(skip_ws(s, pos) == pos + 1);
        assert(s[pos + 1] == n[0]);
        lemma_read_name(s, pos + 1, n, true);
        assert(scope_find(st.scope, n) is None);
        assert(parse_var_spec(st, s, pos + 1) == Ok::<(ExprView, ParseState, int), ParseError>(
            (ExprView::FreeVar(n), st, q),
        ));
        assert forall|i: int| 0 <= i < rest.len() implies #[trigger] letters(rest[i]) by {
            assert(rest[i] == ns[i + 1]);
        }
        assert forall|i: int| 0 <= i < rest.len() implies scope_find(st.scope, #[trigger] rest[i]) is None by {
            assert(rest[i] == ns[i + 1]);
        }
        let prev2 = ExprView::App(Box::new(prev), Box::new(ExprView::FreeVar(n)));
        lemma_read_spaced(st, s, q, prev2, rest);
    }
}

/// Names separated by single spaces read as free variables applied left to right:
/// `f a b` is `(f a) b`.
pub proof fn lemma_parse_application(f: Seq<char>, ns: Seq<Seq<char>>)
    requires
        letters(f),
        forall|i: int| 0 <= i < ns.len() ==> #[trigger] letters(ns[i]),
    ensures
        parse_spec(f + spaced(ns)) == Ok::<ExprView, ParseError>(apply_names(ExprView::FreeVar(f), ns)),
{
    let s = f + spaced(ns);
    let init = ParseState { scope: seq![], next_id: 0 };
    let m = f.len() as int;
    assert(s.subrange(0, m) =~= f);
    assert(s.subrange(m, s.len() as int) =~= spaced(ns));
    if m < s.len() {
        assert(ns.len() > 0);
        assert(s[m] == spaced(ns)[0]);
    }
    assert(s[0] == f[0]);
    assert(ascii_alphabetic(f[0]));
    assert(skip_ws(s, 0) == 0);
    lemma_read_name(s, 0, f, true);
    assert(parse_var_spec(init, s, 0) == Ok::<(ExprView, ParseState, int), ParseError>(
        (ExprView::FreeVar(f), init, m),
    ));
    lemma_read_spaced(init, s, m, ExprView::FreeVar(f), ns);
}

/// `\p p` reads as a lambda whose body is its own, first, bound variable.
pub proof fn lemma_parse_identity(p: Seq<char>)
    requires
        letters(p),
    ensures
        parse_spec(seq!['\\'] + p + seq![' '] + p) == Ok::<ExprView, ParseError>(
            ExprView::Lambda(Some(0), Box::new(ExprView::BoundVar(0))),
        ),
{
    let s = seq!['\\'] + p + seq![' '] + p;
    let m = p.len() as int;
    let init = ParseState { scope: seq![], next_id: 0 };
    assert(s[0] == '\\');
    assert(skip_ws(s, 0) == 0);
    assert(s.subrange(1, 1 + m) =~= p);
    assert(s[1 + m] == ' ');
    lemma_read_name(s, 1, p, false);
    assert(s.subrange(2 + m, 2 + 2 * m) =~= p);
    lemma_read_name(s, 2 + m, p, true);
    let inner = ParseState { scope: seq![(p, None)], next_id: 0 };
    assert(init.scope.push((p, None)) == inner.scope);
    assert(s[2 + m] == p[0]);
    assert(ascii_alphabetic(p[0]));
    assert(skip_ws(s, 2 + m) == 2 + m);
    assert(skip_ws(s, 1 + m) == 2 + m);
    assert(scope_find(inner.scope, p) == Some(0int));
    let st1 = ParseState { scope: seq![(p, Some(0u64))], next_id: 1 };
    assert(inner.scope.update(0, (p, Some(0u64))) =~= st1.scope);
    assert(parse_var_spec(inner, s, 2 + m) == Ok::<(ExprView, ParseState, int), ParseError>(
        (ExprView::BoundVar(0), st1, s.len() as int),
    ));
    assert(parse_inner_spec(st1, s, s.len() as int, Some(ExprView::BoundVar(0))) == Ok::<
        (ExprView, ParseState, int),
        ParseError,
    >((ExprView::BoundVar(0), st1, s.len() as int)));
    assert(parse_inner_spec(inner, s, 1 + m, None) == Ok::<(ExprView, ParseState, int), ParseError>(
        (ExprView::BoundVar(0), st1, s.len() as int),
    ));
    let st2 = ParseState { scope: st1.scope.drop_last(), next_id: 1 };
    let lam = ExprView::Lambda(Some(0), Box::new(ExprView::BoundVar(0)));
    assert(parse_lambda_spec(init, s, 0) == Ok::<(ExprView, ParseState, int), ParseError>(
        (lam, st2, s.len() as int),
    ));
    assert(skip_ws(s, s.len() as int) == s.len());
    assert(parse_inner_spec(st2, s, s.len() as int, Some(lam)) == Ok::<(ExprView, ParseState, int), ParseError>(
        (lam, st2, s.len() as int),
    ));
    assert(parse_inner_spec(init, s, 0, None) == Ok::<(ExprView, ParseState, int), ParseError>(
        (lam, st2, s.len() as int),
    ));
}

} // verus!
