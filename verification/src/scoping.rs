use crate::expr::ExprView;
use crate::text::ascii_alphabetic;
use crate::parser::{
    lemma_name_end, lemma_skip_ws, apply_to, name_end, parse_inner_spec, parse_lambda_spec, parse_name, parse_spec,
    parse_var_spec, scope_find, skip_ws, ParseError, ParseState,
};
use vstd::prelude::*;

verus! {

/// The ids of the bound variables that occur in `e` outside every lambda that binds them.
pub open spec fn loose_ids(e: ExprView) -> Set<u64>
    decreases e,
{
    match e {
        ExprView::BoundVar(id) => set![id],
        ExprView::FreeVar(_) => Set::empty(),
        ExprView::Lambda(bv, b) => match bv {
            Some(id) => loose_ids(*b).remove(id),
            None => loose_ids(*b),
        },
        ExprView::App(l, r) => loose_ids(*l).union(loose_ids(*r)),
        ExprView::Thunk(_) => Set::empty(),
    }
}

/// The ids that the lambdas of `e` bind, from left to right.
pub open spec fn binder_ids(e: ExprView) -> Seq<u64>
    decreases e,
{
    match e {
        ExprView::Lambda(bv, b) => match bv {
            Some(id) => seq![id] + binder_ids(*b),
            None => binder_ids(*b),
        },
        ExprView::App(l, r) => binder_ids(*l) + binder_ids(*r),
        _ => seq![],
    }
}

/// Every lambda of `e` that has a bound variable has an occurrence of it in its body.
pub open spec fn binders_referenced(e: ExprView) -> bool
    decreases e,
{
    match e {
        ExprView::Lambda(bv, b) => (match bv {
            Some(id) => loose_ids(*b).contains(id),
            None => true,
        }) && binders_referenced(*b),
        ExprView::App(l, r) => binders_referenced(*l) && binders_referenced(*r),
        _ => true,
    }
}

/// Every bound variable of `e` lies inside the lambda that binds it, no two lambdas
/// share a bound variable, and a lambda has one only when its body refers to it.
pub open spec fn well_scoped(e: ExprView) -> bool {
    &&& loose_ids(e) =~= Set::<u64>::empty()
    &&& binder_ids(e).no_duplicates()
    &&& binders_referenced(e)
}

pub open spec fn scope_ids(scope: Seq<(Seq<char>, Option<u64>)>) -> Set<u64> {
    Set::new(|id: u64| exists|i: int| 0 <= i < scope.len() && scope[i].1 == Some(id))
}

pub open spec fn new_ids(
    before: Seq<(Seq<char>, Option<u64>)>,
    after: Seq<(Seq<char>, Option<u64>)>,
) -> Set<u64> {
    Set::new(
        |id: u64|
            exists|i: int|
                0 <= i < before.len() && 0 <= i < after.len() && before[i].1 is None && after[i].1
                    == Some(id),
    )
}

/// The ids given to scope entries are below `st.next_id` and pairwise distinct.
pub open spec fn ids_sound(st: ParseState) -> bool {
    &&& forall|i: int, id: u64| 0 <= i < st.scope.len() && st.scope[i].1 == Some(id) ==> id < st.next_id
    &&& forall|i: int, j: int|
        0 <= i < st.scope.len() && 0 <= j < st.scope.len() && i != j && st.scope[i].1 is Some
            ==> st.scope[i].1 != st.scope[j].1
}

/// What one parse step from `st` to `st2` that read `e` keeps.
pub open spec fn step_ok(st: ParseState, st2: ParseState, e: ExprView) -> bool {
    &&& st2.scope.len() == st.scope.len()
    &&& forall|i: int|
        0 <= i < st.scope.len() ==> #[trigger] st2.scope[i].0 == st.scope[i].0 && (st.scope[i].1 is Some
            ==> st2.scope[i].1 == st.scope[i].1)
    &&& st.next_id <= st2.next_id
    &&& loose_ids(e).subset_of(scope_ids(st2.scope))
    &&& new_ids(st.scope, st2.scope).subset_of(loose_ids(e))
    &&& forall|id: u64| #[trigger] new_ids(st.scope, st2.scope).contains(id) ==> st.next_id <= id < st2.next_id
    &&& binder_ids(e).no_duplicates()
    &&& forall|k: int|
        0 <= k < binder_ids(e).len() ==> st.next_id <= #[trigger] binder_ids(e)[k] < st2.next_id
            && !scope_ids(st2.scope).contains(binder_ids(e)[k])
    &&& binders_referenced(e)
    &&& ids_sound(st2)
}

pub open spec fn ready_at(st: ParseState, s: Seq<char>, pos: int) -> bool {
    &&& 0 <= pos <= s.len()
    &&& s.len() <= u64::MAX
    &&& st.next_id <= pos
    &&& ids_sound(st)
}


proof fn lemma_scope_find(scope: Seq<(Seq<char>, Option<u64>)>, name: Seq<char>)
    ensures
        scope_find(scope, name) matches Some(i) ==> 0 <= i < scope.len() && scope[i].0 == name,
    decreases scope.len(),
{
    if scope.len() > 0 && scope.last().0 != name {
        lemma_scope_find(scope.drop_last(), name);
    }
}

proof fn lemma_parse_name(s: Seq<char>, pos: int, var_chars: bool)
    requires
        0 <= pos <= s.len(),
    ensures
        parse_name(s, pos, var_chars) matches Ok((n, p)) ==> pos < p <= s.len(),
{
    lemma_skip_ws(s, pos);
    lemma_name_end(s, skip_ws(s, pos), var_chars);
}

proof fn lemma_step_refl(st: ParseState)
    requires
        ids_sound(st),
    ensures
        forall|e: ExprView| loose_ids(e).subset_of(scope_ids(st.scope)) && binder_ids(e).len() == 0
            && binders_referenced(e) ==> step_ok(st, st, e),
{
    assert forall|e: ExprView| loose_ids(e).subset_of(scope_ids(st.scope)) && binder_ids(e).len() == 0
        && binders_referenced(e) implies step_ok(st, st, e) by {
        assert(new_ids(st.scope, st.scope) =~= Set::<u64>::empty());
    }
}

proof fn lemma_compose(st0: ParseState, st1: ParseState, st2: ParseState, a: ExprView, b: ExprView)
    requires
        step_ok(st0, st1, a),
        step_ok(st1, st2, b),
    ensures
        step_ok(st0, st2, ExprView::App(Box::new(a), Box::new(b))),
{
    let e = ExprView::App(Box::new(a), Box::new(b));
    assert(loose_ids(a).subset_of(scope_ids(st2.scope))) by {
        assert forall|id: u64| scope_ids(st1.scope).contains(id) implies scope_ids(st2.scope).contains(id) by {
            let i = choose|i: int| 0 <= i < st1.scope.len() && st1.scope[i].1 == Some(id);
            assert(st2.scope[i].0 == st1.scope[i].0);
        }
    }
    assert forall|id: u64| #[trigger] new_ids(st0.scope, st2.scope).contains(id) implies
        new_ids(st0.scope, st1.scope).contains(id) || new_ids(st1.scope, st2.scope).contains(id) by {
        let i = choose|i: int|
            0 <= i < st0.scope.len() && 0 <= i < st2.scope.len() && st0.scope[i].1 is None
                && st2.scope[i].1 == Some(id);
        assert(st2.scope[i].0 == st1.scope[i].0);
        if st1.scope[i].1 is Some {
            assert(st2.scope[i].1 == st1.scope[i].1);
        }
    }
    let ba = binder_ids(a);
    let bb = binder_ids(b);
    assert(binder_ids(e) == ba + bb);
    assert forall|k: int| 0 <= k < binder_ids(e).len() implies st0.next_id <= #[trigger] binder_ids(e)[k]
        < st2.next_id && !scope_ids(st2.scope).contains(binder_ids(e)[k]) by {
        if k < ba.len() {
            assert(binder_ids(e)[k] == ba[k]);
            if scope_ids(st2.scope).contains(ba[k]) {
                let i = choose|i: int| 0 <= i < st2.scope.len() && st2.scope[i].1 == Some(ba[k]);
                assert(st2.scope[i].0 == st1.scope[i].0);
                if st1.scope[i].1 is Some {
                    assert(scope_ids(st1.scope).contains(ba[k]));
                } else {
                    assert(new_ids(st1.scope, st2.scope).contains(ba[k]));
                }
            }
        } else {
            assert(binder_ids(e)[k] == bb[k - ba.len()]);
        }
    }
    assert(binder_ids(e).no_duplicates()) by {
        assert forall|i: int, j: int| 0 <= i < j < binder_ids(e).len() implies binder_ids(e)[i] != binder_ids(e)[j] by {
            if j < ba.len() {
                assert(binder_ids(e)[i] == ba[i] && binder_ids(e)[j] == ba[j]);
            } else if i >= ba.len() {
                assert(binder_ids(e)[i] == bb[i - ba.len()] && binder_ids(e)[j] == bb[j - ba.len()]);
            } else {
                assert(binder_ids(e)[i] == ba[i] && binder_ids(e)[j] == bb[j - ba.len()]);
            }
        }
    }
}

proof fn lemma_var_scoped(st: ParseState, s: Seq<char>, pos: int)
    requires
        ready_at(st, s, pos),
    ensures
        parse_var_spec(st, s, pos) matches Ok((e, st2, p)) ==> step_ok(st, st2, e) && pos < p <= s.len()
            && st2.next_id <= p,
{
    lemma_parse_name(s, pos, true);
    if let Ok((name, p)) = parse_name(s, pos, true) {
        lemma_scope_find(st.scope, name);
        match scope_find(st.scope, name) {
            Some(i) => match st.scope[i].1 {
                Some(id) => {
                    let e = ExprView::BoundVar(id);
                    assert(scope_ids(st.scope).contains(id));
                    assert(loose_ids(e) =~= set![id]);
                    lemma_step_refl(st);
                },
                None => {
                    let id = st.next_id as u64;
                    let st2 = ParseState { scope: st.scope.update(i, (name, Some(id))), next_id: st.next_id + 1 };
                    let e = ExprView::BoundVar(id);
                    assert(id == st.next_id);
                    assert(st2.scope[i].1 == Some(id));
                    assert(scope_ids(st2.scope).contains(id));
                    assert(new_ids(st.scope, st2.scope).contains(id));
                    assert(loose_ids(e) =~= set![id]);
                    assert forall|x: u64| #[trigger] new_ids(st.scope, st2.scope).contains(x) implies x == id by {
                        let j = choose|j: int|
                            0 <= j < st.scope.len() && 0 <= j < st2.scope.len() && st.scope[j].1 is None
                                && st2.scope[j].1 == Some(x);
                        if j != i {
                            assert(st2.scope[j] == st.scope[j]);
                        }
                    }
                    assert(binder_ids(e) =~= Seq::<u64>::empty());
                    assert forall|j: int, k: int|
                        0 <= j < st2.scope.len() && 0 <= k < st2.scope.len() && j != k && st2.scope[j].1 is Some
                            implies st2.scope[j].1 != st2.scope[k].1 by {
                        if j != i && k != i {
                            assert(st2.scope[j] == st.scope[j] && st2.scope[k] == st.scope[k]);
                        } else if j == i {
                            assert(st2.scope[k] == st.scope[k]);
                        } else {
                            assert(st2.scope[j] == st.scope[j]);
                        }
                    }
                    assert(step_ok(st, st2, e));
                },
            },
            None => {
                let e = ExprView::FreeVar(name);
                assert(loose_ids(e) =~= Set::<u64>::empty());
                lemma_step_refl(st);
            },
        }
    }
}


proof fn lemma_close_lambda(st: ParseState, param: Seq<char>, st2: ParseState, body: ExprView)
    requires
        ids_sound(st),
        step_ok(ParseState { scope: st.scope.push((param, None)), next_id: st.next_id }, st2, body),
    ensures
        step_ok(
            st,
            ParseState { scope: st2.scope.drop_last(), next_id: st2.next_id },
            ExprView::Lambda(st2.scope.last().1, Box::new(body)),
        ),
{
    let st1 = ParseState { scope: st.scope.push((param, None)), next_id: st.next_id };
    let m = st.scope.len() as int;
    let s1 = st1.scope;
    let s2 = st2.scope;
    let st3 = ParseState { scope: s2.drop_last(), next_id: st2.next_id };
    let s3 = st3.scope;
    let bv = s2.last().1;
    let lam = ExprView::Lambda(bv, Box::new(body));
    assert(s2[m].1 == bv);
    assert(s1[m].1 is None);
    assert forall|i: int| 0 <= i < st.scope.len() implies #[trigger] s3[i].0 == st.scope[i].0 && (st.scope[i].1 is Some
        ==> s3[i].1 == st.scope[i].1) by {
        assert(s1[i] == st.scope[i]);
        assert(s2[i].0 == s1[i].0);
    }
    assert forall|id: u64| #[trigger] loose_ids(lam).contains(id) implies scope_ids(s3).contains(id) by {
        assert(loose_ids(body).contains(id));
        let i = choose|i: int| 0 <= i < s2.len() && s2[i].1 == Some(id);
        if i == m {
            assert(bv == Some(id));
            assert(false);
        }
        assert(s3[i] == s2[i]);
    }
    assert forall|id: u64| #[trigger] new_ids(st.scope, s3).contains(id) implies new_ids(s1, s2).contains(id)
        && loose_ids(lam).contains(id) by {
        let i = choose|i: int|
            0 <= i < st.scope.len() && 0 <= i < s3.len() && st.scope[i].1 is None && s3[i].1 == Some(id);
        assert(s1[i] == st.scope[i]);
        assert(s3[i] == s2[i]);
        assert(new_ids(s1, s2).contains(id));
        if let Some(b) = bv {
            assert(s2[i].1 != s2[m].1);
        }
    }
    if let Some(b) = bv {
        assert(new_ids(s1, s2).contains(b));
        assert(scope_ids(s2).contains(b));
        assert(binder_ids(lam) == seq![b] + binder_ids(body));
        assert forall|k: int| 0 <= k < binder_ids(lam).len() implies st.next_id <= #[trigger] binder_ids(lam)[k]
            < st2.next_id && !scope_ids(s3).contains(binder_ids(lam)[k]) by {
            if k == 0 {
                assert(binder_ids(lam)[k] == b);
                if scope_ids(s3).contains(b) {
                    let i = choose|i: int| 0 <= i < s3.len() && s3[i].1 == Some(b);
                    assert(s3[i] == s2[i]);
                    assert(s2[i].1 != s2[m].1);
                }
            } else {
                assert(binder_ids(lam)[k] == binder_ids(body)[k - 1]);
                if scope_ids(s3).contains(binder_ids(body)[k - 1]) {
                    let i = choose|i: int| 0 <= i < s3.len() && s3[i].1 == Some(binder_ids(body)[k - 1]);
                    assert(s3[i] == s2[i]);
                    assert(scope_ids(s2).contains(binder_ids(body)[k - 1]));
                }
            }
        }
        assert(binder_ids(lam).no_duplicates()) by {
            assert forall|i: int, j: int| 0 <= i < j < binder_ids(lam).len() implies binder_ids(lam)[i]
                != binder_ids(lam)[j] by {
                if i == 0 {
                    assert(binder_ids(lam)[j] == binder_ids(body)[j - 1]);
                    assert(!scope_ids(s2).contains(binder_ids(body)[j - 1]));
                } else {
                    assert(binder_ids(lam)[i] == binder_ids(body)[i - 1]);
                    assert(binder_ids(lam)[j] == binder_ids(body)[j - 1]);
                }
            }
        }
    } else {
        assert(binder_ids(lam) == binder_ids(body));
        assert forall|k: int| 0 <= k < binder_ids(lam).len() implies st.next_id <= #[trigger] binder_ids(lam)[k]
            < st2.next_id && !scope_ids(s3).contains(binder_ids(lam)[k]) by {
            if scope_ids(s3).contains(binder_ids(body)[k]) {
                let i = choose|i: int| 0 <= i < s3.len() && s3[i].1 == Some(binder_ids(body)[k]);
                assert(s3[i] == s2[i]);
                assert(scope_ids(s2).contains(binder_ids(body)[k]));
            }
        }
    }
    assert(ids_sound(st3)) by {
        assert forall|i: int, j: int|
            0 <= i < s3.len() && 0 <= j < s3.len() && i != j && s3[i].1 is Some implies s3[i].1 != s3[j].1 by {
            assert(s3[i] == s2[i] && s3[j] == s2[j]);
        }
        assert forall|i: int, id: u64| 0 <= i < s3.len() && s3[i].1 == Some(id) implies id < st3.next_id by {
            assert(s3[i] == s2[i]);
        }
    }
}

proof fn lemma_lambda_scoped(st: ParseState, s: Seq<char>, pos: int)
    requires
        ready_at(st, s, pos),
    ensures
        parse_lambda_spec(st, s, pos) matches Ok((e, st2, p)) ==> step_ok(st, st2, e) && pos < p <= s.len()
            && st2.next_id <= p,
    decreases s.len() - pos, 0nat,
{
    lemma_skip_ws(s, pos);
    let p = skip_ws(s, pos);
    if 0 <= p < s.len() && s[p] == '\\' {
        lemma_parse_name(s, p + 1, false);
        if let Ok((param, q)) = parse_name(s, p + 1, false) {
            if !(q <= pos || q > s.len()) {
                let inner = ParseState { scope: st.scope.push((param, None)), next_id: st.next_id };
                assert(ids_sound(inner)) by {
                    assert forall|i: int, id: u64| 0 <= i < inner.scope.len() && inner.scope[i].1 == Some(id)
                        implies id < inner.next_id by {
                        assert(inner.scope[i] == st.scope[i]);
                    }
                    assert forall|i: int, j: int|
                        0 <= i < inner.scope.len() && 0 <= j < inner.scope.len() && i != j
                            && inner.scope[i].1 is Some implies inner.scope[i].1 != inner.scope[j].1 by {
                        assert(inner.scope[i] == st.scope[i]);
                        if j < st.scope.len() {
                            assert(inner.scope[j] == st.scope[j]);
                        }
                    }
                }
                lemma_inner_scoped(inner, inner, s, q, None);
                if let Ok((body, st2, r)) = parse_inner_spec(inner, s, q, None) {
                    lemma_close_lambda(st, param, st2, body);
                }
            }
        }
    }
}

proof fn lemma_inner_scoped(
    st0: ParseState,
    st: ParseState,
    s: Seq<char>,
    pos: int,
    prev: Option<ExprView>,
)
    requires
        ready_at(st, s, pos),
        match prev {
            None => st == st0,
            Some(a) => step_ok(st0, st, a),
        },
    ensures
        parse_inner_spec(st, s, pos, prev) matches Ok((e, st2, p)) ==> step_ok(st0, st2, e) && pos <= p
            <= s.len() && st2.next_id <= p,
    decreases s.len() - pos, 1nat,
{
    lemma_skip_ws(s, pos);
    let p = skip_ws(s, pos);
    if 0 <= p < s.len() {
        let c = s[p];
        if ascii_alphabetic(c) {
            lemma_var_scoped(st, s, p);
            if let Ok((e, st1, q)) = parse_var_spec(st, s, p) {
                if pos < q <= s.len() {
                    match prev {
                        Some(a) => lemma_compose(st0, st, st1, a, e),
                        None => {},
                    }
                    lemma_inner_scoped(st0, st1, s, q, Some(apply_to(prev, e)));
                }
            }
        } else if c == '\\' {
            lemma_lambda_scoped(st, s, p);
            if let Ok((e, st1, q)) = parse_lambda_spec(st, s, p) {
                if pos < q <= s.len() {
                    match prev {
                        Some(a) => lemma_compose(st0, st, st1, a, e),
                        None => {},
                    }
                    lemma_inner_scoped(st0, st1, s, q, Some(apply_to(prev, e)));
                }
            }
        } else if c == '(' {
            lemma_inner_scoped(st, st, s, p + 1, None);
            if let Ok((e, st1, q)) = parse_inner_spec(st, s, p + 1, None) {
                if q > pos && 0 <= q < s.len() && s[q] == ')' {
                    match prev {
                        Some(a) => lemma_compose(st0, st, st1, a, e),
                        None => {},
                    }
                    lemma_inner_scoped(st0, st1, s, q + 1, Some(apply_to(prev, e)));
                }
            }
        }
    }
}

/// Every expression that `Parser::parse` reads is well scoped: each bound variable lies
/// inside the lambda that binds it, no two lambdas share a bound variable, and a lambda
/// has a bound variable only when its body refers to it.
pub proof fn lemma_parse_well_scoped(s: Seq<char>)
    requires
        s.len() <= u64::MAX,
    ensures
        parse_spec(s) matches Ok(e) ==> well_scoped(e),
{
    let init = ParseState { scope: seq![], next_id: 0 };
    lemma_inner_scoped(init, init, s, 0, None);
    if let Ok((e, st2, p)) = parse_inner_spec(init, s, 0, None) {
        assert(loose_ids(e) =~= Set::<u64>::empty()) by {
            assert forall|id: u64| !loose_ids(e).contains(id) by {
                if loose_ids(e).contains(id) {
                    assert(scope_ids(st2.scope).contains(id));
                }
            }
        }
    }
}

proof fn lemma_scope_find_same_names(
    scope: Seq<(Seq<char>, Option<u64>)>,
    i: int,
    slot: Option<u64>,
    name: Seq<char>,
)
    requires
        0 <= i < scope.len(),
    ensures
        scope_find(scope.update(i, (scope[i].0, slot)), name) == scope_find(scope, name),
    decreases scope.len(),
{
    let s2 = scope.update(i, (scope[i].0, slot));
    assert(s2.last().0 == scope.last().0);
    if i < scope.len() - 1 {
        assert(s2.drop_last() =~= scope.drop_last().update(i, (scope[i].0, slot)));
        lemma_scope_find_same_names(scope.drop_last(), i, slot, name);
    } else {
        assert(s2.drop_last() =~= scope.drop_last());
    }
}

/// All occurrences of one parameter share one bound variable: once an occurrence has
/// given the parameter its id, a later occurrence of the same name in the same scope
/// reads that id and leaves the parse state as it is.
pub proof fn lemma_param_occurrences_share_id(st: ParseState, s: Seq<char>, pos: int, s2: Seq<char>, pos2: int)
    requires
        parse_var_spec(st, s, pos) matches Ok((e, _, _)) && e is BoundVar,
        parse_name(s2, pos2, true) is Ok,
        parse_name(s2, pos2, true)->Ok_0.0 == parse_name(s, pos, true)->Ok_0.0,
    ensures
        ({
            let (e, st2, _) = parse_var_spec(st, s, pos)->Ok_0;
            parse_var_spec(st2, s2, pos2) == Ok::<(ExprView, ParseState, int), ParseError>(
                (e, st2, parse_name(s2, pos2, true)->Ok_0.1),
            )
        }),
{
    let name = parse_name(s, pos, true)->Ok_0.0;
    lemma_scope_find(st.scope, name);
    let i = scope_find(st.scope, name)->Some_0;
    if st.scope[i].1 is None {
        let id = st.next_id as u64;
        lemma_scope_find_same_names(st.scope, i, Some(id), name);
        assert(st.scope.update(i, (name, Some(id))) == st.scope.update(i, (st.scope[i].0, Some(id))));
    }
}

proof fn lemma_name_end_all(s: Seq<char>, pos: int)
    requires
        0 <= pos <= s.len(),
        forall|i: int| pos <= i < s.len() ==> #[trigger] ascii_alphabetic(s[i]),
    ensures
        name_end(s, pos, true) == s.len(),
    decreases s.len() - pos,
{
    if pos < s.len() {
        assert(ascii_alphabetic(s[pos]));
        assert((s[pos] as u32) < 128);
        lemma_name_end_all(s, pos + 1);
    }
}

/// Every name made of ASCII letters, upper or lower case, reads as that free variable.
pub proof fn lemma_parse_letters(s: Seq<char>)
    requires
        s.len() > 0,
        forall|i: int| 0 <= i < s.len() ==> #[trigger] ascii_alphabetic(s[i]),
    ensures
        parse_spec(s) == Ok::<ExprView, ParseError>(ExprView::FreeVar(s)),
{
    assert(ascii_alphabetic(s[0]));
    assert(skip_ws(s, 0) == 0);
    lemma_name_end_all(s, 0);
    assert(s.subrange(0, s.len() as int) =~= s);
    let init = ParseState { scope: seq![], next_id: 0 };
    assert(scope_find(init.scope, s) is None);
    assert(parse_var_spec(init, s, 0) == Ok::<(ExprView, ParseState, int), ParseError>((ExprView::FreeVar(s), init, s.len() as int)));
    assert(skip_ws(s, s.len() as int) == s.len());
    assert(parse_inner_spec(init, s, s.len() as int, Some(ExprView::FreeVar(s))) == Ok::<(ExprView, ParseState, int), ParseError>((ExprView::FreeVar(s), init, s.len() as int)));
}

} // verus!
