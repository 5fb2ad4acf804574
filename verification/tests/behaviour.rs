use lambda_calculus::expr::{BoundVar, Expr, Lambda, Reducer};
use lambda_calculus::parser::Parser;
use lambda_calculus::substituer::{NamedExpr, Substituer};
use std::rc::Rc;

fn parse_ok(s: &str) -> Expr {
    Parser::parse(s).unwrap_or_else(|e| panic!("failed to parse {s:?}: {e}"))
}

fn parse_err(s: &str) -> String {
    match Parser::parse(s) {
        Ok(e) => panic!("{s:?} parsed to {}", e.render()),
        Err(m) => m,
    }
}

fn render(s: &str) -> String {
    parse_ok(s).render()
}

fn whnf_text(s: &str) -> String {
    Reducer::whnf(parse_ok(s)).expect("reduction finishes").render()
}

fn var(n: &str) -> NamedExpr {
    NamedExpr::Var(n.to_string())
}

fn lam(p: &str, b: NamedExpr) -> NamedExpr {
    NamedExpr::Lambda(p.to_string(), Box::new(b))
}

fn app(l: NamedExpr, r: NamedExpr) -> NamedExpr {
    NamedExpr::App(Box::new(l), Box::new(r))
}

// ---------- printing ----------

#[test]
fn render_names_binders_in_order() {
    assert_eq!(render("\\x x"), "\\a a");
    assert_eq!(render("\\x \\y y x"), "\\a \\b b a");
    assert_eq!(render("\\x \\x x"), "\\a \\b b");
}

#[test]
fn render_prefixes_free_variables_once() {
    assert_eq!(render("x"), "fv_x");
    assert_eq!(render("fv_x"), "fv_x");
    assert_eq!(render("\\x y"), "\\a fv_y");
}

#[test]
fn render_parenthesises_by_precedence() {
    assert_eq!(render("a (b c)"), "fv_a (fv_b fv_c)");
    assert_eq!(render("a b c"), "fv_a fv_b fv_c");
    assert_eq!(render("(\\x x) y"), "(\\a a) fv_y");
    assert_eq!(render("y (\\x x)"), "fv_y (\\a a)");
    assert_eq!(render("(\\x x) (\\y y)"), "(\\a a) (\\b b)");
}

#[test]
fn render_names_after_z_start_a_longer_run() {
    let mut src = String::new();
    for _ in 0..28 {
        src.push_str("\\x ");
    }
    src.push('x');
    let text = render(&src);
    assert!(text.starts_with("\\a \\b \\c"));
    assert!(text.ends_with("\\z \\aa \\ab ab"));
}

#[test]
fn render_unnamed_bound_variable_is_underscore() {
    let e = Expr::BoundVar(Rc::new(BoundVar::new(7)));
    assert_eq!(e.render(), "_");
}

#[test]
fn lambda_bound_var_can_be_set() {
    let bv = Rc::new(BoundVar::new(3));
    let mut l = Lambda::new(Expr::BoundVar(Rc::clone(&bv)));
    assert!(l.associated_bound_var().is_none());
    l.set_bound_var(Rc::clone(&bv));
    assert!(Rc::ptr_eq(&l.associated_bound_var().unwrap(), &bv));
    assert_eq!(Expr::Lambda(Rc::new(l)).render(), "\\a a");
}

// ---------- parsing: binders ----------

#[test]
fn binders_of_one_parse_are_distinct() {
    let e = parse_ok("\\x \\y x y");
    let Expr::Lambda(outer) = e else { panic!("expected lambda") };
    let Expr::Lambda(ref inner) = outer.body else { panic!("expected lambda") };
    let a = outer.associated_bound_var().unwrap();
    let b = inner.associated_bound_var().unwrap();
    assert_ne!(a.id, b.id);
}

#[test]
fn unicode_letters_continue_a_variable() {
    match parse_ok("xé_y") {
        Expr::FreeVar(fv) => assert_eq!(fv.name, "xé_y"),
        other => panic!("expected FreeVar, got {}", other.render()),
    }
    assert_eq!(parse_err("é"), "Unexpected symbol");
}

#[test]
fn each_reachable_error_message() {
    assert_eq!(parse_err("   "), "Expression not found");
    assert_eq!(parse_err("()"), "Didn't expect expr to finish");
    assert_eq!(parse_err(")a"), "Didn't expect expr to finish");
    assert_eq!(parse_err("(a b"), "Expected )");
    assert_eq!(parse_err("a $"), "Unexpected symbol");
    assert_eq!(parse_err("a)"), "Unexpected char");
    assert_eq!(parse_err("\\ "), "Expected variable");
    assert_eq!(parse_err("\\x"), "Expression not found");
}

// ---------- reduction ----------

#[test]
fn whnf_applies_the_identity() {
    assert_eq!(whnf_text("(\\x x) y"), "fv_y");
}

#[test]
fn whnf_selects_the_first_argument() {
    assert_eq!(whnf_text("(\\x \\y x) a b"), "fv_a");
    assert_eq!(whnf_text("(\\x \\y y) a b"), "fv_b");
}

#[test]
fn whnf_stops_at_a_lambda() {
    assert_eq!(whnf_text("\\x (\\y y) x"), "\\a (\\b b) a");
}

#[test]
fn whnf_suspends_a_lambda_with_an_environment() {
    assert_eq!(whnf_text("(\\x \\y x) a"), "<unevaluated-thunk>");
}

#[test]
fn whnf_leaves_a_stuck_application_with_a_suspended_argument() {
    assert_eq!(whnf_text("x y"), "fv_x <unevaluated-thunk>");
    assert_eq!(whnf_text("(\\z z) x y"), "fv_x <unevaluated-thunk>");
}

#[test]
fn whnf_discards_an_unused_argument() {
    assert_eq!(whnf_text("(\\x y) ((\\z z z) (\\z z z))"), "fv_y");
}

#[test]
fn forcing_a_suspension() {
    let e = Reducer::whnf(parse_ok("(\\x \\y x) a")).unwrap();
    let Expr::Thunk(t) = e else { panic!("expected a suspension") };
    assert!(t.force(), "forcing finishes");
    // forcing again finds the stored result
    assert!(t.force(), "forcing finishes");
    let text = Reducer::whnf(Expr::App(Box::new(Expr::Thunk(t.clone())), Box::new(parse_ok("b"))))
        .unwrap()
        .render();
    assert_eq!(text, "fv_a");
}

// ---------- substitution ----------

#[test]
fn substitute_replaces_a_free_variable() {
    let mut s = Substituer::new();
    let r = s.substitute("x", &app(var("x"), var("z")), &var("y"));
    assert!(matches!(r, NamedExpr::App(ref l, _) if matches!(**l, NamedExpr::Var(ref n) if n == "y")));
}

#[test]
fn substitute_stops_at_a_binder_of_the_same_name() {
    let mut s = Substituer::new();
    let r = s.substitute("x", &lam("x", var("x")), &var("y"));
    match r {
        NamedExpr::Lambda(p, b) => {
            assert_eq!(p, "x");
            assert!(matches!(*b, NamedExpr::Var(ref n) if n == "x"));
        }
        other => panic!("expected lambda, got {other:?}"),
    }
}

#[test]
fn substitute_renames_a_capturing_binder() {
    let mut s = Substituer::new();
    // (\x x y)[y := x] = \x1 x1 x
    let r = s.substitute("y", &lam("x", app(var("x"), var("y"))), &var("x"));
    match r {
        NamedExpr::Lambda(p, b) => {
            assert_eq!(p, "x1");
            match *b {
                NamedExpr::App(l, r) => {
                    assert!(matches!(*l, NamedExpr::Var(ref n) if n == "x1"));
                    assert!(matches!(*r, NamedExpr::Var(ref n) if n == "x"));
                }
                other => panic!("expected application, got {other:?}"),
            }
        }
        other => panic!("expected lambda, got {other:?}"),
    }
    // the counter goes on: the next renaming uses 2
    let r2 = s.substitute("y", &lam("x", var("y")), &var("x"));
    assert!(matches!(r2, NamedExpr::Lambda(ref p, _) if p == "x2"));
}

#[test]
fn substitute_renames_again_when_the_fresh_name_is_taken() {
    let mut s = Substituer::new();
    // the value mentions both x and x1, so x is renamed to x1 and then to x12
    let r = s.substitute("y", &lam("x", var("y")), &app(var("x"), var("x1")));
    assert!(matches!(r, NamedExpr::Lambda(ref p, _) if p == "x12"));
}

fn free_vars(e: &NamedExpr, bound: &mut Vec<String>, out: &mut Vec<String>) {
    match e {
        NamedExpr::Var(n) => {
            if !bound.contains(n) && !out.contains(n) {
                out.push(n.clone());
            }
        }
        NamedExpr::Lambda(p, b) => {
            bound.push(p.clone());
            free_vars(b, bound, out);
            bound.pop();
        }
        NamedExpr::App(l, r) => {
            free_vars(l, bound, out);
            free_vars(r, bound, out);
        }
    }
}

fn sorted_free_vars(e: &NamedExpr) -> Vec<String> {
    let mut out = Vec::new();
    free_vars(e, &mut Vec::new(), &mut out);
    out.sort();
    out
}

fn node_count(e: &NamedExpr) -> usize {
    match e {
        NamedExpr::Var(_) => 1,
        NamedExpr::Lambda(_, b) => 1 + node_count(b),
        NamedExpr::App(l, r) => 1 + node_count(l) + node_count(r),
    }
}

#[test]
fn substitution_keeps_the_free_variables_of_the_value_free() {
    let mut s = Substituer::new();
    // (\x \w x y w)[y := x z]: x must stay free in the result
    let e = lam("x", lam("w", app(app(var("x"), var("y")), var("w"))));
    let r = s.substitute("y", &e, &app(var("x"), var("z")));
    assert_eq!(sorted_free_vars(&r), vec!["x".to_string(), "z".to_string()]);
    assert_eq!(format!("{:?}", r), format!("{:?}", lam("x1", lam("w", app(app(var("x1"), app(var("x"), var("z"))), var("w"))))));
}

#[test]
fn substitution_leaves_free_variables_when_the_variable_is_absent() {
    let mut s = Substituer::new();
    let e = lam("x", app(var("x"), var("y")));
    let r = s.substitute("q", &e, &var("x"));
    // the binder is still renamed, but the free variables stay as they were
    assert_eq!(sorted_free_vars(&r), vec!["y".to_string()]);
    assert_eq!(format!("{:?}", r), format!("{:?}", lam("x1", app(var("x1"), var("y")))));
}

#[test]
fn substituting_a_variable_for_itself_changes_nothing() {
    let mut s = Substituer::new();
    let e = lam("x", app(lam("y", app(var("y"), var("x"))), var("y")));
    let r = s.substitute("y", &e, &var("y"));
    assert_eq!(format!("{:?}", r), format!("{:?}", e));
    // no fresh name was handed out: the next renaming still uses 1
    let r2 = s.substitute("y", &lam("x", var("y")), &var("x"));
    assert!(matches!(r2, NamedExpr::Lambda(ref p, _) if p == "x1"));
}

#[test]
fn substituting_for_an_unused_variable_without_capture_changes_nothing() {
    let mut s = Substituer::new();
    let e = lam("x", app(var("x"), var("y")));
    let r = s.substitute("q", &e, &var("z"));
    assert_eq!(format!("{:?}", r), format!("{:?}", e));
}

#[test]
fn substituting_a_variable_keeps_the_size() {
    let mut s = Substituer::new();
    let e = lam("x", app(lam("y", app(var("x"), var("y"))), var("z")));
    let r = s.substitute("z", &e, &var("x"));
    assert_eq!(node_count(&r), node_count(&e));
    assert_eq!(format!("{:?}", r), format!("{:?}", lam("x1", app(lam("y", app(var("x1"), var("y"))), var("x")))));
}

#[test]
fn a_fresh_name_can_meet_a_name_ending_in_a_digit() {
    let mut s = Substituer::new();
    // (\x x x1)[y := x]: the fresh name x1 is already free in the body and is captured
    let e = lam("x", app(var("x"), var("x1")));
    let r = s.substitute("y", &e, &var("x"));
    assert_eq!(format!("{:?}", r), format!("{:?}", lam("x1", app(var("x1"), var("x1")))));
    assert!(sorted_free_vars(&r).is_empty());
}

#[test]
fn whnf_of_a_parse_is_a_value_or_a_suspended_lambda() {
    for src in ["\\x x", "x y z", "(\\x \\y x) a", "(\\f f f) (\\x x)", "(\\x x) (\\y y) z"] {
        let e = Reducer::whnf(parse_ok(src)).unwrap();
        let mut head = &e;
        while let Expr::App(l, _) = head {
            head = l;
        }
        let ok = match head {
            Expr::Lambda(_) | Expr::BoundVar(_) | Expr::FreeVar(_) => true,
            Expr::Thunk(_) => std::ptr::eq(head, &e),
            Expr::App(..) => false,
        };
        assert!(ok, "{src:?} reduced to {}", e.render());
    }
}

#[test]
fn a_lambda_active_twice_sees_its_later_binding() {
    // substitution would give `b a`; the environment machine gives `a` applied to `a`
    let e = Reducer::whnf(parse_ok("(\\l l b (l a)) (\\x \\g g x)")).unwrap();
    assert_eq!(e.render(), "fv_a <unevaluated-thunk>");
    let Expr::App(_, arg) = e else { panic!("expected an application") };
    let arg_text = Reducer::whnf(*arg).unwrap().render();
    assert_eq!(arg_text, "fv_a");
}
