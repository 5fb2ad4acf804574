# lambda_calculus

A parser, printer and lazy weak-head reducer for the untyped lambda calculus, with
substitution on named terms that renames capturing binders, each function proved
against its specification.
Substitution is proved to avoid capture when no name in the terms ends in a number that
a fresh name may take (`lemma_subst_free_vars`); a fresh name such as `x1` can still meet
a name `x1` that is already there, and then it captures it.

- `src/expr.rs`: terms (bound variables identified by id, free variables, lambdas,
  applications, suspended computations), their views, and the lazy environment machine
  (`Thunk::force`, `Reducer::whnf`) specified by `force_spec` and `reduce_spec`. A
  suspension keeps what forcing it gives in a cell (`vstd::cell::invcell::InvCell`) whose
  invariant says that a stored value is what `force_spec` gives; a later force reads the
  stored value. The reducer keys environments by binder ids, so a lambda active twice at
  once sees its later binding (see `reduce_spec`).
- `src/parser.rs`: `Parser::parse`, specified by `parse_spec` over the input characters.
- `src/print.rs`: `Expr::render`, specified by `render_spec`.
- `src/substituer.rs`: `Substituer::substitute` on named terms, specified by `subst_spec`.
- `src/scoping.rs`, `src/normal_form.rs`, `src/subst_laws.rs`: proved properties of parsing
  (well-scoped results), reduction (results in weak head normal form) and substitution
  (capture avoidance under the naming condition above, identities, size).
- `src/text.rs`: character and string helpers.
- `app/main.rs`: reads one line, prints the parsed term and its weak head normal form.
