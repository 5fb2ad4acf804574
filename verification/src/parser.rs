use crate::expr::{opt_view, rc_clone, BoundVar, Expr, ExprView, FreeVar, Lambda};
use crate::text::{
    ascii_alphabetic, ascii_whitespace, chars_eq, chars_of, copy_chars, is_alphabetic,
    is_ascii_alphabetic, is_ascii_whitespace, string_from_chars, unicode_alphabetic,
};
use crate::scoping::{lemma_parse_well_scoped, well_scoped};
use std::rc::Rc;
use vstd::prelude::*;

verus! {

/// Why a line is not an expression.
#[derive(Debug, Clone, Copy, PartialEq, Eq, Structural)]
pub enum ParseError {
    /// A name was expected and none stands there.
    ExpectedVariable,
    /// A lambda does not start with `\`.
    ExpectedBackslash,
    /// A `)` stands where an expression should begin.
    UnexpectedClose,
    /// A `(` is not matched by a `)`.
    ExpectedClose,
    /// A character that can begin no expression.
    UnexpectedSymbol,
    /// The input holds no expression.
    ExpressionNotFound,
    /// The expression is followed by a `)` that closes nothing.
    UnexpectedChar,
}

/// The message that each parse error is reported with.
pub open spec fn message_spec(e: ParseError) -> Seq<char> {
    match e {
        ParseError::ExpectedVariable => "Expected variable"@,
        ParseError::ExpectedBackslash => "Expected \\"@,
        ParseError::UnexpectedClose => "Didn't expect expr to finish"@,
        ParseError::ExpectedClose => "Expected )"@,
        ParseError::UnexpectedSymbol => "Unexpected symbol"@,
        ParseError::ExpressionNotFound => "Expression not found"@,
        ParseError::UnexpectedChar => "Unexpected char"@,
    }
}

impl ParseError {
    pub fn message(&self) -> (res: String)
        ensures
            res@ == message_spec(*self),
    {
        match self {
            ParseError::ExpectedVariable => String::from_str("Expected variable"),
            ParseError::ExpectedBackslash => String::from_str("Expected \\"),
            ParseError::UnexpectedClose => String::from_str("Didn't expect expr to finish"),
            ParseError::ExpectedClose => String::from_str("Expected )"),
            ParseError::UnexpectedSymbol => String::from_str("Unexpected symbol"),
            ParseError::ExpressionNotFound => String::from_str("Expression not found"),
            ParseError::UnexpectedChar => String::from_str("Unexpected char"),
        }
    }
}

/// What a parse knows while it runs: the parameters in scope, innermost last, each with
/// the id of its bound variable once an occurrence has been met; and the next id to give.
pub struct ParseState {
    pub scope: Seq<(Seq<char>, Option<u64>)>,
    pub next_id: nat,
}

/// The first position at or after `pos` that holds no ASCII whitespace.
pub open spec fn skip_ws(s: Seq<char>, pos: int) -> int
    decreases s.len() - pos,
{
    if 0 <= pos < s.len() && ascii_whitespace(s[pos]) {
        skip_ws(s, pos + 1)
    } else {
        pos
    }
}

/// Parameters are made of ASCII letters; variables of letters (Unicode `Alphabetic`,
/// which among ASCII characters are the letters `A` to `Z` and `a` to `z`) and `_`.
pub open spec fn name_char(c: char, var_chars: bool) -> bool {
    if var_chars {
        (if (c as u32) < 128 {
            ascii_alphabetic(c)
        } else {
            unicode_alphabetic(c)
        }) || c == '_'
    } else {
        ascii_alphabetic(c)
    }
}

/// The end of the run of name characters that starts at `pos`.
pub open spec fn name_end(s: Seq<char>, pos: int, var_chars: bool) -> int
    decreases s.len() - pos,
{
    if 0 <= pos < s.len() && name_char(s[pos], var_chars) {
        name_end(s, pos + 1, var_chars)
    } else {
        pos
    }
}

/// A name after optional whitespace, and the position after it.
pub open spec fn parse_name(s: Seq<char>, pos: int, var_chars: bool) -> Result<
    (Seq<char>, int),
    ParseError,
> {
    let p = skip_ws(s, pos);
    let e = name_end(s, p, var_chars);
    if e == p {
        Err(ParseError::ExpectedVariable)
    } else {
        Ok((s.subrange(p, e), e))
    }
}

/// The innermost scope entry for `name`.
pub open spec fn scope_find(scope: Seq<(Seq<char>, Option<u64>)>, name: Seq<char>) -> Option<int>
    decreases scope.len(),
{
    if scope.len() == 0 {
        None
    } else if scope.last().0 == name {
        Some(scope.len() - 1)
    } else {
        scope_find(scope.drop_last(), name)
    }
}

/// A variable: a bound variable when a parameter in scope has its name (the first
/// occurrence of a parameter gives it a bound variable with a new id), else a free one.
pub open spec fn parse_var_spec(st: ParseState, s: Seq<char>, pos: int) -> Result<
    (ExprView, ParseState, int),
    ParseError,
> {
    match parse_name(s, pos, true) {
        Err(k) => Err(k),
        Ok((name, p)) => match scope_find(st.scope, name) {
            Some(i) => match st.scope[i].1 {
                Some(id) => Ok((ExprView::BoundVar(id), st, p)),
                None => {
                    let id = st.next_id as u64;
                    Ok(
                        (
                            ExprView::BoundVar(id),
                            ParseState {
                                scope: st.scope.update(i, (name, Some(id))),
                                next_id: st.next_id + 1,
                            },
                            p,
                        ),
                    )
                },
            },
            None => Ok((ExprView::FreeVar(name), st, p)),
        },
    }
}

pub open spec fn apply_to(prev: Option<ExprView>, e: ExprView) -> ExprView {
    match prev {
        Some(f) => ExprView::App(Box::new(f), Box::new(e)),
        None => e,
    }
}

/// A lambda: `\`, a parameter, and a body that reaches as far right as it can. The
/// parameter is in scope in the body only, and shadows outer ones of the same name.
pub open spec fn parse_lambda_spec(st: ParseState, s: Seq<char>, pos: int) -> Result<
    (ExprView, ParseState, int),
    ParseError,
>
    decreases s.len() - pos, 0nat,
{
    let p = skip_ws(s, pos);
    if !(0 <= p < s.len() && s[p] == '\\') {
        Err(ParseError::ExpectedBackslash)
    } else {
        match parse_name(s, p + 1, false) {
            Err(k) => Err(k),
            Ok((param, q)) => {
                if q <= pos || q > s.len() {
                    Err(ParseError::ExpectedVariable)
                } else {
                    let inner = ParseState { scope: st.scope.push((param, None)), next_id: st.next_id };
                    match parse_inner_spec(inner, s, q, None) {
                        Err(k) => Err(k),
                        Ok((body, st2, r)) => Ok(
                            (
                                ExprView::Lambda(st2.scope.last().1, Box::new(body)),
                                ParseState { scope: st2.scope.drop_last(), next_id: st2.next_id },
                                r,
                            ),
                        ),
                    }
                }
            },
        }
    }
}

/// A sequence of terms applied left to right, after the terms `prev` read so far; it
/// ends at the end of the input or before a `)`.
pub open spec fn parse_inner_spec(
    st: ParseState,
    s: Seq<char>,
    pos: int,
    prev: Option<ExprView>,
) -> Result<(ExprView, ParseState, int), ParseError>
    decreases s.len() - pos, 1nat,
{
    let p = skip_ws(s, pos);
    if !(0 <= p < s.len()) {
        match prev {
            Some(e) => Ok((e, st, p)),
            None => Err(ParseError::ExpressionNotFound),
        }
    } else if pos < 0 || p < pos {
        Err(ParseError::ExpressionNotFound)
    } else {
        let c = s[p];
        if ascii_alphabetic(c) {
            match parse_var_spec(st, s, p) {
                Err(k) => Err(k),
                Ok((e, st1, q)) => if pos < q <= s.len() {
                    parse_inner_spec(st1, s, q, Some(apply_to(prev, e)))
                } else {
                    Err(ParseError::ExpectedVariable)
                },
            }
        } else if c == '\\' {
            match parse_lambda_spec(st, s, p) {
                Err(k) => Err(k),
                Ok((e, st1, q)) => if pos < q <= s.len() {
                    parse_inner_spec(st1, s, q, Some(apply_to(prev, e)))
                } else {
                    Err(ParseError::ExpectedVariable)
                },
            }
        } else if c == ')' {
            match prev {
                Some(e) => Ok((e, st, p)),
                None => Err(ParseError::UnexpectedClose),
            }
        } else if c == '(' {
            match parse_inner_spec(st, s, p + 1, None) {
                Err(k) => Err(k),
                Ok((e, st1, q)) => if q > pos && 0 <= q < s.len() && s[q] == ')' {
                    parse_inner_spec(st1, s, q + 1, Some(apply_to(prev, e)))
                } else {
                    Err(ParseError::ExpectedClose)
                },
            }
        } else {
            Err(ParseError::UnexpectedSymbol)
        }
    }
}

/// A whole line: an expression, and nothing after it.
pub open spec fn parse_spec(s: Seq<char>) -> Result<ExprView, ParseError> {
    match parse_inner_spec(ParseState { scope: seq![], next_id: 0 }, s, 0, None) {
        Err(k) => Err(k),
        Ok((e, _, p)) => if p < s.len() {
            Err(ParseError::UnexpectedChar)
        } else {
            Ok(e)
        },
    }
}


pub proof fn lemma_skip_ws(s: Seq<char>, pos: int)
    requires
        0 <= pos <= s.len(),
    ensures
        pos <= skip_ws(s, pos) <= s.len(),
        skip_ws(s, pos) < s.len() ==> !ascii_whitespace(s[skip_ws(s, pos)]),
    decreases s.len() - pos,
{
    if pos < s.len() && ascii_whitespace(s[pos]) {
        lemma_skip_ws(s, pos + 1);
    }
}

pub proof fn lemma_name_end(s: Seq<char>, pos: int, var_chars: bool)
    requires
        0 <= pos <= s.len(),
    ensures
        pos <= name_end(s, pos, var_chars) <= s.len(),
    decreases s.len() - pos,
{
    if pos < s.len() && name_char(s[pos], var_chars) {
        lemma_name_end(s, pos + 1, var_chars);
    }
}

/// `after` has the entries of `before`, in order and with their names; a parameter
/// whose bound variable was made keeps it.
pub open spec fn scope_kept(
    before: Seq<(Seq<char>, Option<u64>)>,
    after: Seq<(Seq<char>, Option<u64>)>,
) -> bool {
    &&& after.len() == before.len()
    &&& forall|i: int|
        0 <= i < before.len() ==> #[trigger] after[i].0 == before[i].0 && (before[i].1 is Some ==> after[i].1
            == before[i].1)
}

/// A parameter in scope.
struct Param {
    name: Vec<char>,
    bound_var: Option<Rc<BoundVar>>,
}

/// A free variable met before in this parse; later occurrences share it.
struct Interned {
    name: Vec<char>,
    var: Rc<FreeVar>,
}

/// The free variables met before stay, in their places; new ones come after them.
spec fn free_vars_kept(before: Seq<Interned>, after: Seq<Interned>) -> bool {
    &&& before.len() <= after.len()
    &&& forall|i: int| 0 <= i < before.len() ==> #[trigger] after[i] == before[i]
}

spec fn param_view(p: Param) -> (Seq<char>, Option<u64>) {
    (
        p.name@,
        match p.bound_var {
            Some(b) => Some(b.id),
            None => None,
        },
    )
}

/// Reads expressions from text.
pub struct Parser {
    params: Vec<Param>,
    free_vars: Vec<Interned>,
    next_id: u64,
}

impl Parser {
    spec fn view(&self) -> ParseState {
        ParseState { scope: self.params@.map_values(|p: Param| param_view(p)), next_id: self.next_id as nat }
    }

    spec fn wf(&self) -> bool {
        forall|i: int| 0 <= i < self.free_vars@.len() ==> #[trigger] self.free_vars@[i].var.name@ == self.free_vars@[i].name@
    }

    fn new() -> (res: Self)
        ensures
            res.view() == (ParseState { scope: seq![], next_id: 0 }),
            res.wf(),
    {
        let res = Parser { params: Vec::new(), free_vars: Vec::new(), next_id: 0 };
        assert(res.view().scope =~= seq![]);
        res
    }

    fn try_skip_whitespace(code: &Vec<char>, pos: &mut usize)
        requires
            *old(pos) <= code@.len(),
        ensures
            *final(pos) == skip_ws(code@, *old(pos) as int),
            *final(pos) <= code@.len(),
    {
        proof {
            lemma_skip_ws(code@, *pos as int);
        }
        while *pos < code.len() && is_ascii_whitespace(code[*pos])
            invariant
                *pos <= code@.len(),
                skip_ws(code@, *pos as int) == skip_ws(code@, *old(pos) as int),
            decreases code@.len() - *pos,
        {
            *pos = *pos + 1;
        }
    }

    fn try_skip_whitespace_peek(code: &Vec<char>, pos: &mut usize) -> (res: Option<char>)
        requires
            *old(pos) <= code@.len(),
        ensures
            *final(pos) == skip_ws(code@, *old(pos) as int),
            *final(pos) <= code@.len(),
            res == (if *final(pos) < code@.len() { Some(code@[*final(pos) as int]) } else { None::<char> }),
    {
        Self::try_skip_whitespace(code, pos);
        if *pos < code.len() {
            Some(code[*pos])
        } else {
            None
        }
    }

    fn parse_param_string(code: &Vec<char>, pos: &mut usize) -> (res: Result<Vec<char>, ParseError>)
        requires
            *old(pos) <= code@.len(),
        ensures
            *final(pos) <= code@.len(),
            match parse_name(code@, *old(pos) as int, false) {
                Ok((n, p)) => res matches Ok(v) && v@ == n && *final(pos) == p,
                Err(k) => res == Err::<Vec<char>, ParseError>(k) && *final(pos) == skip_ws(code@, *old(pos) as int),
            },
    {
        Self::parse_string(code, pos, false)
    }

    fn parse_var_string(code: &Vec<char>, pos: &mut usize) -> (res: Result<Vec<char>, ParseError>)
        requires
            *old(pos) <= code@.len(),
        ensures
            *final(pos) <= code@.len(),
            match parse_name(code@, *old(pos) as int, true) {
                Ok((n, p)) => res matches Ok(v) && v@ == n && *final(pos) == p,
                Err(k) => res == Err::<Vec<char>, ParseError>(k) && *final(pos) == skip_ws(code@, *old(pos) as int),
            },
    {
        Self::parse_string(code, pos, true)
    }

    /// A name made of the characters that `var_chars` selects (see `name_char`).
    fn parse_string(code: &Vec<char>, pos: &mut usize, var_chars: bool) -> (res: Result<
        Vec<char>,
        ParseError,
    >)
        requires
            *old(pos) <= code@.len(),
        ensures
            *final(pos) <= code@.len(),
            match parse_name(code@, *old(pos) as int, var_chars) {
                Ok((n, p)) => res matches Ok(v) && v@ == n && *final(pos) == p,
                Err(k) => res == Err::<Vec<char>, ParseError>(k) && *final(pos) == skip_ws(code@, *old(pos) as int),
            },
    {
        Self::try_skip_whitespace(code, pos);
        let start = *pos;
        proof {
            lemma_name_end(code@, start as int, var_chars);
        }
        let mut var: Vec<char> = Vec::new();
        loop
            invariant
                start <= *pos <= code@.len(),
                start == skip_ws(code@, *old(pos) as int),
                name_end(code@, *pos as int, var_chars) == name_end(code@, start as int, var_chars),
                var@ == code@.subrange(start as int, *pos as int),
            ensures
                start <= *pos <= code@.len(),
                name_end(code@, *pos as int, var_chars) == *pos as int,
                name_end(code@, *pos as int, var_chars) == name_end(code@, start as int, var_chars),
                var@ == code@.subrange(start as int, *pos as int),
            decreases code@.len() - *pos,
        {
            if *pos >= code.len() {
                break;
            }
            let c = code[*pos];
            let accepted = if var_chars {
                is_alphabetic(c) || c == '_'
            } else {
                is_ascii_alphabetic(c)
            };
            if !accepted {
                break;
            }
            var.push(c);
            *pos = *pos + 1;
            assert(var@ == code@.subrange(start as int, *pos as int));
        }
        if var.len() > 0 {
            Ok(var)
        } else {
            Err(ParseError::ExpectedVariable)
        }
    }

    /// Where the parse of a variable or lambda may begin.
    spec fn ready(&self, code: Seq<char>, pos: int) -> bool {
        &&& self.wf()
        &&& self.next_id <= pos <= code.len()
    }

    /// A variable (see `parse_var_spec`); every occurrence of a free variable's name in
    /// one parse shares one `FreeVar`.
    fn parse_var(&mut self, code: &Vec<char>, pos: &mut usize) -> (res: Result<Expr, ParseError>)
        requires
            old(self).ready(code@, *old(pos) as int),
        ensures
            *final(pos) <= code@.len(),
            final(self).wf(),
            final(self).params@.len() == old(self).params@.len(),
            scope_kept(old(self).view().scope, final(self).view().scope),
            free_vars_kept(old(self).free_vars@, final(self).free_vars@),
            !(res matches Ok(Expr::FreeVar(_))) ==> final(self).free_vars@ == old(self).free_vars@,
            res is Err ==> *final(pos) == skip_ws(code@, *old(pos) as int) && final(self).view() == old(self).view(),
            match parse_var_spec(old(self).view(), code@, *old(pos) as int) {
                Ok((e, st, p)) => {
                    &&& res matches Ok(r) && r.view() == e
                    &&& final(self).view() == st
                    &&& *final(pos) == p
                    &&& *old(pos) < *final(pos)
                    &&& final(self).next_id <= *final(pos)
                },
                Err(k) => res == Err::<Expr, ParseError>(k),
            },
    {
        let ghost pos0 = *pos as int;
        proof {
            lemma_skip_ws(code@, pos0);
            lemma_name_end(code@, skip_ws(code@, pos0), true);
        }
        let name = Self::parse_var_string(code, pos)?;
        let ghost scope = self.view().scope;
        let mut i = self.params.len();
        let mut found: Option<usize> = None;
        assert(scope.take(i as int) == scope);
        while i > 0
            invariant_except_break
                found is None,
            invariant
                i <= self.params@.len(),
                scope == self.view().scope,
                scope_find(scope, name@) == scope_find(scope.take(i as int), name@),
            ensures
                match found {
                    Some(j) => j < self.params@.len() && scope_find(scope, name@) == Some(j as int)
                        && scope[j as int].0 == name@,
                    None => scope_find(scope, name@) is None,
                },
            decreases i,
        {
            assert(scope.take(i as int).drop_last() == scope.take(i - 1));
            if chars_eq(&self.params[i - 1].name, &name) {
                assert(scope.take(i as int).last().0 == name@);
                found = Some(i - 1);
                break;
            }
            i = i - 1;
        }
        proof {
            if found is None {
                assert(scope.take(0) == Seq::<(Seq<char>, Option<u64>)>::empty());
            }
        }
        match found {
            Some(j) => {
                let existing: Option<Rc<BoundVar>> = match &self.params[j].bound_var {
                    Some(b) => Some(rc_clone(b)),
                    None => None,
                };
                match existing {
                    Some(bv) => Ok(Expr::BoundVar(bv)),
                    None => {
                        let bv = Rc::new(BoundVar::new(self.next_id));
                        self.next_id = self.next_id + 1;
                        let ghost name_v = name@;
                        self.params.set(j, Param { name, bound_var: Some(rc_clone(&bv)) });
                        assert(self.view().scope =~= scope.update(j as int, (name_v, Some(bv.id))));
                        Ok(Expr::BoundVar(bv))
                    },
                }
            },
            None => {
                let mut k: usize = 0;
                #[verifier::loop_isolation(false)]
                while k < self.free_vars.len()
                    invariant
                        k <= self.free_vars@.len(),
                        self.wf(),
                    decreases self.free_vars@.len() - k,
                {
                    if chars_eq(&self.free_vars[k].name, &name) {
                        return Ok(Expr::FreeVar(rc_clone(&self.free_vars[k].var)));
                    }
                    k = k + 1;
                }
                let fv = Rc::new(FreeVar { name: string_from_chars(copy_chars(&name)) });
                let ghost old_free = self.free_vars@;
                self.free_vars.push(Interned { name, var: rc_clone(&fv) });
                assert forall|i: int| 0 <= i < self.free_vars@.len() implies #[trigger] self.free_vars@[i].var.name@
                    == self.free_vars@[i].name@ by {
                    if i < old_free.len() {
                        assert(self.free_vars@[i] == old_free[i]);
                    }
                }
                Ok(Expr::FreeVar(fv))
            },
        }
    }

    /// A lambda (see `parse_lambda_spec`).
    fn parse_lambda(&mut self, code: &Vec<char>, pos: &mut usize) -> (res: Result<Expr, ParseError>)
        requires
            old(self).ready(code@, *old(pos) as int),
        ensures
            *final(pos) <= code@.len(),
            final(self).wf(),
            final(self).params@.len() == old(self).params@.len(),
            scope_kept(old(self).view().scope, final(self).view().scope),
            free_vars_kept(old(self).free_vars@, final(self).free_vars@),
            ({
                let p = skip_ws(code@, *old(pos) as int);
                &&& !(p < code@.len() && code@[p] == '\\') ==> res == Err::<Expr, ParseError>(
                    ParseError::ExpectedBackslash,
                ) && *final(pos) == (if p < code@.len() { p + 1 } else { p })
                &&& (p < code@.len() && code@[p] == '\\' && parse_name(code@, p + 1, false) is Err)
                    ==> *final(pos) == skip_ws(code@, p + 1)
            }),
            match parse_lambda_spec(old(self).view(), code@, *old(pos) as int) {
                Ok((e, st, p)) => {
                    &&& res matches Ok(r) && r.view() == e
                    &&& final(self).view() == st
                    &&& *final(pos) == p
                    &&& *old(pos) < *final(pos)
                    &&& final(self).next_id <= *final(pos)
                },
                Err(k) => res == Err::<Expr, ParseError>(k),
            },
        decreases code@.len() - *old(pos), 0nat,
    {
        let ghost pos0 = *pos as int;
        proof {
            lemma_skip_ws(code@, pos0);
        }
        Self::try_skip_whitespace(code, pos);
        if *pos >= code.len() {
            return Err(ParseError::ExpectedBackslash);
        }
        let c = code[*pos];
        *pos = *pos + 1;
        if c != '\\' {
            return Err(ParseError::ExpectedBackslash);
        }
        proof {
            lemma_skip_ws(code@, *pos as int);
            lemma_name_end(code@, skip_ws(code@, *pos as int), false);
        }
        let param = Self::parse_param_string(code, pos)?;
        let ghost st = self.view();
        let ghost param_v = param@;
        self.params.push(Param { name: param, bound_var: None });
        assert(self.view().scope =~= st.scope.push((param_v, None)));
        let parsed = self.parse_inner(code, pos);
        let ghost inner_state = self.view();
        let top = self.params.pop().unwrap();
        assert(inner_state.scope.drop_last() =~= self.view().scope);
        assert(inner_state.scope.last() == param_view(top));
        proof {
            let pushed = st.scope.push((param_v, None));
            assert forall|i: int| 0 <= i < st.scope.len() implies #[trigger] self.view().scope[i].0 == st.scope[i].0
                && (st.scope[i].1 is Some ==> self.view().scope[i].1 == st.scope[i].1) by {
                assert(self.view().scope[i] == inner_state.scope[i]);
                assert(pushed[i] == st.scope[i]);
            }
            assert(scope_kept(st.scope, self.view().scope));
        }
        let body = parsed?;
        let mut lambda = Lambda::new(body);
        if let Some(bv) = top.bound_var {
            lambda.set_bound_var(bv);
        }
        Ok(Expr::Lambda(Rc::new(lambda)))
    }

    /// Terms applied left to right, up to the end of the input or a `)` that is left
    /// unread (see `parse_inner_spec`).
    fn parse_inner(&mut self, code: &Vec<char>, pos: &mut usize) -> (res: Result<Expr, ParseError>)
        requires
            old(self).ready(code@, *old(pos) as int),
        ensures
            *final(pos) <= code@.len(),
            final(self).wf(),
            final(self).params@.len() == old(self).params@.len(),
            scope_kept(old(self).view().scope, final(self).view().scope),
            free_vars_kept(old(self).free_vars@, final(self).free_vars@),
            match parse_inner_spec(old(self).view(), code@, *old(pos) as int, None) {
                Ok((e, st, p)) => {
                    &&& res matches Ok(r) && r.view() == e
                    &&& final(self).view() == st
                    &&& *final(pos) == p
                    &&& *old(pos) <= *final(pos)
                    &&& final(self).next_id <= *final(pos)
                },
                Err(k) => res == Err::<Expr, ParseError>(k),
            },
        decreases code@.len() - *old(pos), 1nat,
    {
        let mut opt_prev: Option<Expr> = None;
        loop
            invariant
                *old(pos) <= *pos <= code@.len(),
                self.ready(code@, *pos as int),
                self.params@.len() == old(self).params@.len(),
                scope_kept(old(self).view().scope, self.view().scope),
                free_vars_kept(old(self).free_vars@, self.free_vars@),
                parse_inner_spec(self.view(), code@, *pos as int, opt_view(opt_prev))
                    == parse_inner_spec(old(self).view(), code@, *old(pos) as int, None),
            decreases code@.len() - *pos,
        {
            let ghost pos1 = *pos as int;
            let ghost st1 = self.view();
            let ghost prev1 = opt_view(opt_prev);
            proof {
                lemma_skip_ws(code@, pos1);
            }
            let peeked = Self::try_skip_whitespace_peek(code, pos);
            let c = match peeked {
                None => {
                    return match opt_prev {
                        Some(e) => Ok(e),
                        None => Err(ParseError::ExpressionNotFound),
                    };
                },
                Some(c) => c,
            };
            let len = code.len();
            assert(*pos < len);
            let expr = if is_ascii_alphabetic(c) {
                self.parse_var(code, pos)?
            } else if c == '\\' {
                self.parse_lambda(code, pos)?
            } else if c == ')' {
                return match opt_prev {
                    Some(e) => Ok(e),
                    None => Err(ParseError::UnexpectedClose),
                };
            } else if c == '(' {
                *pos = *pos + 1;
                let e = self.parse_inner(code, pos)?;
                if *pos < code.len() && code[*pos] == ')' {
                    *pos = *pos + 1;
                    e
                } else {
                    return Err(ParseError::ExpectedClose);
                }
            } else {
                return Err(ParseError::UnexpectedSymbol);
            };
            opt_prev = match opt_prev {
                Some(prev) => Some(Expr::App(Box::new(prev), Box::new(expr))),
                None => Some(expr),
            };
        }
    }

    /// Reads one expression from `line`; the error is a message (see `message_spec`).
    pub fn parse(line: &str) -> (res: Result<Expr, String>)
        ensures
            match parse_spec(line@) {
                Ok(e) => res matches Ok(r) && r.view() == e,
                Err(k) => res matches Err(m) && m@ == message_spec(k),
            },
            res matches Ok(r) ==> well_scoped(r.view()),
    {
        let code = chars_of(line);
        let n = code.len();
        proof {
            lemma_parse_well_scoped(line@);
        }
        let mut parser = Parser::new();
        let mut pos: usize = 0;
        match parser.parse_inner(&code, &mut pos) {
            Err(e) => Err(e.message()),
            Ok(res) => {
                if pos < code.len() {
                    Err(ParseError::UnexpectedChar.message())
                } else {
                    Ok(res)
                }
            },
        }
    }
}

} // verus!
