//! The equation compiler.  An equation text
//!
//! ```text
//! dNAME = (EXPR) * dt + (EXPR) * dW1 + (EXPR) * dJ1(0.3) + ...
//! ```
//!
//! is parsed into an indexed program: every term carries its coefficient
//! expression, the list of bindings that resolve each free identifier to
//! the time variable or a process index, and its incrementor descriptor.
//! Distinct Wiener / jump tokens get global source indices in first-seen
//! order across all equations, and the term multiplying dt, when there is
//! one, is moved to position 0, the drift slot.
//!
//! The grammar below is the reference for the whole module; the spec
//! functions define it and the executable parser is proved against them.

use crate::backend::expr_accepted;
use crate::backend::expr_parse_check;
use vstd::prelude::*;
use vstd::string::StrSliceExecFns;
use vstd::string::StringExecFns;

verus! {

// ---------------------------------------------------------------------
// Character classes
// ---------------------------------------------------------------------
pub open spec fn is_ws(c: char) -> bool {
    c == ' ' || c == '\t' || c == '\r' || c == '\n'
}

pub open spec fn is_digit(c: char) -> bool {
    '0' <= c && c <= '9'
}

pub open spec fn is_ident_start(c: char) -> bool {
    ('a' <= c && c <= 'z') || ('A' <= c && c <= 'Z') || c == '_'
}

pub open spec fn is_ident_char(c: char) -> bool {
    is_ident_start(c) || is_digit(c)
}

pub open spec fn is_num_char(c: char) -> bool {
    is_digit(c) || c == '.'
}

// ---------------------------------------------------------------------
// Navigation over the text
// ---------------------------------------------------------------------
/// First position at or after `i` that is not whitespace.
pub open spec fn skip_ws_from(s: Seq<char>, i: int) -> int
    decreases s.len() - i,
    when 0 <= i <= s.len()
{
    if i < s.len() && is_ws(s[i]) {
        skip_ws_from(s, i + 1)
    } else {
        i
    }
}

/// End of the identifier-character run starting at `i`.
pub open spec fn ident_end_from(s: Seq<char>, i: int) -> int
    decreases s.len() - i,
    when 0 <= i <= s.len()
{
    if i < s.len() && is_ident_char(s[i]) {
        ident_end_from(s, i + 1)
    } else {
        i
    }
}

/// End of the number-character run starting at `i`.
pub open spec fn num_end_from(s: Seq<char>, i: int) -> int
    decreases s.len() - i,
    when 0 <= i <= s.len()
{
    if i < s.len() && is_num_char(s[i]) {
        num_end_from(s, i + 1)
    } else {
        i
    }
}

/// Position of the parenthesis that closes depth `depth` reading from `i`,
/// or -1 when the text ends first.
pub open spec fn find_close_from(s: Seq<char>, i: int, depth: int) -> int
    decreases s.len() - i,
    when 0 <= i <= s.len()
{
    if i >= s.len() {
        -1
    } else if s[i] == '(' {
        find_close_from(s, i + 1, depth + 1)
    } else if s[i] == ')' {
        if depth == 1 {
            i
        } else {
            find_close_from(s, i + 1, depth - 1)
        }
    } else {
        find_close_from(s, i + 1, depth)
    }
}

pub proof fn lemma_skip_ws_bounds(s: Seq<char>, i: int)
    requires
        0 <= i <= s.len(),
    ensures
        i <= skip_ws_from(s, i) <= s.len(),
    decreases s.len() - i,
{
    if i < s.len() && is_ws(s[i]) {
        lemma_skip_ws_bounds(s, i + 1);
    }
}

pub proof fn lemma_ident_end_bounds(s: Seq<char>, i: int)
    requires
        0 <= i <= s.len(),
    ensures
        i <= ident_end_from(s, i) <= s.len(),
    decreases s.len() - i,
{
    if i < s.len() && is_ident_char(s[i]) {
        lemma_ident_end_bounds(s, i + 1);
    }
}

pub proof fn lemma_num_end_bounds(s: Seq<char>, i: int)
    requires
        0 <= i <= s.len(),
    ensures
        i <= num_end_from(s, i) <= s.len(),
    decreases s.len() - i,
{
    if i < s.len() && is_num_char(s[i]) {
        lemma_num_end_bounds(s, i + 1);
    }
}

pub proof fn lemma_find_close_bounds(s: Seq<char>, i: int, depth: int)
    requires
        0 <= i <= s.len(),
    ensures
        find_close_from(s, i, depth) == -1 || (i <= find_close_from(s, i, depth) < s.len()
            && s[find_close_from(s, i, depth)] == ')'),
    decreases s.len() - i,
{
    if i < s.len() {
        if s[i] == '(' {
            lemma_find_close_bounds(s, i + 1, depth + 1);
        } else if s[i] == ')' {
            if depth != 1 {
                lemma_find_close_bounds(s, i + 1, depth - 1);
            }
        } else {
            lemma_find_close_bounds(s, i + 1, depth);
        }
    }
}

// ---------------------------------------------------------------------
// Shapes: the structural parse result, over character sequences
// ---------------------------------------------------------------------
/// A positive number literal: digits with at most one dot, and some
/// digit other than zero, so the value is strictly positive.
pub open spec fn valid_number(s: Seq<char>) -> bool {
    &&& s.len() >= 1
    &&& forall|i: int| 0 <= i < s.len() ==> is_num_char(s[i])
    &&& exists|i: int| 0 <= i < s.len() && is_digit(s[i]) && s[i] != '0'
    &&& forall|i: int, j: int| 0 <= i < j < s.len() ==> !(s[i] == '.' && s[j] == '.')
}

/// An incrementor descriptor as spelled in the text: dt, or a Wiener /
/// jump token (kept verbatim, without the leading 'd'), a jump also
/// carrying its intensity literal.
pub enum TokShape {
    Dt,
    Wiener(Seq<char>),
    Jump(Seq<char>, Seq<char>),
}

/// One structural term: the coefficient text between its parentheses and
/// the incrementor after the star.
pub struct TermShape {
    pub expr: Seq<char>,
    pub tok: TokShape,
}

/// Everything the compiler can object to, and under which name.
#[derive(Clone, Copy, PartialEq, Eq, Structural, Debug)]
pub enum FaultKind {
    /// The equation list itself is empty.
    EmptyInput,
    /// No `d` followed by an identifier-shaped process name at the start.
    MissingName,
    /// No `=` after the process name.
    MissingEquals,
    /// A term does not start with a parenthesised coefficient.
    MissingCoefficient,
    /// The coefficient's opening parenthesis is never closed.
    UnbalancedParens,
    /// No `*` between the coefficient and the incrementor.
    MissingStar,
    /// The incrementor is not `dt`, `dW...` or `dJ...`.
    UnknownIncrementor,
    /// A jump incrementor without its parenthesised intensity.
    MissingLambda,
    /// A jump intensity that is not a positive number literal.
    BadLambda,
    /// Text after a term that is neither `+` nor the end.
    TrailingInput,
    /// Two equations declare the same process name.
    DuplicateName,
    /// An identifier in a coefficient that is neither `t` nor a process.
    UnknownIdentifier,
    /// A coefficient text the expression engine does not accept.
    ExprRejected,
}

/// Structural parse of one term starting at `i`: the coefficient in
/// balanced parentheses, a star, then the incrementor token.  Returns the
/// term and the position just after it.
pub open spec fn parse_term_at(s: Seq<char>, i: int) -> Result<(TermShape, int), FaultKind> {
    let a = skip_ws_from(s, i);
    if a >= s.len() || s[a] != '(' {
        Err(FaultKind::MissingCoefficient)
    } else {
        let close = find_close_from(s, a + 1, 1);
        if close < 0 {
            Err(FaultKind::UnbalancedParens)
        } else {
            let expr = s.subrange(a + 1, close);
            let b = skip_ws_from(s, close + 1);
            if b >= s.len() || s[b] != '*' {
                Err(FaultKind::MissingStar)
            } else {
                let c0 = skip_ws_from(s, b + 1);
                if c0 >= s.len() || s[c0] != 'd' {
                    Err(FaultKind::UnknownIncrementor)
                } else {
                    let e = ident_end_from(s, c0 + 1);
                    if e == c0 + 1 {
                        Err(FaultKind::UnknownIncrementor)
                    } else {
                        let tok = s.subrange(c0 + 1, e);
                        if tok.len() == 1 && tok[0] == 't' {
                            Ok((TermShape { expr, tok: TokShape::Dt }, e))
                        } else if tok[0] == 'W' {
                            Ok((TermShape { expr, tok: TokShape::Wiener(tok) }, e))
                        } else if tok[0] == 'J' {
                            parse_lambda_at(s, e, expr, tok)
                        } else {
                            Err(FaultKind::UnknownIncrementor)
                        }
                    }
                }
            }
        }
    }
}

/// The `(NUMBER)` intensity after a jump token, starting at `e`.
pub open spec fn parse_lambda_at(s: Seq<char>, e: int, expr: Seq<char>, tok: Seq<char>) -> Result<
    (TermShape, int),
    FaultKind,
> {
    let f = skip_ws_from(s, e);
    if f >= s.len() || s[f] != '(' {
        Err(FaultKind::MissingLambda)
    } else {
        let g = skip_ws_from(s, f + 1);
        let h = num_end_from(s, g);
        let lam = s.subrange(g, h);
        if !valid_number(lam) {
            Err(FaultKind::BadLambda)
        } else {
            let q = skip_ws_from(s, h);
            if q >= s.len() || s[q] != ')' {
                Err(FaultKind::MissingLambda)
            } else {
                Ok((TermShape { expr, tok: TokShape::Jump(tok, lam) }, q + 1))
            }
        }
    }
}

/// A successfully parsed term sits inside the text and ends after where it
/// began.
pub proof fn lemma_parse_term_progress(s: Seq<char>, i: int)
    requires
        0 <= i <= s.len(),
    ensures
        parse_term_at(s, i) matches Ok(r) ==> i < r.1 <= s.len(),
{
    lemma_skip_ws_bounds(s, i);
    let a = skip_ws_from(s, i);
    if a < s.len() && s[a] == '(' {
        lemma_find_close_bounds(s, a + 1, 1);
        let close = find_close_from(s, a + 1, 1);
        if close >= 0 {
            lemma_skip_ws_bounds(s, close + 1);
            let b = skip_ws_from(s, close + 1);
            if b < s.len() && s[b] == '*' {
                lemma_skip_ws_bounds(s, b + 1);
                let c0 = skip_ws_from(s, b + 1);
                if c0 < s.len() && s[c0] == 'd' {
                    lemma_ident_end_bounds(s, c0 + 1);
                    let e = ident_end_from(s, c0 + 1);
                    if e != c0 + 1 {
                        lemma_skip_ws_bounds(s, e);
                        let f = skip_ws_from(s, e);
                        if f < s.len() && s[f] == '(' {
                            lemma_skip_ws_bounds(s, f + 1);
                            let g = skip_ws_from(s, f + 1);
                            lemma_num_end_bounds(s, g);
                            let h = num_end_from(s, g);
                            lemma_skip_ws_bounds(s, h);
                        }
                    }
                }
            }
        }
    }
}

/// Structural parse of the term list from `i`: terms separated by
/// top-level `+`, running to the end of the text.
pub open spec fn parse_terms_from(s: Seq<char>, i: int) -> Result<Seq<TermShape>, FaultKind>
    decreases s.len() - i,
    when 0 <= i <= s.len()
    via parse_terms_from_decreases
{
    match parse_term_at(s, i) {
        Err(k) => Err(k),
        Ok((term, next)) => {
            let w = skip_ws_from(s, next);
            if w >= s.len() {
                Ok(seq![term])
            } else if s[w] == '+' {
                match parse_terms_from(s, w + 1) {
                    Err(k) => Err(k),
                    Ok(rest) => Ok(seq![term] + rest),
                }
            } else {
                Err(FaultKind::TrailingInput)
            }
        },
    }
}

#[via_fn]
proof fn parse_terms_from_decreases(s: Seq<char>, i: int) {
    lemma_parse_term_progress(s, i);
    match parse_term_at(s, i) {
        Ok(r) => {
            lemma_skip_ws_bounds(s, r.1);
        },
        Err(_) => {},
    }
}

/// Structural parse of the left-hand side: `d`, an identifier-shaped
/// process name, `=`.  Returns the name and the position after `=`.
pub open spec fn parse_lhs(s: Seq<char>) -> Result<(Seq<char>, int), FaultKind> {
    let a = skip_ws_from(s, 0);
    if a >= s.len() || s[a] != 'd' {
        Err(FaultKind::MissingName)
    } else {
        let e = ident_end_from(s, a + 1);
        if e == a + 1 || !is_ident_start(s[a + 1]) {
            Err(FaultKind::MissingName)
        } else {
            let name = s.subrange(a + 1, e);
            let b = skip_ws_from(s, e);
            if b >= s.len() || s[b] != '=' {
                Err(FaultKind::MissingEquals)
            } else {
                Ok((name, b + 1))
            }
        }
    }
}

/// Structural parse of one whole equation.
pub open spec fn parse_equation_shape(s: Seq<char>) -> Result<
    (Seq<char>, Seq<TermShape>),
    FaultKind,
> {
    match parse_lhs(s) {
        Err(k) => Err(k),
        Ok((name, pos)) => match parse_terms_from(s, pos) {
            Err(k) => Err(k),
            Ok(terms) => Ok((name, terms)),
        },
    }
}

/// Whether a term is the drift term, the one multiplying dt.
pub open spec fn is_dt_term(t: TermShape) -> bool {
    t.tok is Dt
}

/// The dt terms of a list, in their order in the text.
pub open spec fn dt_part(terms: Seq<TermShape>) -> Seq<TermShape> {
    terms.filter(|t: TermShape| is_dt_term(t))
}

/// The non-dt terms of a list, in their order in the text.
pub open spec fn non_dt_part(terms: Seq<TermShape>) -> Seq<TermShape> {
    terms.filter(|t: TermShape| !is_dt_term(t))
}

/// The compiled order: dt terms first (the drift convention), the other
/// terms after them, each group keeping its order in the text.
pub open spec fn dt_first(terms: Seq<TermShape>) -> Seq<TermShape> {
    dt_part(terms) + non_dt_part(terms)
}

// ---------------------------------------------------------------------
// Identifiers, bindings and the source registry
// ---------------------------------------------------------------------
/// The identifiers of an expression text, in order of occurrence and with
/// repeats: the maximal identifier-character runs that start with a letter
/// or underscore (a run led by a digit is a number, not an identifier).
pub open spec fn idents_from(s: Seq<char>, i: int) -> Seq<Seq<char>>
    decreases s.len() - i,
    when 0 <= i <= s.len()
    via idents_from_decreases
{
    if i >= s.len() {
        Seq::empty()
    } else if is_ident_char(s[i]) && (i == 0 || !is_ident_char(s[i - 1])) {
        let e = ident_end_from(s, i);
        if is_ident_start(s[i]) {
            seq![s.subrange(i, e)] + idents_from(s, e)
        } else {
            idents_from(s, e)
        }
    } else {
        idents_from(s, i + 1)
    }
}

#[via_fn]
proof fn idents_from_decreases(s: Seq<char>, i: int) {
    if 0 <= i < s.len() {
        lemma_ident_end_bounds(s, i);
        if is_ident_char(s[i]) {
            assert(ident_end_from(s, i) == ident_end_from(s, i + 1));
            lemma_ident_end_bounds(s, i + 1);
        }
    }
}

/// First-seen-order deduplication.
pub open spec fn dedup_first(xs: Seq<Seq<char>>) -> Seq<Seq<char>>
    decreases xs.len(),
{
    if xs.len() == 0 {
        Seq::empty()
    } else {
        let rest = dedup_first(xs.drop_last());
        if rest.contains(xs.last()) {
            rest
        } else {
            rest.push(xs.last())
        }
    }
}

/// Index of the first occurrence of `x`.
pub open spec fn first_index_of(xs: Seq<Seq<char>>, x: Seq<char>) -> int
    decreases xs.len(),
{
    if xs.len() == 0 {
        0
    } else if xs[0] == x {
        0
    } else {
        1 + first_index_of(xs.drop_first(), x)
    }
}

/// What a free identifier in a coefficient resolves to: the running time
/// `t`, or the current value of the process at an index.
pub enum BindShape {
    Time,
    Process(int),
}

/// One resolved identifier of a coefficient.
pub struct BindingShape {
    pub name: Seq<char>,
    pub kind: BindShape,
}

/// Resolves the identifiers of one coefficient, in first-occurrence
/// order: `t` binds to time, a process name to its index, anything else
/// is refused.
pub open spec fn bindings_of(ids: Seq<Seq<char>>, names: Seq<Seq<char>>) -> Result<
    Seq<BindingShape>,
    FaultKind,
>
    decreases ids.len(),
{
    if ids.len() == 0 {
        Ok(Seq::empty())
    } else {
        let id = ids[0];
        let head = if id.len() == 1 && id[0] == 't' {
            Ok(BindingShape { name: id, kind: BindShape::Time })
        } else if names.contains(id) {
            Ok(BindingShape { name: id, kind: BindShape::Process(first_index_of(names, id)) })
        } else {
            Err(FaultKind::UnknownIdentifier)
        };
        match head {
            Err(k) => Err(k),
            Ok(b) => match bindings_of(ids.drop_first(), names) {
                Err(k) => Err(k),
                Ok(rest) => Ok(seq![b] + rest),
            },
        }
    }
}

/// The registry key of a term's incrementor: the token spelling for a
/// Wiener or jump term, nothing for dt.
pub open spec fn token_of(t: TermShape) -> Option<Seq<char>> {
    match t.tok {
        TokShape::Dt => None,
        TokShape::Wiener(tok) => Some(tok),
        TokShape::Jump(tok, _) => Some(tok),
    }
}

/// The non-dt tokens of a term list, in order and with repeats.
pub open spec fn tokens_of_terms(terms: Seq<TermShape>) -> Seq<Seq<char>>
    decreases terms.len(),
{
    if terms.len() == 0 {
        Seq::empty()
    } else {
        match token_of(terms[0]) {
            Some(tok) => seq![tok] + tokens_of_terms(terms.drop_first()),
            None => tokens_of_terms(terms.drop_first()),
        }
    }
}

/// All non-dt tokens of the system, equations in order, each equation's
/// terms in compiled order.
pub open spec fn all_tokens(shapes: Seq<(Seq<char>, Seq<TermShape>)>) -> Seq<Seq<char>>
    decreases shapes.len(),
{
    if shapes.len() == 0 {
        Seq::empty()
    } else {
        tokens_of_terms(shapes[0].1) + all_tokens(shapes.drop_first())
    }
}

// ---------------------------------------------------------------------
// The compiled system, fully resolved
// ---------------------------------------------------------------------
/// A term's incrementor, resolved: dt, or a token with its global source
/// index (and for a jump its intensity literal).
pub enum TokResolved {
    Dt,
    Wiener(Seq<char>, int),
    Jump(Seq<char>, Seq<char>, int),
}

/// One compiled term.
pub struct TermResolved {
    pub expr: Seq<char>,
    pub bindings: Seq<BindingShape>,
    pub tok: TokResolved,
}

/// One compiled equation.
pub struct EquationResolved {
    pub name: Seq<char>,
    pub terms: Seq<TermResolved>,
}

/// The compiled system: the process names in equation order, the
/// compiled equations, the token registry in first-seen order, and K.
pub struct SystemResolved {
    pub names: Seq<Seq<char>>,
    pub equations: Seq<EquationResolved>,
    pub registry: Seq<Seq<char>>,
    pub num_sources: int,
}

/// Resolves one structural term against the name list and the registry.
pub open spec fn resolve_term(t: TermShape, names: Seq<Seq<char>>, registry: Seq<Seq<char>>) -> Result<
    TermResolved,
    FaultKind,
> {
    match bindings_of(dedup_first(idents_from(t.expr, 0)), names) {
        Err(k) => Err(k),
        Ok(bs) => if !expr_accepted(t.expr) {
            Err(FaultKind::ExprRejected)
        } else {
            Ok(
                TermResolved {
                    expr: t.expr,
                    bindings: bs,
                    tok: match t.tok {
                        TokShape::Dt => TokResolved::Dt,
                        TokShape::Wiener(tok) => TokResolved::Wiener(
                            tok,
                            first_index_of(registry, tok),
                        ),
                        TokShape::Jump(tok, lam) => TokResolved::Jump(
                            tok,
                            lam,
                            first_index_of(registry, tok),
                        ),
                    },
                },
            )
        },
    }
}

/// Resolves a term list, surfacing the first fault in term order.
pub open spec fn resolve_terms(
    ts: Seq<TermShape>,
    names: Seq<Seq<char>>,
    registry: Seq<Seq<char>>,
) -> Result<Seq<TermResolved>, FaultKind>
    decreases ts.len(),
{
    if ts.len() == 0 {
        Ok(Seq::empty())
    } else {
        match resolve_term(ts[0], names, registry) {
            Err(k) => Err(k),
            Ok(t) => match resolve_terms(ts.drop_first(), names, registry) {
                Err(k) => Err(k),
                Ok(rest) => Ok(seq![t] + rest),
            },
        }
    }
}

/// The first pass: the process name of every equation, in order, refusing
/// a duplicate where it is declared.
pub open spec fn names_pass(eqs: Seq<Seq<char>>, i: int, acc: Seq<Seq<char>>) -> Result<
    Seq<Seq<char>>,
    (int, FaultKind),
>
    decreases eqs.len() - i,
    when 0 <= i <= eqs.len()
{
    if i >= eqs.len() {
        Ok(acc)
    } else {
        match parse_lhs(eqs[i]) {
            Err(k) => Err((i, k)),
            Ok(r) => if acc.contains(r.0) {
                Err((i, FaultKind::DuplicateName))
            } else {
                names_pass(eqs, i + 1, acc.push(r.0))
            },
        }
    }
}

/// The second pass, structural: every equation parsed whole and its terms
/// put in compiled order.
pub open spec fn shapes_pass(eqs: Seq<Seq<char>>, i: int) -> Result<
    Seq<(Seq<char>, Seq<TermShape>)>,
    (int, FaultKind),
>
    decreases eqs.len() - i,
    when 0 <= i <= eqs.len()
{
    if i >= eqs.len() {
        Ok(Seq::empty())
    } else {
        match parse_equation_shape(eqs[i]) {
            Err(k) => Err((i, k)),
            Ok(r) => match shapes_pass(eqs, i + 1) {
                Err(e) => Err(e),
                Ok(rest) => Ok(seq![(r.0, dt_first(r.1))] + rest),
            },
        }
    }
}

/// The third pass: every equation resolved, surfacing the first fault in
/// equation order.
pub open spec fn resolve_pass(
    shapes: Seq<(Seq<char>, Seq<TermShape>)>,
    i: int,
    names: Seq<Seq<char>>,
    registry: Seq<Seq<char>>,
) -> Result<Seq<EquationResolved>, (int, FaultKind)>
    decreases shapes.len() - i,
    when 0 <= i <= shapes.len()
{
    if i >= shapes.len() {
        Ok(Seq::empty())
    } else {
        match resolve_terms(shapes[i].1, names, registry) {
            Err(k) => Err((i, k)),
            Ok(ts) => match resolve_pass(shapes, i + 1, names, registry) {
                Err(e) => Err(e),
                Ok(rest) => Ok(seq![EquationResolved { name: shapes[i].0, terms: ts }] + rest),
            },
        }
    }
}

/// The whole compilation, equation texts in, compiled system out.  This
/// function is the reference for `parse_equations`: the executable
/// compiler returns `Ok` exactly when this returns `Ok`, with the same
/// system, and otherwise the same fault at the same equation.
pub open spec fn spec_compile(eqs: Seq<Seq<char>>) -> Result<SystemResolved, (int, FaultKind)> {
    if eqs.len() == 0 {
        Err((0, FaultKind::EmptyInput))
    } else {
        match names_pass(eqs, 0, Seq::empty()) {
            Err(e) => Err(e),
            Ok(names) => match shapes_pass(eqs, 0) {
                Err(e) => Err(e),
                Ok(shapes) => {
                    let registry = dedup_first(all_tokens(shapes));
                    match resolve_pass(shapes, 0, names, registry) {
                        Err(e) => Err(e),
                        Ok(equations) => Ok(
                            SystemResolved {
                                names,
                                equations,
                                registry,
                                num_sources: registry.len() as int,
                            },
                        ),
                    }
                },
            },
        }
    }
}

// ---------------------------------------------------------------------
// The executable parser, proved against the functions above
// ---------------------------------------------------------------------
fn ws_char(c: char) -> (r: bool)
    ensures
        r == is_ws(c),
{
    c == ' ' || c == '\t' || c == '\r' || c == '\n'
}

fn digit_char(c: char) -> (r: bool)
    ensures
        r == is_digit(c),
{
    '0' <= c && c <= '9'
}

fn ident_start_char(c: char) -> (r: bool)
    ensures
        r == is_ident_start(c),
{
    ('a' <= c && c <= 'z') || ('A' <= c && c <= 'Z') || c == '_'
}

fn ident_char(c: char) -> (r: bool)
    ensures
        r == is_ident_char(c),
{
    ident_start_char(c) || digit_char(c)
}

fn num_char(c: char) -> (r: bool)
    ensures
        r == is_num_char(c),
{
    digit_char(c) || c == '.'
}

fn skip_ws_exec(s: &str, n: usize, i: usize) -> (r: usize)
    requires
        n == s@.len(),
        i <= n,
    ensures
        r == skip_ws_from(s@, i as int),
        i <= r <= n,
{
    let mut cur = i;
    loop
        invariant
            i <= cur <= n,
            n == s@.len(),
            skip_ws_from(s@, i as int) == skip_ws_from(s@, cur as int),
        decreases n - cur,
    {
        if cur == n {
            return cur;
        }
        let c = s.get_char(cur);
        if !ws_char(c) {
            return cur;
        }
        cur = cur + 1;
    }
}

fn ident_end_exec(s: &str, n: usize, i: usize) -> (r: usize)
    requires
        n == s@.len(),
        i <= n,
    ensures
        r == ident_end_from(s@, i as int),
        i <= r <= n,
{
    let mut cur = i;
    loop
        invariant
            i <= cur <= n,
            n == s@.len(),
            ident_end_from(s@, i as int) == ident_end_from(s@, cur as int),
        decreases n - cur,
    {
        if cur == n {
            return cur;
        }
        let c = s.get_char(cur);
        if !ident_char(c) {
            return cur;
        }
        cur = cur + 1;
    }
}

fn num_end_exec(s: &str, n: usize, i: usize) -> (r: usize)
    requires
        n == s@.len(),
        i <= n,
    ensures
        r == num_end_from(s@, i as int),
        i <= r <= n,
{
    let mut cur = i;
    loop
        invariant
            i <= cur <= n,
            n == s@.len(),
            num_end_from(s@, i as int) == num_end_from(s@, cur as int),
        decreases n - cur,
    {
        if cur == n {
            return cur;
        }
        let c = s.get_char(cur);
        if !num_char(c) {
            return cur;
        }
        cur = cur + 1;
    }
}

fn find_close_exec(s: &str, n: usize, i: usize) -> (r: Option<usize>)
    requires
        n == s@.len(),
        i <= n,
    ensures
        match r {
            Some(j) => find_close_from(s@, i as int, 1) == j && i <= j < n,
            None => find_close_from(s@, i as int, 1) == -1,
        },
{
    let mut cur = i;
    let mut depth: u128 = 1;
    loop
        invariant
            i <= cur <= n,
            n == s@.len(),
            1 <= depth <= 1 + cur,
            find_close_from(s@, i as int, 1) == find_close_from(s@, cur as int, depth as int),
        decreases n - cur,
    {
        if cur == n {
            return None;
        }
        let c = s.get_char(cur);
        if c == '(' {
            depth = depth + 1;
        } else if c == ')' {
            if depth == 1 {
                return Some(cur);
            }
            depth = depth - 1;
        }
        cur = cur + 1;
    }
}

/// The intensity literal check: digits with at most one dot, and some
/// digit other than zero.
fn number_range_valid(s: &str, n: usize, g: usize, h: usize) -> (r: bool)
    requires
        n == s@.len(),
        g <= h <= n,
    ensures
        r == valid_number(s@.subrange(g as int, h as int)),
{
    let ghost lam = s@.subrange(g as int, h as int);
    if g == h {
        return false;
    }
    let mut cur = g;
    let mut seen_dot = false;
    let mut seen_positive = false;
    while cur < h
        invariant
            g <= cur <= h <= n,
            n == s@.len(),
            h > g,
            lam == s@.subrange(g as int, h as int),
            forall|idx: int| 0 <= idx < cur - g ==> is_num_char(lam[idx]),
            seen_positive == exists|idx: int|
                0 <= idx < cur - g && is_digit(lam[idx]) && lam[idx] != '0',
            seen_dot == exists|idx: int| 0 <= idx < cur - g && lam[idx] == '.',
            forall|idx: int, jdx: int|
                0 <= idx < jdx < cur - g ==> !(lam[idx] == '.' && lam[jdx] == '.'),
        decreases h - cur,
    {
        let c = s.get_char(cur);
        proof {
            assert(lam[cur - g] == s@[cur as int]);
        }
        if !num_char(c) {
            return false;
        }
        if digit_char(c) {
            if c != '0' {
                seen_positive = true;
            }
        } else {
            if seen_dot {
                return false;
            }
            seen_dot = true;
        }
        cur = cur + 1;
    }
    seen_positive
}

/// An incrementor descriptor before source indices exist.
enum TokPre {
    Dt,
    Wiener(String),
    Jump(String, String),
}

/// A structural term before resolution.
struct TermPre {
    expr: String,
    tok: TokPre,
}

impl View for TermPre {
    type V = TermShape;

    closed spec fn view(&self) -> TermShape {
        TermShape {
            expr: self.expr@,
            tok: match &self.tok {
                TokPre::Dt => TokShape::Dt,
                TokPre::Wiener(t) => TokShape::Wiener(t@),
                TokPre::Jump(t, l) => TokShape::Jump(t@, l@),
            },
        }
    }
}

fn parse_term_exec(s: &str, n: usize, i: usize) -> (r: Result<(TermPre, usize), FaultKind>)
    requires
        n == s@.len(),
        i <= n,
    ensures
        match r {
            Ok(p) => parse_term_at(s@, i as int) == Ok::<(TermShape, int), FaultKind>(
                (p.0@, p.1 as int),
            ) && i < p.1 <= n,
            Err(k) => parse_term_at(s@, i as int) == Err::<(TermShape, int), FaultKind>(k),
        },
{
    proof {
        lemma_parse_term_progress(s@, i as int);
    }
    let a = skip_ws_exec(s, n, i);
    if a == n || s.get_char(a) != '(' {
        return Err(FaultKind::MissingCoefficient);
    }
    let close = match find_close_exec(s, n, a + 1) {
        None => {
            return Err(FaultKind::UnbalancedParens);
        },
        Some(c) => c,
    };
    let expr = String::from_str(s.substring_char(a + 1, close));
    let b = skip_ws_exec(s, n, close + 1);
    if b == n || s.get_char(b) != '*' {
        return Err(FaultKind::MissingStar);
    }
    let c0 = skip_ws_exec(s, n, b + 1);
    if c0 == n || s.get_char(c0) != 'd' {
        return Err(FaultKind::UnknownIncrementor);
    }
    let e = ident_end_exec(s, n, c0 + 1);
    if e == c0 + 1 {
        return Err(FaultKind::UnknownIncrementor);
    }
    let tfirst = s.get_char(c0 + 1);
    if e == c0 + 2 && tfirst == 't' {
        return Ok((TermPre { expr, tok: TokPre::Dt }, e));
    }
    if tfirst == 'W' {
        let token = String::from_str(s.substring_char(c0 + 1, e));
        return Ok((TermPre { expr, tok: TokPre::Wiener(token) }, e));
    }
    if tfirst != 'J' {
        return Err(FaultKind::UnknownIncrementor);
    }
    let f = skip_ws_exec(s, n, e);
    if f == n || s.get_char(f) != '(' {
        return Err(FaultKind::MissingLambda);
    }
    let g = skip_ws_exec(s, n, f + 1);
    let h = num_end_exec(s, n, g);
    if !number_range_valid(s, n, g, h) {
        return Err(FaultKind::BadLambda);
    }
    let q = skip_ws_exec(s, n, h);
    if q == n || s.get_char(q) != ')' {
        return Err(FaultKind::MissingLambda);
    }
    let token = String::from_str(s.substring_char(c0 + 1, e));
    let lam = String::from_str(s.substring_char(g, h));
    Ok((TermPre { expr, tok: TokPre::Jump(token, lam) }, q + 1))
}

// ---------------------------------------------------------------------
// Facts about first_index_of, dedup_first and the token lists
// ---------------------------------------------------------------------
/// `a` is an initial segment of `b`.
pub open spec fn is_prefix_of(a: Seq<Seq<char>>, b: Seq<Seq<char>>) -> bool {
    a.len() <= b.len() && forall|i: int| 0 <= i < a.len() ==> a[i] == b[i]
}

proof fn lemma_first_index_found(xs: Seq<Seq<char>>, x: Seq<char>, j: int)
    requires
        0 <= j < xs.len(),
        xs[j] == x,
        forall|i: int| 0 <= i < j ==> xs[i] != x,
    ensures
        first_index_of(xs, x) == j,
    decreases j,
{
    if j > 0 {
        lemma_first_index_found(xs.drop_first(), x, j - 1);
    }
}

proof fn lemma_first_index_in_bounds(xs: Seq<Seq<char>>, x: Seq<char>)
    requires
        xs.contains(x),
    ensures
        0 <= first_index_of(xs, x) < xs.len(),
        xs[first_index_of(xs, x)] == x,
        forall|i: int| 0 <= i < first_index_of(xs, x) ==> xs[i] != x,
    decreases xs.len(),
{
    if xs.len() > 0 && xs[0] != x {
        assert(xs.drop_first().contains(x)) by {
            let w = choose|i: int| 0 <= i < xs.len() && xs[i] == x;
            assert(xs.drop_first()[w - 1] == x);
        }
        lemma_first_index_in_bounds(xs.drop_first(), x);
        let fi = first_index_of(xs, x);
        assert forall|i: int| 0 <= i < fi implies xs[i] != x by {
            if i > 0 {
                assert(xs.drop_first()[i - 1] == xs[i]);
            }
        }
    }
}

proof fn lemma_first_index_prefix(a: Seq<Seq<char>>, b: Seq<Seq<char>>, x: Seq<char>)
    requires
        is_prefix_of(a, b),
        a.contains(x),
    ensures
        first_index_of(b, x) == first_index_of(a, x),
    decreases a.len(),
{
    if a.len() > 0 {
        if a[0] == x {
        } else {
            assert(a.drop_first().contains(x)) by {
                let w = choose|i: int| 0 <= i < a.len() && a[i] == x;
                assert(a.drop_first()[w - 1] == x);
            }
            assert(is_prefix_of(a.drop_first(), b.drop_first())) by {
                assert forall|i: int| 0 <= i < a.drop_first().len() implies a.drop_first()[i]
                    == b.drop_first()[i] by {
                    assert(a[i + 1] == b[i + 1]);
                }
            }
            lemma_first_index_prefix(a.drop_first(), b.drop_first(), x);
        }
    }
}

proof fn lemma_dedup_contains(xs: Seq<Seq<char>>, x: Seq<char>)
    ensures
        dedup_first(xs).contains(x) <==> xs.contains(x),
    decreases xs.len(),
{
    if xs.len() > 0 {
        lemma_dedup_contains(xs.drop_last(), x);
        let rest = dedup_first(xs.drop_last());
        if xs.contains(x) {
            let w = choose|i: int| 0 <= i < xs.len() && xs[i] == x;
            if w < xs.len() - 1 {
                assert(xs.drop_last()[w] == x);
            }
            if rest.contains(x) {
                if !rest.contains(xs.last()) {
                    let v = choose|i: int| 0 <= i < rest.len() && rest[i] == x;
                    assert(rest.push(xs.last())[v] == x);
                }
            } else {
                assert(xs.last() == x);
                assert(rest.push(x)[rest.len() as int] == x);
            }
        } else {
            assert(forall|i: int| 0 <= i < xs.drop_last().len() ==> xs.drop_last()[i] != x);
            if !rest.contains(xs.last()) {
                assert(xs.last() != x) by {
                    assert(xs[xs.len() - 1] == xs.last());
                }
                if rest.push(xs.last()).contains(x) {
                    let v = choose|i: int|
                        0 <= i < rest.len() + 1 && rest.push(xs.last())[i] == x;
                    if v < rest.len() {
                        assert(rest[v] == x);
                    }
                }
            }
        }
    }
}

/// Appending text to a token list leaves the dedup of the old part as a
/// prefix of the new dedup.
proof fn lemma_dedup_prefix(xs: Seq<Seq<char>>, ys: Seq<Seq<char>>)
    ensures
        is_prefix_of(dedup_first(xs), dedup_first(xs + ys)),
    decreases ys.len(),
{
    if ys.len() == 0 {
        assert(xs + ys =~= xs);
    } else {
        lemma_dedup_prefix(xs, ys.drop_last());
        assert((xs + ys).drop_last() =~= xs + ys.drop_last());
        let prev = dedup_first(xs + ys.drop_last());
        if !prev.contains((xs + ys).last()) {
            assert(is_prefix_of(prev, prev.push((xs + ys).last())));
            assert(is_prefix_of(dedup_first(xs), prev.push((xs + ys).last())));
        }
    }
}

proof fn lemma_first_index_push_new(xs: Seq<Seq<char>>, x: Seq<char>)
    requires
        !xs.contains(x),
    ensures
        first_index_of(xs.push(x), x) == xs.len(),
    decreases xs.len(),
{
    if xs.len() == 0 {
        assert(xs.push(x)[0] == x);
    } else {
        assert(xs[0] != x) by {
            assert(xs.contains(x) <== xs[0] == x);
        }
        assert(xs.push(x)[0] == xs[0]);
        assert(xs.push(x).drop_first() =~= xs.drop_first().push(x));
        assert(!xs.drop_first().contains(x)) by {
            if xs.drop_first().contains(x) {
                let w = choose|i: int| 0 <= i < xs.drop_first().len() && xs.drop_first()[i] == x;
                assert(xs[w + 1] == x);
            }
        }
        lemma_first_index_push_new(xs.drop_first(), x);
    }
}

proof fn lemma_tokens_push(ts: Seq<TermShape>, t: TermShape)
    ensures
        tokens_of_terms(ts.push(t)) == tokens_of_terms(ts) + (match token_of(t) {
            Some(tok) => seq![tok],
            None => Seq::empty(),
        }),
    decreases ts.len(),
{
    let tail = match token_of(t) {
        Some(tok) => seq![tok],
        None => Seq::<Seq<char>>::empty(),
    };
    if ts.len() == 0 {
        assert(ts.push(t).len() == 1);
        assert(ts.push(t)[0] == t);
        let dd = ts.push(t).drop_first();
        assert(dd =~= Seq::<TermShape>::empty());
        assert(tokens_of_terms(dd) == Seq::<Seq<char>>::empty()) by {
            assert(dd.len() == 0);
        }
        match token_of(t) {
            Some(tok) => {
                assert(tokens_of_terms(ts.push(t)) == seq![tok] + tokens_of_terms(dd));
                assert(seq![tok] + tokens_of_terms(dd) =~= seq![tok]);
                assert(tokens_of_terms(ts) + tail =~= seq![tok]);
            },
            None => {
                assert(tokens_of_terms(ts.push(t)) == tokens_of_terms(dd));
                assert(tokens_of_terms(ts) + tail =~= Seq::<Seq<char>>::empty());
            },
        }
    } else {
        assert(ts.push(t)[0] == ts[0]);
        assert(ts.push(t).drop_first() =~= ts.drop_first().push(t));
        lemma_tokens_push(ts.drop_first(), t);
        match token_of(ts[0]) {
            Some(tok0) => {
                assert(tokens_of_terms(ts.push(t)) == seq![tok0] + tokens_of_terms(
                    ts.drop_first().push(t),
                ));
                assert(seq![tok0] + (tokens_of_terms(ts.drop_first()) + tail) =~= (seq![tok0]
                    + tokens_of_terms(ts.drop_first())) + tail);
            },
            None => {},
        }
    }
}

proof fn lemma_all_tokens_push(
    shapes: Seq<(Seq<char>, Seq<TermShape>)>,
    x: (Seq<char>, Seq<TermShape>),
)
    ensures
        all_tokens(shapes.push(x)) == all_tokens(shapes) + tokens_of_terms(x.1),
    decreases shapes.len(),
{
    if shapes.len() == 0 {
        assert(shapes.push(x)[0] == x);
        assert(shapes.push(x).drop_first() =~= Seq::<(Seq<char>, Seq<TermShape>)>::empty());
        assert(tokens_of_terms(x.1) + all_tokens(Seq::<(Seq<char>, Seq<TermShape>)>::empty())
            =~= tokens_of_terms(x.1));
        assert(all_tokens(shapes) + tokens_of_terms(x.1) =~= tokens_of_terms(x.1));
    } else {
        assert(shapes.push(x)[0] == shapes[0]);
        assert(shapes.push(x).drop_first() =~= shapes.drop_first().push(x));
        lemma_all_tokens_push(shapes.drop_first(), x);
        assert(tokens_of_terms(shapes[0].1) + (all_tokens(shapes.drop_first())
            + tokens_of_terms(x.1)) =~= (tokens_of_terms(shapes[0].1) + all_tokens(
            shapes.drop_first(),
        )) + tokens_of_terms(x.1));
    }
}

// ---------------------------------------------------------------------
// Laws of the source registry
// ---------------------------------------------------------------------
/// The registry key of a compiled term, where it has one.
pub open spec fn resolved_token(rt: TermResolved) -> Option<Seq<char>> {
    match rt.tok {
        TokResolved::Dt => None,
        TokResolved::Wiener(tok, _) => Some(tok),
        TokResolved::Jump(tok, _, _) => Some(tok),
    }
}

/// The global source index of a compiled term, where it has one.
pub open spec fn resolved_source(rt: TermResolved) -> Option<int> {
    match rt.tok {
        TokResolved::Dt => None,
        TokResolved::Wiener(_, source) => Some(source),
        TokResolved::Jump(_, _, source) => Some(source),
    }
}

proof fn lemma_resolve_terms_wf(
    ts: Seq<TermShape>,
    names: Seq<Seq<char>>,
    registry: Seq<Seq<char>>,
    rts: Seq<TermResolved>,
)
    requires
        resolve_terms(ts, names, registry) == Ok::<Seq<TermResolved>, FaultKind>(rts),
    ensures
        rts.len() == ts.len(),
        forall|k: int|
            0 <= k < rts.len() ==> #[trigger] resolved_token(rts[k]) == token_of(ts[k]),
        forall|k: int|
            0 <= k < rts.len() ==> #[trigger] resolved_source(rts[k]) == (match token_of(ts[k]) {
                Some(tok) => Some(first_index_of(registry, tok)),
                None => None::<int>,
            }),
    decreases ts.len(),
{
    if ts.len() > 0 {
        match resolve_term(ts[0], names, registry) {
            Err(_) => {
                assert(false);
            },
            Ok(t0) => {
                match resolve_terms(ts.drop_first(), names, registry) {
                    Err(_) => {
                        assert(false);
                    },
                    Ok(rest) => {
                        lemma_resolve_terms_wf(ts.drop_first(), names, registry, rest);
                        assert(rts == seq![t0] + rest);
                        assert forall|k: int| 0 <= k < rts.len() implies #[trigger] resolved_token(
                            rts[k],
                        ) == token_of(ts[k]) && resolved_source(rts[k]) == (match token_of(
                            ts[k],
                        ) {
                            Some(tok) => Some(first_index_of(registry, tok)),
                            None => None::<int>,
                        }) by {
                            if k == 0 {
                                assert(rts[0] == t0);
                            } else {
                                assert(rts[k] == rest[k - 1]);
                                assert(ts[k] == ts.drop_first()[k - 1]);
                            }
                        }
                    },
                }
            },
        }
    }
}

proof fn lemma_resolve_pass_wf(
    shapes: Seq<(Seq<char>, Seq<TermShape>)>,
    i: int,
    names: Seq<Seq<char>>,
    registry: Seq<Seq<char>>,
    res: Seq<EquationResolved>,
)
    requires
        0 <= i <= shapes.len(),
        resolve_pass(shapes, i, names, registry) == Ok::<Seq<EquationResolved>, (int, FaultKind)>(
            res,
        ),
    ensures
        res.len() == shapes.len() - i,
        forall|e: int|
            0 <= e < res.len() ==> (#[trigger] res[e]).terms.len() == shapes[i + e].1.len(),
        forall|e: int, k: int|
            0 <= e < res.len() && 0 <= k < res[e].terms.len() ==> #[trigger] resolved_token(
                res[e].terms[k],
            ) == token_of(shapes[i + e].1[k]) && resolved_source(res[e].terms[k]) == (match
                token_of(shapes[i + e].1[k]) {
                Some(tok) => Some(first_index_of(registry, tok)),
                None => None::<int>,
            }),
    decreases shapes.len() - i,
{
    if i < shapes.len() {
        match resolve_terms(shapes[i].1, names, registry) {
            Err(_) => {
                assert(false);
            },
            Ok(ts0) => {
                match resolve_pass(shapes, i + 1, names, registry) {
                    Err(_) => {
                        assert(false);
                    },
                    Ok(rest) => {
                        lemma_resolve_terms_wf(shapes[i].1, names, registry, ts0);
                        lemma_resolve_pass_wf(shapes, i + 1, names, registry, rest);
                        let head = EquationResolved { name: shapes[i].0, terms: ts0 };
                        assert(res == seq![head] + rest);
                        assert forall|e: int| 0 <= e < res.len() implies (#[trigger] res[e])
                            .terms.len() == shapes[i + e].1.len() by {
                            if e == 0 {
                                assert(res[0] == head);
                            } else {
                                assert(res[e] == rest[e - 1]);
                            }
                        }
                        assert forall|e: int, k: int|
                            0 <= e < res.len() && 0 <= k < res[e].terms.len() implies #[trigger]
                        resolved_token(res[e].terms[k]) == token_of(shapes[i + e].1[k])
                            && resolved_source(res[e].terms[k]) == (match token_of(
                            shapes[i + e].1[k],
                        ) {
                            Some(tok) => Some(first_index_of(registry, tok)),
                            None => None::<int>,
                        }) by {
                            if e == 0 {
                                assert(res[0] == head);
                            } else {
                                assert(res[e] == rest[e - 1]);
                            }
                        }
                    },
                }
            },
        }
    }
}

proof fn lemma_token_in_tokens(ts: Seq<TermShape>, k: int)
    requires
        0 <= k < ts.len(),
        token_of(ts[k]) is Some,
    ensures
        tokens_of_terms(ts).contains(token_of(ts[k]).unwrap()),
    decreases ts.len(),
{
    let tok = token_of(ts[k]).unwrap();
    if k == 0 {
        assert(tokens_of_terms(ts)[0] == tok);
    } else {
        lemma_token_in_tokens(ts.drop_first(), k - 1);
        let inner = tokens_of_terms(ts.drop_first());
        let w = choose|q: int| 0 <= q < inner.len() && inner[q] == tok;
        match token_of(ts[0]) {
            Some(t0) => {
                assert(tokens_of_terms(ts)[w + 1] == tok);
            },
            None => {
                assert(tokens_of_terms(ts)[w] == tok);
            },
        }
    }
}

proof fn lemma_token_in_all(shapes: Seq<(Seq<char>, Seq<TermShape>)>, e: int, k: int)
    requires
        0 <= e < shapes.len(),
        0 <= k < shapes[e].1.len(),
        token_of(shapes[e].1[k]) is Some,
    ensures
        all_tokens(shapes).contains(token_of(shapes[e].1[k]).unwrap()),
    decreases e,
{
    let tok = token_of(shapes[e].1[k]).unwrap();
    if e == 0 {
        lemma_token_in_tokens(shapes[0].1, k);
        let inner = tokens_of_terms(shapes[0].1);
        let w = choose|q: int| 0 <= q < inner.len() && inner[q] == tok;
        assert(all_tokens(shapes)[w] == tok);
    } else {
        assert(shapes.drop_first()[e - 1] == shapes[e]);
        lemma_token_in_all(shapes.drop_first(), e - 1, k);
        let inner = all_tokens(shapes.drop_first());
        let w = choose|q: int| 0 <= q < inner.len() && inner[q] == tok;
        assert(all_tokens(shapes)[tokens_of_terms(shapes[0].1).len() + w] == tok);
    }
}

/// Replays a successful compilation and hands back its intermediate
/// values: the name list, the shape list, and the registry.
proof fn lemma_compile_parts(eqs: Seq<Seq<char>>, sys: SystemResolved) -> (parts: (
    Seq<Seq<char>>,
    Seq<(Seq<char>, Seq<TermShape>)>,
))
    requires
        spec_compile(eqs) == Ok::<SystemResolved, (int, FaultKind)>(sys),
    ensures
        names_pass(eqs, 0, Seq::empty()) == Ok::<Seq<Seq<char>>, (int, FaultKind)>(parts.0),
        shapes_pass(eqs, 0) == Ok::<Seq<(Seq<char>, Seq<TermShape>)>, (int, FaultKind)>(parts.1),
        sys.registry == dedup_first(all_tokens(parts.1)),
        sys.num_sources == sys.registry.len(),
        sys.names == parts.0,
        resolve_pass(parts.1, 0, parts.0, sys.registry) == Ok::<
            Seq<EquationResolved>,
            (int, FaultKind),
        >(sys.equations),
{
    if eqs.len() == 0 {
        assert(false);
    }
    match names_pass(eqs, 0, Seq::empty()) {
        Err(_) => {
            assert(false);
            (Seq::empty(), Seq::empty())
        },
        Ok(names) => {
            match shapes_pass(eqs, 0) {
                Err(_) => {
                    assert(false);
                    (Seq::empty(), Seq::empty())
                },
                Ok(shapes) => {
                    let registry = dedup_first(all_tokens(shapes));
                    match resolve_pass(shapes, 0, names, registry) {
                        Err(_) => {
                            assert(false);
                            (Seq::empty(), Seq::empty())
                        },
                        Ok(equations) => {
                            (names, shapes)
                        },
                    }
                },
            }
        },
    }
}

proof fn lemma_shapes_pass_len(eqs: Seq<Seq<char>>, i: int, res: Seq<(Seq<char>, Seq<TermShape>)>)
    requires
        0 <= i <= eqs.len(),
        shapes_pass(eqs, i) == Ok::<Seq<(Seq<char>, Seq<TermShape>)>, (int, FaultKind)>(res),
    ensures
        res.len() == eqs.len() - i,
    decreases eqs.len() - i,
{
    if i < eqs.len() {
        match parse_equation_shape(eqs[i]) {
            Err(_) => {
                assert(false);
            },
            Ok(r) => {
                match shapes_pass(eqs, i + 1) {
                    Err(_) => {
                        assert(false);
                    },
                    Ok(rest) => {
                        lemma_shapes_pass_len(eqs, i + 1, rest);
                    },
                }
            },
        }
    }
}

/// Two compiled terms that spell the same incrementor token draw from
/// the same global source: within one step they therefore observe the
/// same realised uniform, however many equations share the token.
pub proof fn lemma_shared_token_shared_source(
    eqs: Seq<Seq<char>>,
    sys: SystemResolved,
    e1: int,
    t1: int,
    e2: int,
    t2: int,
)
    requires
        spec_compile(eqs) == Ok::<SystemResolved, (int, FaultKind)>(sys),
        0 <= e1 < sys.equations.len(),
        0 <= t1 < sys.equations[e1].terms.len(),
        0 <= e2 < sys.equations.len(),
        0 <= t2 < sys.equations[e2].terms.len(),
        resolved_token(sys.equations[e1].terms[t1]) is Some,
        resolved_token(sys.equations[e2].terms[t2]) == resolved_token(sys.equations[e1].terms[t1]),
    ensures
        resolved_source(sys.equations[e2].terms[t2]) == resolved_source(
            sys.equations[e1].terms[t1],
        ),
{
    let (names, shapes) = lemma_compile_parts(eqs, sys);
    lemma_resolve_pass_wf(shapes, 0, names, sys.registry, sys.equations);
}

/// Two compiled terms with different tokens draw from different
/// sources: distinct noise terms consume independent uniforms.
pub proof fn lemma_distinct_tokens_distinct_sources(
    eqs: Seq<Seq<char>>,
    sys: SystemResolved,
    e1: int,
    t1: int,
    e2: int,
    t2: int,
)
    requires
        spec_compile(eqs) == Ok::<SystemResolved, (int, FaultKind)>(sys),
        0 <= e1 < sys.equations.len(),
        0 <= t1 < sys.equations[e1].terms.len(),
        0 <= e2 < sys.equations.len(),
        0 <= t2 < sys.equations[e2].terms.len(),
        resolved_token(sys.equations[e1].terms[t1]) is Some,
        resolved_token(sys.equations[e2].terms[t2]) is Some,
        resolved_token(sys.equations[e2].terms[t2]) != resolved_token(sys.equations[e1].terms[t1]),
    ensures
        resolved_source(sys.equations[e2].terms[t2]) != resolved_source(
            sys.equations[e1].terms[t1],
        ),
{
    let (names, shapes) = lemma_compile_parts(eqs, sys);
    lemma_resolve_pass_wf(shapes, 0, names, sys.registry, sys.equations);
    lemma_shapes_pass_len(eqs, 0, shapes);
    let tok1 = resolved_token(sys.equations[e1].terms[t1]).unwrap();
    let tok2 = resolved_token(sys.equations[e2].terms[t2]).unwrap();
    lemma_token_in_all(shapes, e1, t1);
    lemma_token_in_all(shapes, e2, t2);
    lemma_dedup_contains(all_tokens(shapes), tok1);
    lemma_dedup_contains(all_tokens(shapes), tok2);
    lemma_first_index_in_bounds(sys.registry, tok1);
    lemma_first_index_in_bounds(sys.registry, tok2);
}

/// Every binding of a term resolves within the name list.
pub open spec fn bindings_in_range(bs: Seq<BindingShape>, names: Seq<Seq<char>>) -> bool {
    forall|b: int|
        0 <= b < bs.len() ==> match (#[trigger] bs[b]).kind {
            BindShape::Time => true,
            BindShape::Process(p) => 0 <= p < names.len(),
        }
}

proof fn lemma_bindings_of_range(ids: Seq<Seq<char>>, names: Seq<Seq<char>>, bs: Seq<BindingShape>)
    requires
        bindings_of(ids, names) == Ok::<Seq<BindingShape>, FaultKind>(bs),
    ensures
        bindings_in_range(bs, names),
    decreases ids.len(),
{
    if ids.len() > 0 {
        let id = ids[0];
        if !(id.len() == 1 && id[0] == 't') {
            if names.contains(id) {
                lemma_first_index_in_bounds(names, id);
            } else {
                assert(false);
            }
        }
        match bindings_of(ids.drop_first(), names) {
            Err(_) => {
                assert(false);
            },
            Ok(rest) => {
                lemma_bindings_of_range(ids.drop_first(), names, rest);
                assert forall|b: int| 0 <= b < bs.len() implies match (#[trigger] bs[b]).kind {
                    BindShape::Time => true,
                    BindShape::Process(p) => 0 <= p < names.len(),
                } by {
                    if b > 0 {
                        assert(bs[b] == rest[b - 1]);
                    }
                }
            },
        }
    }
}

proof fn lemma_resolve_terms_bindings(
    ts: Seq<TermShape>,
    names: Seq<Seq<char>>,
    registry: Seq<Seq<char>>,
    rts: Seq<TermResolved>,
)
    requires
        resolve_terms(ts, names, registry) == Ok::<Seq<TermResolved>, FaultKind>(rts),
    ensures
        forall|k: int|
            0 <= k < rts.len() ==> bindings_in_range((#[trigger] rts[k]).bindings, names),
    decreases ts.len(),
{
    if ts.len() > 0 {
        match resolve_term(ts[0], names, registry) {
            Err(_) => {
                assert(false);
            },
            Ok(t0) => {
                match bindings_of(dedup_first(idents_from(ts[0].expr, 0)), names) {
                    Err(_) => {
                        assert(false);
                    },
                    Ok(bs0) => {
                        lemma_bindings_of_range(
                            dedup_first(idents_from(ts[0].expr, 0)),
                            names,
                            bs0,
                        );
                    },
                }
                match resolve_terms(ts.drop_first(), names, registry) {
                    Err(_) => {
                        assert(false);
                    },
                    Ok(rest) => {
                        lemma_resolve_terms_bindings(ts.drop_first(), names, registry, rest);
                        assert forall|k: int| 0 <= k < rts.len() implies bindings_in_range(
                            (#[trigger] rts[k]).bindings,
                            names,
                        ) by {
                            if k == 0 {
                                assert(rts[0] == t0);
                            } else {
                                assert(rts[k] == rest[k - 1]);
                            }
                        }
                    },
                }
            },
        }
    }
}

proof fn lemma_resolve_pass_bindings(
    shapes: Seq<(Seq<char>, Seq<TermShape>)>,
    i: int,
    names: Seq<Seq<char>>,
    registry: Seq<Seq<char>>,
    res: Seq<EquationResolved>,
)
    requires
        0 <= i <= shapes.len(),
        resolve_pass(shapes, i, names, registry) == Ok::<Seq<EquationResolved>, (int, FaultKind)>(
            res,
        ),
    ensures
        forall|e: int, k: int|
            0 <= e < res.len() && 0 <= k < res[e].terms.len() ==> bindings_in_range(
                (#[trigger] res[e].terms[k]).bindings,
                names,
            ),
    decreases shapes.len() - i,
{
    if i < shapes.len() {
        match resolve_terms(shapes[i].1, names, registry) {
            Err(_) => {
                assert(false);
            },
            Ok(ts0) => {
                match resolve_pass(shapes, i + 1, names, registry) {
                    Err(_) => {
                        assert(false);
                    },
                    Ok(rest) => {
                        lemma_resolve_terms_bindings(shapes[i].1, names, registry, ts0);
                        lemma_resolve_pass_bindings(shapes, i + 1, names, registry, rest);
                        let head = EquationResolved { name: shapes[i].0, terms: ts0 };
                        assert(res == seq![head] + rest);
                        assert forall|e: int, k: int|
                            0 <= e < res.len() && 0 <= k < res[e].terms.len() implies
                        bindings_in_range((#[trigger] res[e].terms[k]).bindings, names) by {
                            if e == 0 {
                                assert(res[0] == head);
                                assert(res[e].terms[k] == ts0[k]);
                                assert(bindings_in_range(ts0[k].bindings, names));
                            } else {
                                assert(res[e] == rest[e - 1]);
                                assert(res[e].terms[k] == rest[e - 1].terms[k]);
                            }
                        }
                    },
                }
            },
        }
    }
}

proof fn lemma_names_pass_len(eqs: Seq<Seq<char>>, i: int, acc: Seq<Seq<char>>, res: Seq<Seq<char>>)
    requires
        0 <= i <= eqs.len(),
        names_pass(eqs, i, acc) == Ok::<Seq<Seq<char>>, (int, FaultKind)>(res),
    ensures
        res.len() == acc.len() + eqs.len() - i,
    decreases eqs.len() - i,
{
    if i < eqs.len() {
        match parse_lhs(eqs[i]) {
            Err(_) => {
                assert(false);
            },
            Ok(r) => {
                if acc.contains(r.0) {
                    assert(false);
                } else {
                    lemma_names_pass_len(eqs, i + 1, acc.push(r.0), res);
                }
            },
        }
    }
}

/// A compiled system has one process name and one compiled equation per
/// input equation.
pub proof fn lemma_system_shape(eqs: Seq<Seq<char>>, sys: SystemResolved)
    requires
        spec_compile(eqs) == Ok::<SystemResolved, (int, FaultKind)>(sys),
    ensures
        sys.names.len() == eqs.len(),
        sys.equations.len() == eqs.len(),
{
    let (names, shapes) = lemma_compile_parts(eqs, sys);
    lemma_names_pass_len(eqs, 0, Seq::empty(), names);
    lemma_shapes_pass_len(eqs, 0, shapes);
    lemma_resolve_pass_wf(shapes, 0, names, sys.registry, sys.equations);
}

/// Every process-index binding of a compiled system points at one of its
/// P processes, so evaluating a coefficient against a P-element row
/// snapshot never reads outside the row.
pub proof fn lemma_bindings_resolve_within_the_system(
    eqs: Seq<Seq<char>>,
    sys: SystemResolved,
    e: int,
    t: int,
)
    requires
        spec_compile(eqs) == Ok::<SystemResolved, (int, FaultKind)>(sys),
        0 <= e < sys.equations.len(),
        0 <= t < sys.equations[e].terms.len(),
    ensures
        bindings_in_range(sys.equations[e].terms[t].bindings, sys.names),
{
    let (names, shapes) = lemma_compile_parts(eqs, sys);
    lemma_resolve_pass_bindings(shapes, 0, names, sys.registry, sys.equations);
}

/// Every assigned source index lies in [0, K): the K sources partition
/// the per-step uniform vector exactly.
pub proof fn lemma_source_in_range(eqs: Seq<Seq<char>>, sys: SystemResolved, e: int, t: int)
    requires
        spec_compile(eqs) == Ok::<SystemResolved, (int, FaultKind)>(sys),
        0 <= e < sys.equations.len(),
        0 <= t < sys.equations[e].terms.len(),
        resolved_token(sys.equations[e].terms[t]) is Some,
    ensures
        resolved_source(sys.equations[e].terms[t]) matches Some(src) && 0 <= src
            < sys.num_sources,
{
    let (names, shapes) = lemma_compile_parts(eqs, sys);
    lemma_resolve_pass_wf(shapes, 0, names, sys.registry, sys.equations);
    lemma_shapes_pass_len(eqs, 0, shapes);
    let tok = resolved_token(sys.equations[e].terms[t]).unwrap();
    lemma_token_in_all(shapes, e, t);
    lemma_dedup_contains(all_tokens(shapes), tok);
    lemma_first_index_in_bounds(sys.registry, tok);
}

proof fn lemma_parts_all(ts: Seq<TermShape>)
    ensures
        forall|k: int| 0 <= k < dt_part(ts).len() ==> is_dt_term(#[trigger] dt_part(ts)[k]),
        forall|k: int|
            0 <= k < non_dt_part(ts).len() ==> !is_dt_term(#[trigger] non_dt_part(ts)[k]),
        dt_part(ts).len() + non_dt_part(ts).len() == ts.len(),
    decreases ts.len(),
{
    reveal(Seq::filter);
    if ts.len() > 0 {
        lemma_parts_all(ts.drop_last());
        lemma_parts_push(ts.drop_last(), ts.last());
        assert(ts.drop_last().push(ts.last()) =~= ts);
    }
}

/// In the compiled order every dt term stands before every other term.
proof fn lemma_dt_first_ordered(ts: Seq<TermShape>)
    ensures
        forall|i: int, j: int|
            0 <= i < j < dt_first(ts).len() && is_dt_term(#[trigger] dt_first(ts)[j])
                ==> is_dt_term(#[trigger] dt_first(ts)[i]),
        dt_first(ts).len() == ts.len(),
{
    lemma_parts_all(ts);
    let d = dt_part(ts);
    let nd = non_dt_part(ts);
    assert forall|i: int, j: int|
        0 <= i < j < dt_first(ts).len() && is_dt_term(#[trigger] dt_first(ts)[j]) implies
    is_dt_term(#[trigger] dt_first(ts)[i]) by {
        if j >= d.len() {
            assert(dt_first(ts)[j] == nd[j - d.len()]);
        } else {
            assert(dt_first(ts)[i] == d[i]);
        }
    }
}

proof fn lemma_parse_terms_nonempty(s: Seq<char>, i: int, ts: Seq<TermShape>)
    requires
        0 <= i <= s.len(),
        parse_terms_from(s, i) == Ok::<Seq<TermShape>, FaultKind>(ts),
    ensures
        ts.len() >= 1,
{
    match parse_term_at(s, i) {
        Err(_) => {
            assert(false);
        },
        Ok(_) => {},
    }
}

/// Entry `e` of a structural pass result: the equation parses, and its
/// terms stand in compiled order.
spec fn shape_entry(
    eqs: Seq<Seq<char>>,
    i: int,
    res: Seq<(Seq<char>, Seq<TermShape>)>,
    e: int,
) -> bool {
    &&& parse_equation_shape(eqs[i + e]) is Ok
    &&& res[e].1 == dt_first(parse_equation_shape(eqs[i + e])->Ok_0.1)
}

proof fn lemma_shapes_pass_form(eqs: Seq<Seq<char>>, i: int, res: Seq<(Seq<char>, Seq<TermShape>)>)
    requires
        0 <= i <= eqs.len(),
        shapes_pass(eqs, i) == Ok::<Seq<(Seq<char>, Seq<TermShape>)>, (int, FaultKind)>(res),
    ensures
        res.len() == eqs.len() - i,
        forall|e: int| 0 <= e < res.len() ==> #[trigger] shape_entry(eqs, i, res, e),
    decreases eqs.len() - i,
{
    if i < eqs.len() {
        match parse_equation_shape(eqs[i]) {
            Err(_) => {
                assert(false);
            },
            Ok(r) => {
                match shapes_pass(eqs, i + 1) {
                    Err(_) => {
                        assert(false);
                    },
                    Ok(rest) => {
                        lemma_shapes_pass_form(eqs, i + 1, rest);
                        let el = (r.0, dt_first(r.1));
                        assert(res == seq![el] + rest);
                        assert(res.len() == rest.len() + 1);
                        assert forall|e: int| 0 <= e < res.len() implies #[trigger] shape_entry(
                            eqs,
                            i,
                            res,
                            e,
                        ) by {
                            if e == 0 {
                                assert(res[0] == el);
                                assert(eqs[i + e] == eqs[i]);
                            } else {
                                assert(res[e] == (seq![el] + rest)[e]);
                                assert(res[e] == rest[e - 1]);
                                assert((i + 1) + (e - 1) == i + e);
                                assert(shape_entry(eqs, i + 1, rest, e - 1));
                            }
                        }
                    },
                }
            },
        }
    } else {
        assert(res == Seq::<(Seq<char>, Seq<TermShape>)>::empty());
        assert(res.len() == 0);
    }
}

/// Every compiled equation keeps its drift convention: its dt terms
/// stand before all its Wiener and jump terms, and it has at least one
/// term.
pub proof fn lemma_drift_terms_first(eqs: Seq<Seq<char>>, sys: SystemResolved, e: int)
    requires
        spec_compile(eqs) == Ok::<SystemResolved, (int, FaultKind)>(sys),
        0 <= e < sys.equations.len(),
    ensures
        sys.equations[e].terms.len() >= 1,
        forall|i: int, j: int|
            0 <= i < j < sys.equations[e].terms.len() && (#[trigger] sys.equations[e].terms[j]).tok
                is Dt ==> (#[trigger] sys.equations[e].terms[i]).tok is Dt,
{
    let (names, shapes) = lemma_compile_parts(eqs, sys);
    lemma_resolve_pass_wf(shapes, 0, names, sys.registry, sys.equations);
    lemma_shapes_pass_form(eqs, 0, shapes);
    let ts = shapes[e].1;
    assert(shape_entry(eqs, 0, shapes, e));
    assert(parse_equation_shape(eqs[0 + e]) is Ok);
    assert(eqs[0 + e] == eqs[e]);
    assert(ts == dt_first(parse_equation_shape(eqs[e])->Ok_0.1));
    match parse_lhs(eqs[e]) {
        Err(_) => {
            assert(false);
        },
        Ok(l) => {
            lemma_skip_ws_bounds(eqs[e], 0);
            lemma_ident_end_bounds(eqs[e], skip_ws_from(eqs[e], 0) + 1);
            lemma_skip_ws_bounds(eqs[e], ident_end_from(eqs[e], skip_ws_from(eqs[e], 0) + 1));
            match parse_terms_from(eqs[e], l.1) {
                Err(_) => {
                    assert(false);
                },
                Ok(raw) => {
                    lemma_parse_terms_nonempty(eqs[e], l.1, raw);
                    lemma_dt_first_ordered(raw);
                    assert(ts == dt_first(raw));
                },
            }
        },
    }
    assert forall|i: int, j: int|
        0 <= i < j < sys.equations[e].terms.len() && (#[trigger] sys.equations[e].terms[j]).tok
            is Dt implies (#[trigger] sys.equations[e].terms[i]).tok is Dt by {
        assert(resolved_token(sys.equations[e].terms[j]) == token_of(ts[j]));
        assert(resolved_token(sys.equations[e].terms[i]) == token_of(ts[i]));
        assert(token_of(ts[j]) is None);
        assert(is_dt_term(ts[j]));
        assert(is_dt_term(ts[i]));
        assert(resolved_token(sys.equations[e].terms[i]) is None);
    }
}

// ---------------------------------------------------------------------
// The compiled output, as executable data
// ---------------------------------------------------------------------
/// What one identifier of a coefficient resolves to.
#[derive(Clone, Copy, Debug)]
pub enum BindingKind {
    Time,
    Process(usize),
}

/// One resolved identifier of a coefficient.
#[derive(Clone, Debug)]
pub struct Binding {
    pub name: String,
    pub kind: BindingKind,
}

impl View for Binding {
    type V = BindingShape;

    open spec fn view(&self) -> BindingShape {
        BindingShape {
            name: self.name@,
            kind: match self.kind {
                BindingKind::Time => BindShape::Time,
                BindingKind::Process(i) => BindShape::Process(i as int),
            },
        }
    }
}

/// A term's incrementor descriptor: dt, or a Wiener / jump token with its
/// global source index.
#[derive(Clone, Debug)]
pub enum IncSpec {
    Dt,
    Wiener { token: String, source: usize },
    Jump { token: String, lambda: String, source: usize },
}

impl View for IncSpec {
    type V = TokResolved;

    open spec fn view(&self) -> TokResolved {
        match self {
            IncSpec::Dt => TokResolved::Dt,
            IncSpec::Wiener { token, source } => TokResolved::Wiener(token@, *source as int),
            IncSpec::Jump { token, lambda, source } => TokResolved::Jump(
                token@,
                lambda@,
                *source as int,
            ),
        }
    }
}

/// One compiled term: coefficient text, bindings, incrementor.
#[derive(Clone, Debug)]
pub struct ParsedTerm {
    pub expr: String,
    pub bindings: Vec<Binding>,
    pub inc: IncSpec,
}

impl View for ParsedTerm {
    type V = TermResolved;

    open spec fn view(&self) -> TermResolved {
        TermResolved {
            expr: self.expr@,
            bindings: self.bindings@.map_values(|b: Binding| b@),
            tok: self.inc@,
        }
    }
}

/// One compiled equation.
#[derive(Clone, Debug)]
pub struct ParsedEquation {
    pub name: String,
    pub terms: Vec<ParsedTerm>,
}

impl View for ParsedEquation {
    type V = EquationResolved;

    open spec fn view(&self) -> EquationResolved {
        EquationResolved {
            name: self.name@,
            terms: self.terms@.map_values(|t: ParsedTerm| t@),
        }
    }
}

/// The compiled system: process names in equation order, the compiled
/// equations, and the token registry (index = global source index).
#[derive(Clone, Debug)]
pub struct ParsedSystem {
    pub process_names: Vec<String>,
    pub equations: Vec<ParsedEquation>,
    pub source_tokens: Vec<String>,
}

impl View for ParsedSystem {
    type V = SystemResolved;

    open spec fn view(&self) -> SystemResolved {
        SystemResolved {
            names: text_views(self.process_names@),
            equations: self.equations@.map_values(|e: ParsedEquation| e@),
            registry: text_views(self.source_tokens@),
            num_sources: self.source_tokens@.len() as int,
        }
    }
}

impl ParsedSystem {
    /// K, the number of registered non-dt sources.
    pub fn num_sources(&self) -> (r: usize)
        ensures
            r == self@.num_sources,
    {
        self.source_tokens.len()
    }
}

/// The character sequences of a list of strings.
pub open spec fn text_views(v: Seq<String>) -> Seq<Seq<char>> {
    v.map_values(|s: String| s@)
}

/// A compilation fault: which equation, and what was wrong with it.
#[derive(Clone, Debug)]
pub struct CompileError {
    pub equation: usize,
    pub kind: FaultKind,
}

impl CompileError {
    /// A short description of the fault, for diagnostics.
    pub fn message(&self) -> String {
        match self.kind {
            FaultKind::EmptyInput => String::from_str("no equations provided to parse"),
            FaultKind::MissingName => String::from_str(
                "could not parse a process name (e.g. dX1) at the start of the equation",
            ),
            FaultKind::MissingEquals => String::from_str("no '=' after the process name"),
            FaultKind::MissingCoefficient => String::from_str(
                "expected a parenthesised coefficient at the start of a term",
            ),
            FaultKind::UnbalancedParens => String::from_str(
                "a coefficient's opening parenthesis is never closed",
            ),
            FaultKind::MissingStar => String::from_str(
                "expected '*' between a coefficient and its incrementor",
            ),
            FaultKind::UnknownIncrementor => String::from_str(
                "an incrementor other than dt, dW... or dJ...",
            ),
            FaultKind::MissingLambda => String::from_str(
                "a jump incrementor without its parenthesised intensity",
            ),
            FaultKind::BadLambda => String::from_str(
                "a jump intensity that is not a positive number literal",
            ),
            FaultKind::TrailingInput => String::from_str(
                "unexpected text after a term",
            ),
            FaultKind::DuplicateName => String::from_str(
                "two equations declare the same process name",
            ),
            FaultKind::UnknownIdentifier => String::from_str(
                "an identifier that is neither t nor a process name",
            ),
            FaultKind::ExprRejected => String::from_str(
                "a coefficient the expression engine does not accept",
            ),
        }
    }
}

// ---------------------------------------------------------------------
// Executable parsing of one equation
// ---------------------------------------------------------------------
/// The shapes of a list of structural terms.
spec fn shapes_of_terms(v: Seq<TermPre>) -> Seq<TermShape> {
    v.map_values(|t: TermPre| t@)
}

spec fn prepend_shape_terms(pre: Seq<TermShape>, r: Result<Seq<TermShape>, FaultKind>) -> Result<
    Seq<TermShape>,
    FaultKind,
> {
    match r {
        Ok(ts) => Ok(pre + ts),
        Err(k) => Err(k),
    }
}

fn parse_lhs_exec(s: &str, n: usize) -> (r: Result<(String, usize), FaultKind>)
    requires
        n == s@.len(),
    ensures
        match r {
            Ok(p) => parse_lhs(s@) == Ok::<(Seq<char>, int), FaultKind>((p.0@, p.1 as int))
                && p.1 <= n,
            Err(k) => parse_lhs(s@) == Err::<(Seq<char>, int), FaultKind>(k),
        },
{
    let a = skip_ws_exec(s, n, 0);
    if a == n || s.get_char(a) != 'd' {
        return Err(FaultKind::MissingName);
    }
    let e = ident_end_exec(s, n, a + 1);
    if e == a + 1 || !ident_start_char(s.get_char(a + 1)) {
        return Err(FaultKind::MissingName);
    }
    let name = String::from_str(s.substring_char(a + 1, e));
    let b = skip_ws_exec(s, n, e);
    if b == n || s.get_char(b) != '=' {
        return Err(FaultKind::MissingEquals);
    }
    Ok((name, b + 1))
}

fn parse_terms_exec(s: &str, n: usize, pos: usize) -> (r: Result<Vec<TermPre>, FaultKind>)
    requires
        n == s@.len(),
        pos <= n,
    ensures
        match r {
            Ok(v) => parse_terms_from(s@, pos as int) == Ok::<Seq<TermShape>, FaultKind>(
                shapes_of_terms(v@),
            ),
            Err(k) => parse_terms_from(s@, pos as int) == Err::<Seq<TermShape>, FaultKind>(k),
        },
{
    let mut acc: Vec<TermPre> = Vec::new();
    let mut cur = pos;
    proof {
        assert(shapes_of_terms(acc@) =~= Seq::<TermShape>::empty());
    }
    loop
        invariant
            pos <= cur <= n,
            n == s@.len(),
            parse_terms_from(s@, pos as int) == prepend_shape_terms(
                shapes_of_terms(acc@),
                parse_terms_from(s@, cur as int),
            ),
        decreases n - cur,
    {
        let ghost pre = shapes_of_terms(acc@);
        match parse_term_exec(s, n, cur) {
            Err(k) => {
                return Err(k);
            },
            Ok((term, next)) => {
                let w = skip_ws_exec(s, n, next);
                if w == n {
                    acc.push(term);
                    proof {
                        assert(shapes_of_terms(acc@) =~= pre.push(term@));
                        assert(pre + seq![term@] =~= pre.push(term@));
                    }
                    return Ok(acc);
                }
                if s.get_char(w) != '+' {
                    return Err(FaultKind::TrailingInput);
                }
                acc.push(term);
                cur = w + 1;
                proof {
                    assert(shapes_of_terms(acc@) =~= pre.push(term@));
                    let tail = parse_terms_from(s@, cur as int);
                    match tail {
                        Ok(rest) => {
                            assert(pre + (seq![term@] + rest) =~= pre.push(term@) + rest);
                        },
                        Err(_) => {},
                    }
                }
            },
        }
    }
}

fn is_dt_exec(t: &TermPre) -> (r: bool)
    ensures
        r == is_dt_term(t@),
{
    match &t.tok {
        TokPre::Dt => true,
        TokPre::Wiener(_) => false,
        TokPre::Jump(_, _) => false,
    }
}

proof fn lemma_parts_push(xs: Seq<TermShape>, x: TermShape)
    ensures
        dt_part(xs.push(x)) == if is_dt_term(x) {
            dt_part(xs).push(x)
        } else {
            dt_part(xs)
        },
        non_dt_part(xs.push(x)) == if !is_dt_term(x) {
            non_dt_part(xs).push(x)
        } else {
            non_dt_part(xs)
        },
{
    reveal(Seq::filter);
    assert(xs.push(x).drop_last() =~= xs);
    assert(xs.push(x).last() == x);
}

/// Stable reordering: dt terms first, then the rest.
fn dt_first_exec(terms: Vec<TermPre>) -> (r: Vec<TermPre>)
    ensures
        shapes_of_terms(r@) == dt_first(shapes_of_terms(terms@)),
{
    let ghost all = shapes_of_terms(terms@);
    let mut out: Vec<TermPre> = Vec::new();
    let count = terms.len();
    let mut j: usize = 0;
    proof {
        assert(all.take(0) =~= Seq::<TermShape>::empty());
        assert(shapes_of_terms(out@) =~= dt_part(all.take(0)));
    }
    while j < count
        invariant
            j <= count,
            count == terms@.len(),
            all == shapes_of_terms(terms@),
            shapes_of_terms(out@) == dt_part(all.take(j as int)),
        decreases count - j,
    {
        let ghost pre = shapes_of_terms(out@);
        proof {
            assert(all.take(j + 1) =~= all.take(j as int).push(all[j as int]));
            lemma_parts_push(all.take(j as int), all[j as int]);
        }
        if is_dt_exec(&terms[j]) {
            out.push(terms[j].clone_pre());
            proof {
                assert(shapes_of_terms(out@) =~= pre.push(terms@[j as int]@));
            }
        }
        j = j + 1;
    }
    proof {
        assert(all.take(count as int) =~= all);
    }
    let mut j2: usize = 0;
    while j2 < count
        invariant
            j2 <= count,
            count == terms@.len(),
            all == shapes_of_terms(terms@),
            shapes_of_terms(out@) == dt_part(all) + non_dt_part(all.take(j2 as int)),
        decreases count - j2,
    {
        let ghost pre = shapes_of_terms(out@);
        proof {
            assert(all.take(j2 + 1) =~= all.take(j2 as int).push(all[j2 as int]));
            lemma_parts_push(all.take(j2 as int), all[j2 as int]);
        }
        if !is_dt_exec(&terms[j2]) {
            out.push(terms[j2].clone_pre());
            proof {
                assert(shapes_of_terms(out@) =~= pre.push(terms@[j2 as int]@));
                assert(pre.push(terms@[j2 as int]@) =~= dt_part(all) + non_dt_part(
                    all.take(j2 as int),
                ).push(terms@[j2 as int]@));
            }
        }
        j2 = j2 + 1;
    }
    proof {
        assert(all.take(count as int) =~= all);
    }
    out
}

impl TermPre {
    /// A structural copy with the same text.
    fn clone_pre(&self) -> (r: TermPre)
        ensures
            r@ == self@,
    {
        TermPre {
            expr: self.expr.clone(),
            tok: match &self.tok {
                TokPre::Dt => TokPre::Dt,
                TokPre::Wiener(t) => TokPre::Wiener(t.clone()),
                TokPre::Jump(t, l) => TokPre::Jump(t.clone(), l.clone()),
            },
        }
    }
}

// ---------------------------------------------------------------------
// Executable identifier scanning and binding resolution
// ---------------------------------------------------------------------
/// The run that starts inside identifier characters ends before a
/// non-identifier character (or the end of the text).
proof fn lemma_ident_end_char(s: Seq<char>, i: int)
    requires
        0 <= i <= s.len(),
    ensures
        ident_end_from(s, i) < s.len() ==> !is_ident_char(s[ident_end_from(s, i)]),
    decreases s.len() - i,
{
    if i < s.len() && is_ident_char(s[i]) {
        lemma_ident_end_char(s, i + 1);
    }
}

fn idents_exec(s: &str, n: usize) -> (r: Vec<String>)
    requires
        n == s@.len(),
    ensures
        text_views(r@) == idents_from(s@, 0),
{
    let mut acc: Vec<String> = Vec::new();
    let mut cur: usize = 0;
    proof {
        assert(text_views(acc@) =~= Seq::<Seq<char>>::empty());
        assert(Seq::<Seq<char>>::empty() + idents_from(s@, 0) =~= idents_from(s@, 0));
    }
    loop
        invariant
            cur <= n,
            n == s@.len(),
            idents_from(s@, 0) == text_views(acc@) + idents_from(s@, cur as int),
            cur == n || cur == 0 || !is_ident_char(s@[cur - 1]) || !is_ident_char(s@[cur as int]),
        decreases n - cur,
    {
        let ghost pre = text_views(acc@);
        if cur == n {
            proof {
                assert(pre + idents_from(s@, cur as int) =~= pre);
            }
            return acc;
        }
        let c = s.get_char(cur);
        if ident_char(c) {
            let e = ident_end_exec(s, n, cur);
            proof {
                lemma_ident_end_char(s@, cur as int);
                assert(ident_end_from(s@, cur as int) == ident_end_from(s@, cur + 1));
                lemma_ident_end_bounds(s@, cur + 1);
            }
            if ident_start_char(c) {
                let name = String::from_str(s.substring_char(cur, e));
                acc.push(name);
                proof {
                    assert(text_views(acc@) =~= pre.push(s@.subrange(cur as int, e as int)));
                    assert(pre + (seq![s@.subrange(cur as int, e as int)] + idents_from(
                        s@,
                        e as int,
                    )) =~= pre.push(s@.subrange(cur as int, e as int)) + idents_from(
                        s@,
                        e as int,
                    ));
                }
            }
            cur = e;
        } else {
            cur = cur + 1;
        }
    }
}

/// Whether some string of the list has exactly these characters.
fn contains_str(v: &Vec<String>, x: &String) -> (r: bool)
    ensures
        r == text_views(v@).contains(x@),
{
    let mut i: usize = 0;
    while i < v.len()
        invariant
            i <= v@.len(),
            forall|j: int| 0 <= j < i ==> v@[j]@ != x@,
        decreases v@.len() - i,
    {
        if v[i].eq(x) {
            proof {
                assert(text_views(v@)[i as int] == x@);
            }
            return true;
        }
        i = i + 1;
    }
    proof {
        if text_views(v@).contains(x@) {
            let w = choose|j: int| 0 <= j < v@.len() && text_views(v@)[j] == x@;
            assert(v@[w]@ == x@);
        }
    }
    false
}

/// The position of the first string with exactly these characters.
fn index_of_str(v: &Vec<String>, x: &String) -> (r: usize)
    requires
        text_views(v@).contains(x@),
    ensures
        r == first_index_of(text_views(v@), x@),
        r < v@.len(),
{
    let l = v.len();
    let mut i: usize = 0;
    loop
        invariant
            i <= l,
            l == v@.len(),
            text_views(v@).contains(x@),
            forall|j: int| 0 <= j < i ==> v@[j]@ != x@,
        decreases v@.len() - i,
    {
        proof {
            if i >= v@.len() {
                let w = choose|j: int|
                    0 <= j < v@.len() && text_views(v@)[j] == x@;
                assert(v@[w]@ == x@);
                assert(false);
            }
        }
        if v[i].eq(x) {
            proof {
                assert(text_views(v@)[i as int] == x@);
                assert forall|j: int| 0 <= j < i implies text_views(v@)[j] != x@ by {
                    assert(v@[j]@ != x@);
                }
                lemma_first_index_found(text_views(v@), x@, i as int);
            }
            return i;
        }
        i = i + 1;
    }
}

/// First-seen-order deduplication of the identifier list.
fn dedup_exec(ids: &Vec<String>) -> (r: Vec<String>)
    ensures
        text_views(r@) == dedup_first(text_views(ids@)),
{
    let mut out: Vec<String> = Vec::new();
    let mut i: usize = 0;
    proof {
        assert(text_views(ids@).take(0) =~= Seq::<Seq<char>>::empty());
        assert(text_views(out@) =~= dedup_first(text_views(ids@).take(0)));
    }
    while i < ids.len()
        invariant
            i <= ids@.len(),
            text_views(out@) == dedup_first(text_views(ids@).take(i as int)),
        decreases ids@.len() - i,
    {
        let ghost pre = text_views(out@);
        proof {
            assert(text_views(ids@).take(i + 1) =~= text_views(ids@).take(i as int).push(
                ids@[i as int]@,
            ));
            assert(text_views(ids@).take(i + 1).drop_last() =~= text_views(ids@).take(i as int));
        }
        if !contains_str(&out, &ids[i]) {
            out.push(ids[i].clone());
            proof {
                assert(text_views(out@) =~= pre.push(ids@[i as int]@));
            }
        }
        i = i + 1;
    }
    proof {
        assert(text_views(ids@).take(ids@.len() as int) =~= text_views(ids@));
    }
    out
}

spec fn bind_views(v: Seq<Binding>) -> Seq<BindingShape> {
    v.map_values(|b: Binding| b@)
}

spec fn prepend_binds(pre: Seq<BindingShape>, r: Result<Seq<BindingShape>, FaultKind>) -> Result<
    Seq<BindingShape>,
    FaultKind,
> {
    match r {
        Ok(bs) => Ok(pre + bs),
        Err(k) => Err(k),
    }
}

/// Resolves the deduplicated identifiers of one coefficient.
fn bind_exec(ids: &Vec<String>, names: &Vec<String>) -> (r: Result<Vec<Binding>, FaultKind>)
    ensures
        match r {
            Ok(v) => bindings_of(text_views(ids@), text_views(names@)) == Ok::<
                Seq<BindingShape>,
                FaultKind,
            >(bind_views(v@)),
            Err(k) => bindings_of(text_views(ids@), text_views(names@)) == Err::<
                Seq<BindingShape>,
                FaultKind,
            >(k),
        },
{
    let ghost all = text_views(ids@);
    let ghost nms = text_views(names@);
    let mut out: Vec<Binding> = Vec::new();
    let mut i: usize = 0;
    proof {
        assert(all.skip(0) =~= all);
        assert(bind_views(out@) =~= Seq::<BindingShape>::empty());
    }
    while i < ids.len()
        invariant
            i <= ids@.len(),
            all == text_views(ids@),
            nms == text_views(names@),
            bindings_of(all, nms) == prepend_binds(bind_views(out@), bindings_of(
                all.skip(i as int),
                nms,
            )),
        decreases ids@.len() - i,
    {
        let ghost pre = bind_views(out@);
        proof {
            assert(all.skip(i as int)[0] == ids@[i as int]@);
            assert(all.skip(i as int).drop_first() =~= all.skip(i + 1));
        }
        let id = &ids[i];
        let idlen = id.as_str().unicode_len();
        let kind: BindingKind;
        if idlen == 1 && id.as_str().get_char(0) == 't' {
            kind = BindingKind::Time;
        } else if contains_str(names, id) {
            let pidx = index_of_str(names, id);
            kind = BindingKind::Process(pidx);
        } else {
            return Err(FaultKind::UnknownIdentifier);
        }
        let b = Binding { name: id.clone(), kind };
        out.push(b);
        proof {
            assert(bind_views(out@) =~= pre.push(out@[out@.len() - 1]@));
            let tail = bindings_of(all.skip(i + 1), nms);
            match tail {
                Ok(rest) => {
                    assert(pre + (seq![out@[out@.len() - 1]@] + rest) =~= pre.push(
                        out@[out@.len() - 1]@,
                    ) + rest);
                },
                Err(_) => {},
            }
        }
        i = i + 1;
    }
    proof {
        assert(all.skip(ids@.len() as int).len() == 0);
        assert(bindings_of(all.skip(ids@.len() as int), nms) == Ok::<
            Seq<BindingShape>,
            FaultKind,
        >(Seq::empty()));
        assert(bind_views(out@) + Seq::<BindingShape>::empty() =~= bind_views(out@));
    }
    Ok(out)
}

/// Finds a token in the registry or appends it; returns its index, which
/// is its global source index for good.
fn lookup_or_insert(registry: &mut Vec<String>, token: &String) -> (r: usize)
    ensures
        text_views(old(registry)@).contains(token@) ==> final(registry)@ == old(registry)@ && r
            == first_index_of(text_views(old(registry)@), token@),
        !text_views(old(registry)@).contains(token@) ==> text_views(final(registry)@)
            == text_views(old(registry)@).push(token@) && r == old(registry)@.len() && r
            == first_index_of(text_views(final(registry)@), token@),
{
    if contains_str(registry, token) {
        index_of_str(registry, token)
    } else {
        let r = registry.len();
        registry.push(token.clone());
        proof {
            assert(text_views(registry@) =~= text_views(old(registry)@).push(token@));
            lemma_first_index_push_new(text_views(old(registry)@), token@);
        }
        r
    }
}

/// Tokens of a concatenation are the concatenation of the tokens.
proof fn lemma_tokens_concat(a: Seq<TermShape>, b: Seq<TermShape>)
    ensures
        tokens_of_terms(a + b) == tokens_of_terms(a) + tokens_of_terms(b),
    decreases a.len(),
{
    if a.len() == 0 {
        assert(a + b =~= b);
        assert(tokens_of_terms(a) + tokens_of_terms(b) =~= tokens_of_terms(b));
    } else {
        assert((a + b).len() > 0);
        assert((a + b)[0] == a[0]);
        assert((a + b).drop_first() =~= a.drop_first() + b);
        lemma_tokens_concat(a.drop_first(), b);
        match token_of(a[0]) {
            Some(tok0) => {
                assert(seq![tok0] + (tokens_of_terms(a.drop_first()) + tokens_of_terms(b))
                    =~= (seq![tok0] + tokens_of_terms(a.drop_first())) + tokens_of_terms(b));
            },
            None => {},
        }
    }
}

/// System tokens of a concatenation of equation lists concatenate too.
proof fn lemma_all_tokens_concat(
    a: Seq<(Seq<char>, Seq<TermShape>)>,
    b: Seq<(Seq<char>, Seq<TermShape>)>,
)
    ensures
        all_tokens(a + b) == all_tokens(a) + all_tokens(b),
    decreases a.len(),
{
    if a.len() == 0 {
        assert(a + b =~= b);
        assert(all_tokens(a) + all_tokens(b) =~= all_tokens(b));
    } else {
        assert((a + b)[0] == a[0]);
        assert((a + b).drop_first() =~= a.drop_first() + b);
        lemma_all_tokens_concat(a.drop_first(), b);
        assert(tokens_of_terms(a[0].1) + (all_tokens(a.drop_first()) + all_tokens(b))
            =~= (tokens_of_terms(a[0].1) + all_tokens(a.drop_first())) + all_tokens(b));
    }
}

// ---------------------------------------------------------------------
// The whole compilation
// ---------------------------------------------------------------------
/// One equation after the structural pass, terms already in compiled
/// order.
struct EqPre {
    name: String,
    terms: Vec<TermPre>,
}

impl View for EqPre {
    type V = (Seq<char>, Seq<TermShape>);

    closed spec fn view(&self) -> (Seq<char>, Seq<TermShape>) {
        (self.name@, shapes_of_terms(self.terms@))
    }
}

spec fn eqpre_views(v: Seq<EqPre>) -> Seq<(Seq<char>, Seq<TermShape>)> {
    v.map_values(|e: EqPre| e@)
}

spec fn prepend_shape_eqs(
    pre: Seq<(Seq<char>, Seq<TermShape>)>,
    r: Result<Seq<(Seq<char>, Seq<TermShape>)>, (int, FaultKind)>,
) -> Result<Seq<(Seq<char>, Seq<TermShape>)>, (int, FaultKind)> {
    match r {
        Ok(rest) => Ok(pre + rest),
        Err(e) => Err(e),
    }
}

spec fn term_views(v: Seq<ParsedTerm>) -> Seq<TermResolved> {
    v.map_values(|t: ParsedTerm| t@)
}

spec fn eq_views(v: Seq<ParsedEquation>) -> Seq<EquationResolved> {
    v.map_values(|e: ParsedEquation| e@)
}

spec fn prepend_res_terms(pre: Seq<TermResolved>, r: Result<Seq<TermResolved>, FaultKind>) -> Result<
    Seq<TermResolved>,
    FaultKind,
> {
    match r {
        Ok(rest) => Ok(pre + rest),
        Err(k) => Err(k),
    }
}

spec fn prepend_res_eqs(
    pre: Seq<EquationResolved>,
    r: Result<Seq<EquationResolved>, (int, FaultKind)>,
) -> Result<Seq<EquationResolved>, (int, FaultKind)> {
    match r {
        Ok(rest) => Ok(pre + rest),
        Err(e) => Err(e),
    }
}

/// Compiles the equation texts into the indexed system: process names
/// discovered and checked unique, every equation parsed against the
/// grammar, terms put in drift-first order, every identifier bound,
/// every coefficient accepted by the expression engine, and every
/// distinct Wiener / jump token given its global source index in
/// first-seen order.  `spec_compile` states exactly which input yields
/// which system, and which fault at which equation otherwise.
pub fn parse_equations(equations: &Vec<String>) -> (r: Result<ParsedSystem, CompileError>)
    ensures
        match r {
            Ok(sys) => spec_compile(text_views(equations@)) == Ok::<
                SystemResolved,
                (int, FaultKind),
            >(sys@),
            Err(e) => spec_compile(text_views(equations@)) == Err::<
                SystemResolved,
                (int, FaultKind),
            >((e.equation as int, e.kind)),
        },
{
    let ghost eqs = text_views(equations@);
    let m = equations.len();
    if m == 0 {
        return Err(CompileError { equation: 0, kind: FaultKind::EmptyInput });
    }
    // Pass 1: the process names, in equation order, each new.
    let mut names: Vec<String> = Vec::new();
    let mut i: usize = 0;
    proof {
        assert(text_views(names@) =~= Seq::<Seq<char>>::empty());
    }
    while i < m
        invariant
            i <= m,
            m == equations@.len(),
            eqs == text_views(equations@),
            names_pass(eqs, 0, Seq::empty()) == names_pass(eqs, i as int, text_views(names@)),
        decreases m - i,
    {
        let ghost acc = text_views(names@);
        let sref = equations[i].as_str();
        let n = sref.unicode_len();
        proof {
            assert(eqs[i as int] == equations@[i as int]@);
        }
        match parse_lhs_exec(sref, n) {
            Err(k) => {
                return Err(CompileError { equation: i, kind: k });
            },
            Ok((nm, _pos)) => {
                if contains_str(&names, &nm) {
                    return Err(CompileError { equation: i, kind: FaultKind::DuplicateName });
                }
                let ghost nmv = nm@;
                names.push(nm);
                proof {
                    assert(text_views(names@) =~= acc.push(nmv));
                }
            },
        }
        i = i + 1;
    }
    let ghost names_views = text_views(names@);
    proof {
        assert(names_pass(eqs, 0, Seq::empty()) == Ok::<Seq<Seq<char>>, (int, FaultKind)>(
            names_views,
        ));
    }
    // Pass 2: the structure of every equation, terms in compiled order.
    let mut shapes: Vec<EqPre> = Vec::new();
    let mut i2: usize = 0;
    proof {
        assert(eqpre_views(shapes@) =~= Seq::<(Seq<char>, Seq<TermShape>)>::empty());
    }
    while i2 < m
        invariant
            i2 <= m,
            m == equations@.len(),
            eqs == text_views(equations@),
            eqs.len() == m,
            names_views == text_views(names@),
            names_pass(eqs, 0, Seq::empty()) == Ok::<Seq<Seq<char>>, (int, FaultKind)>(
                names_views,
            ),
            shapes_pass(eqs, 0) == prepend_shape_eqs(eqpre_views(shapes@), shapes_pass(
                eqs,
                i2 as int,
            )),
        decreases m - i2,
    {
        let ghost pre = eqpre_views(shapes@);
        let sref = equations[i2].as_str();
        let n = sref.unicode_len();
        proof {
            assert(eqs[i2 as int] == equations@[i2 as int]@);
        }
        match parse_lhs_exec(sref, n) {
            Err(k) => {
                return Err(CompileError { equation: i2, kind: k });
            },
            Ok((nm2, pos)) => {
                match parse_terms_exec(sref, n, pos) {
                    Err(k) => {
                        return Err(CompileError { equation: i2, kind: k });
                    },
                    Ok(terms_pre) => {
                        let reordered = dt_first_exec(terms_pre);
                        let ghost el = (nm2@, shapes_of_terms(reordered@));
                        shapes.push(EqPre { name: nm2, terms: reordered });
                        proof {
                            assert(eqpre_views(shapes@) =~= pre.push(el));
                            match shapes_pass(eqs, i2 + 1) {
                                Ok(rest) => {
                                    assert(pre + (seq![el] + rest) =~= pre.push(el) + rest);
                                },
                                Err(_) => {},
                            }
                        }
                    },
                }
            },
        }
        i2 = i2 + 1;
    }
    let ghost shape_views = eqpre_views(shapes@);
    let ghost reg_final = dedup_first(all_tokens(shape_views));
    proof {
        assert(shapes_pass(eqs, 0) == Ok::<Seq<(Seq<char>, Seq<TermShape>)>, (int, FaultKind)>(
            shape_views,
        ));
    }
    // Pass 3: bindings, expression checks, and source indices.
    let mut registry: Vec<String> = Vec::new();
    let mut out: Vec<ParsedEquation> = Vec::new();
    let eq_count = shapes.len();
    let mut i3: usize = 0;
    proof {
        assert(shape_views.take(0) =~= Seq::<(Seq<char>, Seq<TermShape>)>::empty());
        assert(text_views(registry@) =~= dedup_first(all_tokens(shape_views.take(0))));
        assert(eq_views(out@) =~= Seq::<EquationResolved>::empty());
    }
    while i3 < eq_count
        invariant
            i3 <= eq_count,
            eq_count == shapes@.len(),
            eqs == text_views(equations@),
            eqs.len() >= 1,
            names_views == text_views(names@),
            shape_views == eqpre_views(shapes@),
            reg_final == dedup_first(all_tokens(shape_views)),
            names_pass(eqs, 0, Seq::empty()) == Ok::<Seq<Seq<char>>, (int, FaultKind)>(
                names_views,
            ),
            shapes_pass(eqs, 0) == Ok::<Seq<(Seq<char>, Seq<TermShape>)>, (int, FaultKind)>(
                shape_views,
            ),
            text_views(registry@) == dedup_first(all_tokens(shape_views.take(i3 as int))),
            resolve_pass(shape_views, 0, names_views, reg_final) == prepend_res_eqs(
                eq_views(out@),
                resolve_pass(shape_views, i3 as int, names_views, reg_final),
            ),
        decreases eq_count - i3,
    {
        let ghost out_pre = eq_views(out@);
        let ghost ts = shape_views[i3 as int].1;
        let term_count = shapes[i3].terms.len();
        proof {
            assert(shape_views[i3 as int] == shapes@[i3 as int]@);
            assert(ts == shapes_of_terms(shapes@[i3 as int].terms@));
            assert(ts.take(0) =~= Seq::<TermShape>::empty());
            assert(tokens_of_terms(ts.take(0)) =~= Seq::<Seq<char>>::empty());
            assert(all_tokens(shape_views.take(i3 as int)) + Seq::<Seq<char>>::empty()
                =~= all_tokens(shape_views.take(i3 as int)));
            assert(ts.skip(0) =~= ts);
        }
        let mut built: Vec<ParsedTerm> = Vec::new();
        let mut j: usize = 0;
        proof {
            assert(term_views(built@) =~= Seq::<TermResolved>::empty());
        }
        while j < term_count
            invariant
                j <= term_count,
                i3 < eq_count,
                eq_count == shapes@.len(),
                term_count == shapes@[i3 as int].terms@.len(),
                eqs == text_views(equations@),
                eqs.len() >= 1,
                names_views == text_views(names@),
                shape_views == eqpre_views(shapes@),
                reg_final == dedup_first(all_tokens(shape_views)),
                ts == shape_views[i3 as int].1,
                ts == shapes_of_terms(shapes@[i3 as int].terms@),
                names_pass(eqs, 0, Seq::empty()) == Ok::<Seq<Seq<char>>, (int, FaultKind)>(
                    names_views,
                ),
                shapes_pass(eqs, 0) == Ok::<Seq<(Seq<char>, Seq<TermShape>)>, (int, FaultKind)>(
                    shape_views,
                ),
                text_views(registry@) == dedup_first(
                    all_tokens(shape_views.take(i3 as int)) + tokens_of_terms(
                        ts.take(j as int),
                    ),
                ),
                resolve_pass(shape_views, 0, names_views, reg_final) == prepend_res_eqs(
                    eq_views(out@),
                    resolve_pass(shape_views, i3 as int, names_views, reg_final),
                ),
                eq_views(out@) == out_pre,
                resolve_terms(ts, names_views, reg_final) == prepend_res_terms(
                    term_views(built@),
                    resolve_terms(ts.skip(j as int), names_views, reg_final),
                ),
            decreases term_count - j,
        {
            let ghost built_pre = term_views(built@);
            let ghost partial = all_tokens(shape_views.take(i3 as int)) + tokens_of_terms(
                ts.take(j as int),
            );
            proof {
                assert(ts.skip(j as int)[0] == ts[j as int]);
                assert(ts.skip(j as int).drop_first() =~= ts.skip(j + 1));
                assert(ts[j as int] == shapes@[i3 as int].terms@[j as int]@);
            }
            let expr_ref = &shapes[i3].terms[j].expr;
            let n2 = expr_ref.as_str().unicode_len();
            let ids = idents_exec(expr_ref.as_str(), n2);
            let dids = dedup_exec(&ids);
            proof {
                assert(expr_ref@ == ts[j as int].expr);
                assert(text_views(dids@) == dedup_first(idents_from(ts[j as int].expr, 0)));
            }
            let binds: Vec<Binding>;
            match bind_exec(&dids, &names) {
                Err(k) => {
                    proof {
                        assert(resolve_term(ts[j as int], names_views, reg_final) == Err::<
                            TermResolved,
                            FaultKind,
                        >(k));
                        assert(resolve_terms(ts.skip(j as int), names_views, reg_final) == Err::<
                            Seq<TermResolved>,
                            FaultKind,
                        >(k));
                        assert(resolve_terms(ts, names_views, reg_final) == Err::<
                            Seq<TermResolved>,
                            FaultKind,
                        >(k));
                        assert(resolve_pass(shape_views, i3 as int, names_views, reg_final)
                            == Err::<Seq<EquationResolved>, (int, FaultKind)>((i3 as int, k)));
                        assert(resolve_pass(shape_views, 0, names_views, reg_final) == Err::<
                            Seq<EquationResolved>,
                            (int, FaultKind),
                        >((i3 as int, k)));
                        assert(spec_compile(eqs) == Err::<SystemResolved, (int, FaultKind)>(
                            (i3 as int, k),
                        ));
                    }
                    return Err(CompileError { equation: i3, kind: k });
                },
                Ok(b) => {
                    binds = b;
                },
            }
            if !expr_parse_check(expr_ref.as_str()) {
                proof {
                    assert(resolve_term(ts[j as int], names_views, reg_final) == Err::<
                        TermResolved,
                        FaultKind,
                    >(FaultKind::ExprRejected));
                    assert(resolve_terms(ts.skip(j as int), names_views, reg_final) == Err::<
                        Seq<TermResolved>,
                        FaultKind,
                    >(FaultKind::ExprRejected));
                    assert(resolve_terms(ts, names_views, reg_final) == Err::<
                        Seq<TermResolved>,
                        FaultKind,
                    >(FaultKind::ExprRejected));
                    assert(resolve_pass(shape_views, i3 as int, names_views, reg_final) == Err::<
                        Seq<EquationResolved>,
                        (int, FaultKind),
                    >((i3 as int, FaultKind::ExprRejected)));
                    assert(resolve_pass(shape_views, 0, names_views, reg_final) == Err::<
                        Seq<EquationResolved>,
                        (int, FaultKind),
                    >((i3 as int, FaultKind::ExprRejected)));
                    assert(spec_compile(eqs) == Err::<SystemResolved, (int, FaultKind)>(
                        (i3 as int, FaultKind::ExprRejected),
                    ));
                }
                return Err(CompileError { equation: i3, kind: FaultKind::ExprRejected });
            }
            proof {
                lemma_whole_token_decomposition(shape_views, i3 as int, j as int);
                assert(ts.take(j + 1) =~= ts.take(j as int).push(ts[j as int]));
                lemma_tokens_push(ts.take(j as int), ts[j as int]);
            }
            let inc: IncSpec;
            match &shapes[i3].terms[j].tok {
                TokPre::Dt => {
                    inc = IncSpec::Dt;
                    proof {
                        assert(tokens_of_terms(ts.take(j + 1)) =~= tokens_of_terms(
                            ts.take(j as int),
                        ) + Seq::<Seq<char>>::empty());
                        assert(tokens_of_terms(ts.take(j + 1)) =~= tokens_of_terms(
                            ts.take(j as int),
                        ));
                    }
                },
                TokPre::Wiener(tk) => {
                    let ghost reg_pre = text_views(registry@);
                    let src = lookup_or_insert(&mut registry, tk);
                    proof {
                        lemma_source_index_stable(
                            shape_views,
                            i3 as int,
                            j as int,
                            reg_pre,
                            text_views(registry@),
                            tk@,
                            reg_final,
                        );
                    }
                    inc = IncSpec::Wiener { token: tk.clone(), source: src };
                },
                TokPre::Jump(tk, lm) => {
                    let ghost reg_pre = text_views(registry@);
                    let src = lookup_or_insert(&mut registry, tk);
                    proof {
                        lemma_source_index_stable(
                            shape_views,
                            i3 as int,
                            j as int,
                            reg_pre,
                            text_views(registry@),
                            tk@,
                            reg_final,
                        );
                    }
                    inc = IncSpec::Jump { token: tk.clone(), lambda: lm.clone(), source: src };
                },
            }
            let term = ParsedTerm {
                expr: expr_ref.clone(),
                bindings: binds,
                inc,
            };
            proof {
                assert(resolve_term(ts[j as int], names_views, reg_final) == Ok::<
                    TermResolved,
                    FaultKind,
                >(term@));
            }
            built.push(term);
            proof {
                assert(term_views(built@) =~= built_pre.push(built@[built@.len() - 1]@));
                match resolve_terms(ts.skip(j + 1), names_views, reg_final) {
                    Ok(rest) => {
                        assert(built_pre + (seq![built@[built@.len() - 1]@] + rest)
                            =~= built_pre.push(built@[built@.len() - 1]@) + rest);
                    },
                    Err(_) => {},
                }
            }
            j = j + 1;
        }
        proof {
            assert(ts.take(term_count as int) =~= ts);
            assert(ts.skip(term_count as int).len() == 0);
            assert(resolve_terms(ts.skip(term_count as int), names_views, reg_final) == Ok::<
                Seq<TermResolved>,
                FaultKind,
            >(Seq::empty()));
            assert(term_views(built@) + Seq::<TermResolved>::empty() =~= term_views(built@));
        }
        let eq_name = shapes[i3].name.clone();
        let parsed_eq = ParsedEquation { name: eq_name, terms: built };
        proof {
            assert(parsed_eq@ == EquationResolved {
                name: shape_views[i3 as int].0,
                terms: term_views(parsed_eq.terms@),
            });
        }
        out.push(parsed_eq);
        proof {
            assert(eq_views(out@) =~= out_pre.push(out@[out@.len() - 1]@));
            match resolve_pass(shape_views, i3 + 1, names_views, reg_final) {
                Ok(rest) => {
                    assert(out_pre + (seq![out@[out@.len() - 1]@] + rest) =~= out_pre.push(
                        out@[out@.len() - 1]@,
                    ) + rest);
                },
                Err(_) => {},
            }
            assert(shape_views.take(i3 + 1) =~= shape_views.take(i3 as int).push(
                shape_views[i3 as int],
            ));
            lemma_all_tokens_push(shape_views.take(i3 as int), shape_views[i3 as int]);
        }
        i3 = i3 + 1;
    }
    proof {
        assert(shape_views.take(eq_count as int) =~= shape_views);
        assert(resolve_pass(shape_views, eq_count as int, names_views, reg_final) == Ok::<
            Seq<EquationResolved>,
            (int, FaultKind),
        >(Seq::empty()));
        assert(eq_views(out@) + Seq::<EquationResolved>::empty() =~= eq_views(out@));
    }
    let sys = ParsedSystem { process_names: names, equations: out, source_tokens: registry };
    proof {
        assert(sys@.registry == reg_final);
        assert(sys@.num_sources == reg_final.len());
        assert(sys@ == SystemResolved {
            names: names_views,
            equations: eq_views(sys.equations@),
            registry: reg_final,
            num_sources: reg_final.len() as int,
        });
    }
    Ok(sys)
}

/// The whole token list decomposes around position (i, j): everything
/// before that term, then what follows.
proof fn lemma_whole_token_decomposition(
    shape_views: Seq<(Seq<char>, Seq<TermShape>)>,
    i: int,
    j: int,
)
    requires
        0 <= i < shape_views.len(),
        0 <= j <= shape_views[i].1.len(),
    ensures
        all_tokens(shape_views) == (all_tokens(shape_views.take(i)) + tokens_of_terms(
            shape_views[i].1.take(j),
        )) + (tokens_of_terms(shape_views[i].1.skip(j)) + all_tokens(shape_views.skip(i + 1))),
{
    let ts = shape_views[i].1;
    assert(shape_views =~= shape_views.take(i + 1) + shape_views.skip(i + 1));
    lemma_all_tokens_concat(shape_views.take(i + 1), shape_views.skip(i + 1));
    assert(shape_views.take(i + 1) =~= shape_views.take(i).push(shape_views[i]));
    lemma_all_tokens_push(shape_views.take(i), shape_views[i]);
    assert(ts =~= ts.take(j) + ts.skip(j));
    lemma_tokens_concat(ts.take(j), ts.skip(j));
    assert(all_tokens(shape_views) == ((all_tokens(shape_views.take(i)) + (tokens_of_terms(
        ts.take(j),
    ) + tokens_of_terms(ts.skip(j)))) + all_tokens(shape_views.skip(i + 1))));
    assert(((all_tokens(shape_views.take(i)) + (tokens_of_terms(ts.take(j)) + tokens_of_terms(
        ts.skip(j),
    ))) + all_tokens(shape_views.skip(i + 1))) =~= (all_tokens(shape_views.take(i))
        + tokens_of_terms(ts.take(j))) + (tokens_of_terms(ts.skip(j)) + all_tokens(
        shape_views.skip(i + 1),
    )));
}

/// After registering the token of term (i, j), the registry is the dedup
/// of the tokens seen through that term, it stays a prefix of the final
/// registry, and the index handed out equals the token's index there.
proof fn lemma_source_index_stable(
    shape_views: Seq<(Seq<char>, Seq<TermShape>)>,
    i: int,
    j: int,
    reg_pre: Seq<Seq<char>>,
    reg_post: Seq<Seq<char>>,
    tk: Seq<char>,
    reg_final: Seq<Seq<char>>,
)
    requires
        0 <= i < shape_views.len(),
        0 <= j < shape_views[i].1.len(),
        token_of(shape_views[i].1[j]) == Some(tk),
        reg_pre == dedup_first(
            all_tokens(shape_views.take(i)) + tokens_of_terms(shape_views[i].1.take(j)),
        ),
        reg_final == dedup_first(all_tokens(shape_views)),
        reg_pre.contains(tk) ==> reg_post == reg_pre,
        !reg_pre.contains(tk) ==> reg_post == reg_pre.push(tk),
    ensures
        reg_post == dedup_first(
            all_tokens(shape_views.take(i)) + tokens_of_terms(shape_views[i].1.take(j + 1)),
        ),
        is_prefix_of(reg_post, reg_final),
        reg_post.contains(tk),
        first_index_of(reg_final, tk) == first_index_of(reg_post, tk),
{
    let ts = shape_views[i].1;
    let partial = all_tokens(shape_views.take(i)) + tokens_of_terms(ts.take(j));
    assert(ts.take(j + 1) =~= ts.take(j).push(ts[j]));
    lemma_tokens_push(ts.take(j), ts[j]);
    let partial2 = all_tokens(shape_views.take(i)) + tokens_of_terms(ts.take(j + 1));
    assert(partial2 =~= partial.push(tk)) by {
        assert(tokens_of_terms(ts.take(j + 1)) == tokens_of_terms(ts.take(j)) + seq![tk]);
    }
    // dedup of the extended list
    assert(partial.push(tk).drop_last() =~= partial);
    assert(partial.push(tk).last() == tk);
    lemma_dedup_contains(partial, tk);
    assert(reg_post == dedup_first(partial.push(tk)));
    // prefix of the final registry
    lemma_whole_token_decomposition(shape_views, i, j + 1);
    let rest = tokens_of_terms(ts.skip(j + 1)) + all_tokens(shape_views.skip(i + 1));
    assert(all_tokens(shape_views) == partial2 + rest);
    lemma_dedup_prefix(partial2, rest);
    assert(is_prefix_of(dedup_first(partial2), reg_final));
    // the handed-out index survives into the final registry
    assert(reg_post.contains(tk)) by {
        if reg_pre.contains(tk) {
        } else {
            assert(reg_pre.push(tk)[reg_pre.len() as int] == tk);
        }
    }
    lemma_first_index_prefix(reg_post, reg_final, tk);
}

} // verus!
