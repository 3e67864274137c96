//! The parser: tokens to type expressions and type declarations.
//!
//! Grammar, with `!` marking a committed step (its failure is fatal):
//!
//! ```text
//! atomic   := paren | index | generic | concrete
//! paren    := '(' main ')'!
//! index    := UpperSymbol '<' main! '>'!
//! generic  := LowerSymbol
//! concrete := UpperSymbol
//! main     := atomic ('->' main!)?
//!
//! type_params := '<' LowerSymbol! (',' LowerSymbol!)* '>'!   (names distinct)
//! param_list  := '(' main! (',' main!)* ')'!
//! cons_case   := UpperSymbol param_list?
//! cons_list   := '{' (cons_case ',')* cons_case? '}'!
//! decl        := 'type' type_params? UpperSymbol! cons_list?
//! ```
//!
//! A case list may end with a comma and may be empty. Each production is
//! stated as a spec function giving its outcome from a token position; the
//! executable productions are proved equal to them.
use vstd::prelude::*;
use vstd::string::StrSliceExecFns;
use crate::data::{
    AMeta, CaseModel, ConsCase, ConsDef, DefModel, Kind, TMeta, Token, Type, TypeModel, cases_model, defs_model,
    names_model, types_model,
};
use crate::pattern::{MatchError, Outcome, is_recoverable, recoverable};

verus! {

/// An outcome over token positions.
pub type Parsed<T> = (Result<T, MatchError>, int);

pub open spec fn tok_is(ts: Seq<Token>, p: int, k: Kind) -> bool {
    0 <= p < ts.len() && ts[p].spec_kind() == k
}

/// The recoverable failure at `p`: a mismatch, or the end of the tokens.
pub open spec fn tmiss(ts: Seq<Token>, p: int) -> MatchError {
    if 0 <= p < ts.len() {
        MatchError::Error(p as usize)
    } else {
        MatchError::ErrorEndOfFile
    }
}

/// The fatal failure at `p`.
pub open spec fn tfatal(ts: Seq<Token>, p: int) -> MatchError {
    tmiss(ts, p).spec_to_fatal()
}

/// The spans of the tokens from `p` up to `q`.
pub open spec fn metas(ts: Seq<Token>, p: int, q: int) -> Seq<TMeta> {
    ts.subrange(p, q).map_values(|t: Token| t.spec_meta())
}

/// Ordered choice over token positions.
pub open spec fn either<T>(p: int, a: Parsed<T>, b: Parsed<T>) -> Parsed<T> {
    if !recoverable(a.0) {
        a
    } else if recoverable(b.0) {
        (b.0, p)
    } else {
        b
    }
}

/// A failure as a whole sequence begun at `p` reports it: a recoverable one
/// rewinds to `p`.
pub open spec fn failed<T>(p: int, e: MatchError, at: int) -> Parsed<T> {
    if e.spec_is_fatal() {
        (Err(e), at)
    } else {
        (Err(e), p)
    }
}

pub open spec fn paren_type(ts: Seq<Token>, p: int) -> Parsed<TypeModel>
    decreases ts.len() - p, 0int,
{
    if tok_is(ts, p, Kind::LParen) {
        let m = type_main(ts, p + 1);
        match m.0 {
            Err(e) => failed(p, e, m.1),
            Ok(t) => if tok_is(ts, m.1, Kind::RParen) {
                (Ok(t), m.1 + 1)
            } else {
                (Err(tfatal(ts, m.1)), m.1)
            },
        }
    } else {
        (Err(tmiss(ts, p)), p)
    }
}

pub open spec fn index_type(ts: Seq<Token>, p: int) -> Parsed<TypeModel>
    decreases ts.len() - p, 0int,
{
    if tok_is(ts, p, Kind::UpperSymbol) && tok_is(ts, p + 1, Kind::LAngle) {
        let m = type_main(ts, p + 2);
        match m.0 {
            Err(e) => (Err(e.spec_to_fatal()), m.1),
            Ok(t) => if tok_is(ts, m.1, Kind::RAngle) {
                (Ok(TypeModel::Index(metas(ts, p, m.1 + 1), ts[p].text(), Box::new(t))), m.1 + 1)
            } else {
                (Err(tfatal(ts, m.1)), m.1)
            },
        }
    } else if tok_is(ts, p, Kind::UpperSymbol) {
        (Err(tmiss(ts, p + 1)), p)
    } else {
        (Err(tmiss(ts, p)), p)
    }
}

pub open spec fn generic_type(ts: Seq<Token>, p: int) -> Parsed<TypeModel> {
    if tok_is(ts, p, Kind::LowerSymbol) {
        (Ok(TypeModel::Generic(metas(ts, p, p + 1), ts[p].text())), p + 1)
    } else {
        (Err(tmiss(ts, p)), p)
    }
}

pub open spec fn concrete_type(ts: Seq<Token>, p: int) -> Parsed<TypeModel> {
    if tok_is(ts, p, Kind::UpperSymbol) {
        (Ok(TypeModel::Concrete(metas(ts, p, p + 1), ts[p].text())), p + 1)
    } else {
        (Err(tmiss(ts, p)), p)
    }
}

pub open spec fn atomic_type(ts: Seq<Token>, p: int) -> Parsed<TypeModel>
    decreases ts.len() - p, 1int,
{
    either(
        p,
        paren_type(ts, p),
        either(p, index_type(ts, p), either(p, generic_type(ts, p), concrete_type(ts, p))),
    )
}

/// A type: an atomic type, and if an arrow follows, the arrow type whose
/// destination is the type after the arrow.
pub open spec fn type_main(ts: Seq<Token>, p: int) -> Parsed<TypeModel>
    decreases ts.len() - p, 2int,
{
    let a = atomic_type(ts, p);
    match a.0 {
        Err(e) => failed(p, e, a.1),
        Ok(t) => if p < a.1 && tok_is(ts, a.1, Kind::SRArrow) {
            let d = type_main(ts, a.1 + 1);
            match d.0 {
                Ok(dt) => (Ok(TypeModel::Arrow(metas(ts, p, d.1), Box::new(t), Box::new(dt))), d.1),
                Err(e) => (Err(e.spec_to_fatal()), d.1),
            }
        } else {
            (Ok(t), a.1)
        },
    }
}

/// `(',' main!)*`
pub open spec fn more_types(ts: Seq<Token>, p: int) -> Parsed<Seq<TypeModel>>
    decreases ts.len() - p,
{
    if tok_is(ts, p, Kind::Comma) {
        let t = type_main(ts, p + 1);
        match t.0 {
            Err(e) => (Err(e.spec_to_fatal()), t.1),
            Ok(x) => if p < t.1 <= ts.len() {
                let rest = more_types(ts, t.1);
                match rest.0 {
                    Ok(xs) => (Ok(seq![x] + xs), rest.1),
                    Err(e) => (Err(e), rest.1),
                }
            } else {
                (Ok(seq![x]), t.1)
            },
        }
    } else {
        (Ok(Seq::empty()), p)
    }
}

pub open spec fn param_list(ts: Seq<Token>, p: int) -> Parsed<Seq<TypeModel>> {
    if tok_is(ts, p, Kind::LParen) {
        let f = type_main(ts, p + 1);
        match f.0 {
            Err(e) => (Err(e.spec_to_fatal()), f.1),
            Ok(x) => {
                let r = more_types(ts, f.1);
                match r.0 {
                    Err(e) => (Err(e), r.1),
                    Ok(xs) => if tok_is(ts, r.1, Kind::RParen) {
                        (Ok(seq![x] + xs), r.1 + 1)
                    } else {
                        (Err(tfatal(ts, r.1)), r.1)
                    },
                }
            },
        }
    } else {
        (Err(tmiss(ts, p)), p)
    }
}

pub open spec fn cons_case(ts: Seq<Token>, p: int) -> Parsed<CaseModel> {
    if tok_is(ts, p, Kind::UpperSymbol) {
        let pl = param_list(ts, p + 1);
        match pl.0 {
            Ok(ps) => (Ok(CaseModel { meta: metas(ts, p, pl.1), name: ts[p].text(), params: ps }), pl.1),
            Err(e) => if e.spec_is_fatal() {
                (Err(e), pl.1)
            } else {
                (Ok(CaseModel { meta: metas(ts, p, p + 1), name: ts[p].text(), params: Seq::empty() }), p + 1)
            },
        }
    } else {
        (Err(tmiss(ts, p)), p)
    }
}

/// A case followed by a comma.
pub open spec fn case_comma(ts: Seq<Token>, p: int) -> Parsed<CaseModel> {
    let c = cons_case(ts, p);
    match c.0 {
        Ok(x) => if tok_is(ts, c.1, Kind::Comma) {
            (Ok(x), c.1 + 1)
        } else {
            (Err(tmiss(ts, c.1)), p)
        },
        Err(e) => failed(p, e, c.1),
    }
}

/// `(cons_case ',')*`
pub open spec fn cases_with_comma(ts: Seq<Token>, p: int) -> Parsed<Seq<CaseModel>>
    decreases ts.len() - p,
{
    let c = case_comma(ts, p);
    match c.0 {
        Ok(x) => if p < c.1 {
            let rest = cases_with_comma(ts, c.1);
            match rest.0 {
                Ok(xs) => (Ok(seq![x] + xs), rest.1),
                Err(e) => (Err(e), rest.1),
            }
        } else {
            (Ok(seq![x]), c.1)
        },
        Err(e) => if e.spec_is_fatal() {
            (Err(e), c.1)
        } else {
            (Ok(Seq::empty()), p)
        },
    }
}

pub open spec fn cons_list(ts: Seq<Token>, p: int) -> Parsed<Seq<CaseModel>> {
    if tok_is(ts, p, Kind::LCurl) {
        let r = cases_with_comma(ts, p + 1);
        match r.0 {
            Err(e) => (Err(e), r.1),
            Ok(cs) => {
                let l = cons_case(ts, r.1);
                let (all, q) = match l.0 {
                    Ok(c) => (Ok(cs.push(c)), l.1),
                    Err(e) => if e.spec_is_fatal() {
                        (Err(e), l.1)
                    } else {
                        (Ok(cs), r.1)
                    },
                };
                match all {
                    Err(e) => (Err(e), q),
                    Ok(xs) => if tok_is(ts, q, Kind::RCurl) {
                        (Ok(xs), q + 1)
                    } else {
                        (Err(tfatal(ts, q)), q)
                    },
                }
            },
        }
    } else {
        (Err(tmiss(ts, p)), p)
    }
}

/// `(',' LowerSymbol!)*`
pub open spec fn more_names(ts: Seq<Token>, p: int) -> Parsed<Seq<Seq<char>>>
    decreases ts.len() - p,
{
    if tok_is(ts, p, Kind::Comma) {
        if tok_is(ts, p + 1, Kind::LowerSymbol) {
            let rest = more_names(ts, p + 2);
            match rest.0 {
                Ok(ns) => (Ok(seq![ts[p + 1].text()] + ns), rest.1),
                Err(e) => (Err(e), rest.1),
            }
        } else {
            (Err(tfatal(ts, p + 1)), p + 1)
        }
    } else {
        (Ok(Seq::empty()), p)
    }
}

/// The index of the first name in `ns`, from `j` on, that repeats an earlier
/// one.
pub open spec fn repeated_name(ns: Seq<Seq<char>>, j: int) -> Option<int>
    decreases ns.len() - j,
{
    if j < 0 || j >= ns.len() {
        None
    } else if ns.subrange(0, j).contains(ns[j]) {
        Some(j)
    } else {
        repeated_name(ns, j + 1)
    }
}

proof fn lemma_repeated_name_bound(ns: Seq<Seq<char>>, j: int)
    requires
        0 <= j,
    ensures
        repeated_name(ns, j) matches Some(k) ==> j <= k < ns.len(),
    decreases ns.len() - j,
{
    if j < ns.len() && !ns.subrange(0, j).contains(ns[j]) {
        lemma_repeated_name_bound(ns, j + 1);
    }
}

proof fn lemma_more_names_end(ts: Seq<Token>, p: int)
    ensures
        more_names(ts, p).0 matches Ok(ns) ==> more_names(ts, p).1 == p + 2 * ns.len(),
    decreases ts.len() - p,
{
    if tok_is(ts, p, Kind::Comma) && tok_is(ts, p + 1, Kind::LowerSymbol) {
        lemma_more_names_end(ts, p + 2);
    }
}

/// Type parameters are names between angle brackets, each one different
/// from those before it: a repeated name is a fatal failure at that name.
pub open spec fn type_params(ts: Seq<Token>, p: int) -> Parsed<Seq<Seq<char>>> {
    if tok_is(ts, p, Kind::LAngle) {
        if tok_is(ts, p + 1, Kind::LowerSymbol) {
            let r = more_names(ts, p + 2);
            match r.0 {
                Err(e) => (Err(e), r.1),
                Ok(ns) => if tok_is(ts, r.1, Kind::RAngle) {
                    let all = seq![ts[p + 1].text()] + ns;
                    match repeated_name(all, 0) {
                        None => (Ok(all), r.1 + 1),
                        Some(j) => (Err(tfatal(ts, p + 1 + 2 * j)), p + 1 + 2 * j),
                    }
                } else {
                    (Err(tfatal(ts, r.1)), r.1)
                },
            }
        } else {
            (Err(tfatal(ts, p + 1)), p + 1)
        }
    } else {
        (Err(tmiss(ts, p)), p)
    }
}

/// The word that starts a declaration.
pub open spec fn type_word() -> Seq<char> {
    seq!['t', 'y', 'p', 'e']
}

/// `type`, parameters if any, the declared name, and cases if any.
pub open spec fn declaration(ts: Seq<Token>, p: int) -> Parsed<DefModel> {
    if tok_is(ts, p, Kind::LowerSymbol) && ts[p].text() == type_word() {
        let g = type_params(ts, p + 1);
        let (params, q) = match g.0 {
            Ok(ns) => (Ok(ns), g.1),
            Err(e) => if e.spec_is_fatal() {
                (Err(e), g.1)
            } else {
                (Ok(Seq::empty()), p + 1)
            },
        };
        match params {
            Err(e) => (Err(e), q),
            Ok(ns) => if tok_is(ts, q, Kind::UpperSymbol) {
                let cl = cons_list(ts, q + 1);
                let (cases, end) = match cl.0 {
                    Ok(cs) => (Ok(cs), cl.1),
                    Err(e) => if e.spec_is_fatal() {
                        (Err(e), cl.1)
                    } else {
                        (Ok(Seq::empty()), q + 1)
                    },
                };
                match cases {
                    Err(e) => (Err(e), end),
                    Ok(cs) => (
                        Ok(DefModel { meta: metas(ts, p, end), name: ts[q].text(), type_params: ns, cons: cs }),
                        end,
                    ),
                }
            } else {
                (Err(tfatal(ts, q)), q)
            },
        }
    } else {
        (Err(tmiss(ts, p)), p)
    }
}

/// Declarations from `p` to the end of the tokens; the first failure other
/// than running out of tokens ends it with that failure.
pub open spec fn declarations(ts: Seq<Token>, p: int) -> Result<Seq<DefModel>, MatchError>
    decreases ts.len() - p,
{
    let d = declaration(ts, p);
    match d.0 {
        Ok(x) => if p < d.1 <= ts.len() {
            match declarations(ts, d.1) {
                Ok(xs) => Ok(seq![x] + xs),
                Err(e) => Err(e),
            }
        } else {
            Ok(seq![x])
        },
        Err(e) => if e == MatchError::ErrorEndOfFile {
            Ok(Seq::empty())
        } else {
            Err(e)
        },
    }
}

/// A type or a declaration that fails recoverably leaves the cursor where it
/// started.
pub proof fn lemma_productions_rewind(ts: Seq<Token>, p: int)
    ensures
        recoverable(type_main(ts, p).0) ==> type_main(ts, p).1 == p,
        recoverable(declaration(ts, p).0) ==> declaration(ts, p).1 == p,
{
}

/// Two token sequences that differ at most in their spans.
pub open spec fn same_but_spans(a: Seq<Token>, b: Seq<Token>) -> bool {
    &&& a.len() == b.len()
    &&& forall|i: int|
        0 <= i < a.len() ==> #[trigger] a[i].spec_kind() == b[i].spec_kind() && a[i].text() == b[i].text()
}

/// A type with its spans dropped.
pub open spec fn strip_type(t: TypeModel) -> TypeModel
    decreases t,
{
    match t {
        TypeModel::Concrete(_, n) => TypeModel::Concrete(Seq::empty(), n),
        TypeModel::Generic(_, n) => TypeModel::Generic(Seq::empty(), n),
        TypeModel::Index(_, n, x) => TypeModel::Index(Seq::empty(), n, Box::new(strip_type(*x))),
        TypeModel::Arrow(_, a, b) => TypeModel::Arrow(
            Seq::empty(),
            Box::new(strip_type(*a)),
            Box::new(strip_type(*b)),
        ),
    }
}

pub open spec fn strip_types(xs: Seq<TypeModel>) -> Seq<TypeModel> {
    xs.map_values(|t: TypeModel| strip_type(t))
}

/// A case with its spans dropped.
pub open spec fn strip_case(c: CaseModel) -> CaseModel {
    CaseModel { meta: Seq::empty(), name: c.name, params: strip_types(c.params) }
}

pub open spec fn strip_cases(cs: Seq<CaseModel>) -> Seq<CaseModel> {
    cs.map_values(|c: CaseModel| strip_case(c))
}

/// A declaration with its spans dropped.
pub open spec fn strip_def(d: DefModel) -> DefModel {
    DefModel { meta: Seq::empty(), name: d.name, type_params: d.type_params, cons: strip_cases(d.cons) }
}

/// Two outcomes end at the same position and agree once `f` drops what may
/// differ: the same value, or the same failure.
pub open spec fn agree<T>(a: Parsed<T>, b: Parsed<T>, f: spec_fn(T) -> T) -> bool {
    &&& a.1 == b.1
    &&& match a.0 {
        Ok(x) => b.0 is Ok && f(x) == f(b.0->Ok_0),
        Err(e) => b.0 == Err::<T, MatchError>(e),
    }
}

proof fn lemma_prepend_map<T>(x1: T, x2: T, xs1: Seq<T>, xs2: Seq<T>, f: spec_fn(T) -> T)
    requires
        f(x1) == f(x2),
        xs1.map_values(f) == xs2.map_values(f),
    ensures
        (seq![x1] + xs1).map_values(f) == (seq![x2] + xs2).map_values(f),
{
    assert((seq![x1] + xs1).map_values(f) =~= seq![f(x1)] + xs1.map_values(f));
    assert((seq![x2] + xs2).map_values(f) =~= seq![f(x2)] + xs2.map_values(f));
}

proof fn lemma_push_map<T>(x1: T, x2: T, xs1: Seq<T>, xs2: Seq<T>, f: spec_fn(T) -> T)
    requires
        f(x1) == f(x2),
        xs1.map_values(f) == xs2.map_values(f),
    ensures
        xs1.push(x1).map_values(f) == xs2.push(x2).map_values(f),
{
    assert(xs1.push(x1).map_values(f) =~= xs1.map_values(f).push(f(x1)));
    assert(xs2.push(x2).map_values(f) =~= xs2.map_values(f).push(f(x2)));
}

proof fn lemma_paren_layout(t1: Seq<Token>, t2: Seq<Token>, p: int)
    requires
        same_but_spans(t1, t2),
    ensures
        agree(paren_type(t1, p), paren_type(t2, p), |t: TypeModel| strip_type(t)),
    decreases t1.len() - p, 0int,
{
    if tok_is(t1, p, Kind::LParen) {
        lemma_type_layout(t1, t2, p + 1);
        let m = type_main(t1, p + 1);
        if 0 <= m.1 < t1.len() {
            assert(t1[m.1].spec_kind() == t2[m.1].spec_kind());
        }
    }
    if 0 <= p < t1.len() {
        assert(t1[p].spec_kind() == t2[p].spec_kind());
    }
}

proof fn lemma_index_layout(t1: Seq<Token>, t2: Seq<Token>, p: int)
    requires
        same_but_spans(t1, t2),
    ensures
        agree(index_type(t1, p), index_type(t2, p), |t: TypeModel| strip_type(t)),
    decreases t1.len() - p, 0int,
{
    if 0 <= p < t1.len() {
        assert(t1[p].spec_kind() == t2[p].spec_kind() && t1[p].text() == t2[p].text());
    }
    if 0 <= p + 1 < t1.len() {
        assert(t1[p + 1].spec_kind() == t2[p + 1].spec_kind());
    }
    if tok_is(t1, p, Kind::UpperSymbol) && tok_is(t1, p + 1, Kind::LAngle) {
        lemma_type_layout(t1, t2, p + 2);
        let m = type_main(t1, p + 2);
        if 0 <= m.1 < t1.len() {
            assert(t1[m.1].spec_kind() == t2[m.1].spec_kind());
        }
    }
}

proof fn lemma_atomic_layout(t1: Seq<Token>, t2: Seq<Token>, p: int)
    requires
        same_but_spans(t1, t2),
    ensures
        agree(atomic_type(t1, p), atomic_type(t2, p), |t: TypeModel| strip_type(t)),
    decreases t1.len() - p, 1int,
{
    lemma_paren_layout(t1, t2, p);
    lemma_index_layout(t1, t2, p);
    if 0 <= p < t1.len() {
        assert(t1[p].spec_kind() == t2[p].spec_kind() && t1[p].text() == t2[p].text());
    }
}

proof fn lemma_type_layout(t1: Seq<Token>, t2: Seq<Token>, p: int)
    requires
        same_but_spans(t1, t2),
    ensures
        agree(type_main(t1, p), type_main(t2, p), |t: TypeModel| strip_type(t)),
    decreases t1.len() - p, 2int,
{
    lemma_atomic_layout(t1, t2, p);
    let a = atomic_type(t1, p);
    if 0 <= a.1 < t1.len() {
        assert(t1[a.1].spec_kind() == t2[a.1].spec_kind());
    }
    if a.0 is Ok && p < a.1 && tok_is(t1, a.1, Kind::SRArrow) {
        lemma_type_layout(t1, t2, a.1 + 1);
    }
}

proof fn lemma_more_types_layout(t1: Seq<Token>, t2: Seq<Token>, p: int)
    requires
        same_but_spans(t1, t2),
    ensures
        agree(more_types(t1, p), more_types(t2, p), |xs: Seq<TypeModel>| strip_types(xs)),
    decreases t1.len() - p,
{
    if 0 <= p < t1.len() {
        assert(t1[p].spec_kind() == t2[p].spec_kind());
    }
    if tok_is(t1, p, Kind::Comma) {
        lemma_type_layout(t1, t2, p + 1);
        let t = type_main(t1, p + 1);
        if let Ok(x1) = t.0 {
            let x2 = type_main(t2, p + 1).0->Ok_0;
            let f = |t: TypeModel| strip_type(t);
            if p < t.1 <= t1.len() {
                lemma_more_types_layout(t1, t2, t.1);
                let r1 = more_types(t1, t.1);
                let r2 = more_types(t2, t.1);
                if let Ok(xs1) = r1.0 {
                    lemma_prepend_map(x1, x2, xs1, r2.0->Ok_0, f);
                }
            } else {
                lemma_prepend_map(x1, x2, Seq::empty(), Seq::empty(), f);
                assert(seq![x1] + Seq::<TypeModel>::empty() =~= seq![x1]);
                assert(seq![x2] + Seq::<TypeModel>::empty() =~= seq![x2]);
            }
        }
    }
}

proof fn lemma_param_list_layout(t1: Seq<Token>, t2: Seq<Token>, p: int)
    requires
        same_but_spans(t1, t2),
    ensures
        agree(param_list(t1, p), param_list(t2, p), |xs: Seq<TypeModel>| strip_types(xs)),
{
    if 0 <= p < t1.len() {
        assert(t1[p].spec_kind() == t2[p].spec_kind());
    }
    if tok_is(t1, p, Kind::LParen) {
        lemma_type_layout(t1, t2, p + 1);
        let f = type_main(t1, p + 1);
        if let Ok(x1) = f.0 {
            lemma_more_types_layout(t1, t2, f.1);
            let r = more_types(t1, f.1);
            if 0 <= r.1 < t1.len() {
                assert(t1[r.1].spec_kind() == t2[r.1].spec_kind());
            }
            if let Ok(xs1) = r.0 {
                lemma_prepend_map(
                    x1,
                    type_main(t2, p + 1).0->Ok_0,
                    xs1,
                    more_types(t2, f.1).0->Ok_0,
                    |t: TypeModel| strip_type(t),
                );
            }
        }
    }
}

proof fn lemma_case_layout(t1: Seq<Token>, t2: Seq<Token>, p: int)
    requires
        same_but_spans(t1, t2),
    ensures
        agree(cons_case(t1, p), cons_case(t2, p), |c: CaseModel| strip_case(c)),
{
    if 0 <= p < t1.len() {
        assert(t1[p].spec_kind() == t2[p].spec_kind() && t1[p].text() == t2[p].text());
    }
    lemma_param_list_layout(t1, t2, p + 1);
    assert(strip_types(Seq::<TypeModel>::empty()) =~= Seq::<TypeModel>::empty());
}

proof fn lemma_case_comma_layout(t1: Seq<Token>, t2: Seq<Token>, p: int)
    requires
        same_but_spans(t1, t2),
    ensures
        agree(case_comma(t1, p), case_comma(t2, p), |c: CaseModel| strip_case(c)),
{
    lemma_case_layout(t1, t2, p);
    let c = cons_case(t1, p);
    if 0 <= c.1 < t1.len() {
        assert(t1[c.1].spec_kind() == t2[c.1].spec_kind());
    }
}

proof fn lemma_cases_with_comma_layout(t1: Seq<Token>, t2: Seq<Token>, p: int)
    requires
        same_but_spans(t1, t2),
    ensures
        agree(cases_with_comma(t1, p), cases_with_comma(t2, p), |cs: Seq<CaseModel>| strip_cases(cs)),
    decreases t1.len() - p,
{
    lemma_case_comma_layout(t1, t2, p);
    let c = case_comma(t1, p);
    let f = |c: CaseModel| strip_case(c);
    if let Ok(x1) = c.0 {
        let x2 = case_comma(t2, p).0->Ok_0;
        if p < c.1 {
            lemma_cases_with_comma_layout(t1, t2, c.1);
            let r1 = cases_with_comma(t1, c.1);
            if let Ok(xs1) = r1.0 {
                lemma_prepend_map(x1, x2, xs1, cases_with_comma(t2, c.1).0->Ok_0, f);
            }
        } else {
            lemma_prepend_map(x1, x2, Seq::empty(), Seq::empty(), f);
            assert(seq![x1] + Seq::<CaseModel>::empty() =~= seq![x1]);
            assert(seq![x2] + Seq::<CaseModel>::empty() =~= seq![x2]);
        }
    } else {
        assert(strip_cases(Seq::<CaseModel>::empty()) =~= Seq::<CaseModel>::empty());
    }
}

proof fn lemma_cons_list_layout(t1: Seq<Token>, t2: Seq<Token>, p: int)
    requires
        same_but_spans(t1, t2),
    ensures
        agree(cons_list(t1, p), cons_list(t2, p), |cs: Seq<CaseModel>| strip_cases(cs)),
{
    if 0 <= p < t1.len() {
        assert(t1[p].spec_kind() == t2[p].spec_kind());
    }
    if tok_is(t1, p, Kind::LCurl) {
        lemma_cases_with_comma_layout(t1, t2, p + 1);
        let r = cases_with_comma(t1, p + 1);
        if let Ok(cs1) = r.0 {
            let cs2 = cases_with_comma(t2, p + 1).0->Ok_0;
            lemma_case_layout(t1, t2, r.1);
            let l = cons_case(t1, r.1);
            if 0 <= l.1 < t1.len() {
                assert(t1[l.1].spec_kind() == t2[l.1].spec_kind());
            }
            if 0 <= r.1 < t1.len() {
                assert(t1[r.1].spec_kind() == t2[r.1].spec_kind());
            }
            if let Ok(c1) = l.0 {
                lemma_push_map(c1, cons_case(t2, r.1).0->Ok_0, cs1, cs2, |c: CaseModel| strip_case(c));
            }
        }
    }
}

proof fn lemma_more_names_layout(t1: Seq<Token>, t2: Seq<Token>, p: int)
    requires
        same_but_spans(t1, t2),
    ensures
        more_names(t1, p) == more_names(t2, p),
    decreases t1.len() - p,
{
    if 0 <= p < t1.len() {
        assert(t1[p].spec_kind() == t2[p].spec_kind());
    }
    if 0 <= p + 1 < t1.len() {
        assert(t1[p + 1].spec_kind() == t2[p + 1].spec_kind() && t1[p + 1].text() == t2[p + 1].text());
    }
    if tok_is(t1, p, Kind::Comma) && tok_is(t1, p + 1, Kind::LowerSymbol) {
        lemma_more_names_layout(t1, t2, p + 2);
    }
}

proof fn lemma_type_params_layout(t1: Seq<Token>, t2: Seq<Token>, p: int)
    requires
        same_but_spans(t1, t2),
    ensures
        type_params(t1, p) == type_params(t2, p),
{
    if 0 <= p < t1.len() {
        assert(t1[p].spec_kind() == t2[p].spec_kind());
    }
    if 0 <= p + 1 < t1.len() {
        assert(t1[p + 1].spec_kind() == t2[p + 1].spec_kind() && t1[p + 1].text() == t2[p + 1].text());
    }
    lemma_more_names_layout(t1, t2, p + 2);
    let r = more_names(t1, p + 2);
    if 0 <= r.1 < t1.len() {
        assert(t1[r.1].spec_kind() == t2[r.1].spec_kind());
    }
}

proof fn lemma_declaration_layout(t1: Seq<Token>, t2: Seq<Token>, p: int)
    requires
        same_but_spans(t1, t2),
    ensures
        agree(declaration(t1, p), declaration(t2, p), |d: DefModel| strip_def(d)),
{
    if 0 <= p < t1.len() {
        assert(t1[p].spec_kind() == t2[p].spec_kind() && t1[p].text() == t2[p].text());
    }
    lemma_type_params_layout(t1, t2, p + 1);
    let g = type_params(t1, p + 1);
    let q = if g.0 is Ok {
        g.1
    } else {
        p + 1
    };
    if 0 <= q < t1.len() {
        assert(t1[q].spec_kind() == t2[q].spec_kind() && t1[q].text() == t2[q].text());
    }
    lemma_cons_list_layout(t1, t2, q + 1);
    assert(strip_cases(Seq::<CaseModel>::empty()) =~= Seq::<CaseModel>::empty());
}

proof fn lemma_declarations_layout(t1: Seq<Token>, t2: Seq<Token>, p: int)
    requires
        same_but_spans(t1, t2),
    ensures
        match declarations(t1, p) {
            Ok(a) => declarations(t2, p) is Ok && a.map_values(|d: DefModel| strip_def(d))
                == declarations(t2, p)->Ok_0.map_values(|d: DefModel| strip_def(d)),
            Err(e) => declarations(t2, p) == Err::<Seq<DefModel>, MatchError>(e),
        },
    decreases t1.len() - p,
{
    lemma_declaration_layout(t1, t2, p);
    let d = declaration(t1, p);
    let f = |d: DefModel| strip_def(d);
    if let Ok(x1) = d.0 {
        let x2 = declaration(t2, p).0->Ok_0;
        if p < d.1 <= t1.len() {
            lemma_declarations_layout(t1, t2, d.1);
            if let Ok(xs1) = declarations(t1, d.1) {
                lemma_prepend_map(x1, x2, xs1, declarations(t2, d.1)->Ok_0, f);
            }
        } else {
            lemma_prepend_map(x1, x2, Seq::empty(), Seq::empty(), f);
            assert(seq![x1] + Seq::<DefModel>::empty() =~= seq![x1]);
            assert(seq![x2] + Seq::<DefModel>::empty() =~= seq![x2]);
        }
    }
}

/// Parsing reads only the kinds and texts of the tokens: two token sequences
/// that differ only in their spans (the same text laid out differently) give
/// the same declarations once spans are dropped, or the same failure.
pub proof fn lemma_layout_insensitive(t1: Seq<Token>, t2: Seq<Token>)
    requires
        same_but_spans(t1, t2),
    ensures
        match declarations(t1, 0) {
            Ok(a) => declarations(t2, 0) is Ok && a.map_values(|d: DefModel| strip_def(d))
                == declarations(t2, 0)->Ok_0.map_values(|d: DefModel| strip_def(d)),
            Err(e) => declarations(t2, 0) == Err::<Seq<DefModel>, MatchError>(e),
        },
{
    lemma_declarations_layout(t1, t2, 0);
}

pub open spec fn type_parsed(r: Outcome<Type>) -> Parsed<TypeModel> {
    (
        match r.0 {
            Ok(t) => Ok(t.model()),
            Err(e) => Err(e),
        },
        r.1 as int,
    )
}

pub open spec fn types_parsed(r: Outcome<Vec<Type>>) -> Parsed<Seq<TypeModel>> {
    (
        match r.0 {
            Ok(v) => Ok(types_model(v@)),
            Err(e) => Err(e),
        },
        r.1 as int,
    )
}

pub open spec fn case_parsed(r: Outcome<ConsCase>) -> Parsed<CaseModel> {
    (
        match r.0 {
            Ok(c) => Ok(c.model()),
            Err(e) => Err(e),
        },
        r.1 as int,
    )
}

pub open spec fn cases_parsed(r: Outcome<Vec<ConsCase>>) -> Parsed<Seq<CaseModel>> {
    (
        match r.0 {
            Ok(v) => Ok(cases_model(v@)),
            Err(e) => Err(e),
        },
        r.1 as int,
    )
}

pub open spec fn names_parsed(r: Outcome<Vec<String>>) -> Parsed<Seq<Seq<char>>> {
    (
        match r.0 {
            Ok(v) => Ok(names_model(v@)),
            Err(e) => Err(e),
        },
        r.1 as int,
    )
}

pub open spec fn def_parsed(r: Outcome<ConsDef>) -> Parsed<DefModel> {
    (
        match r.0 {
            Ok(d) => Ok(d.model()),
            Err(e) => Err(e),
        },
        r.1 as int,
    )
}

/// What the cursor invariant asks of a production's outcome from `at`: it
/// stays inside the tokens and never moves back, and a success moves it
/// forward.
pub open spec fn in_bounds<T>(len: nat, at: usize, r: Outcome<T>) -> bool {
    &&& at <= r.1 <= len
    &&& r.0 is Ok ==> at < r.1
}

fn kind_at(tokens: &Vec<Token>, p: usize, k: Kind) -> (b: bool)
    ensures
        b == tok_is(tokens@, p as int, k),
{
    p < tokens.len() && tokens[p].kind() == k
}

fn miss_at(tokens: &Vec<Token>, p: usize) -> (e: MatchError)
    ensures
        e == tmiss(tokens@, p as int),
{
    if p < tokens.len() {
        MatchError::Error(p)
    } else {
        MatchError::ErrorEndOfFile
    }
}

fn fatal_at(tokens: &Vec<Token>, p: usize) -> (e: MatchError)
    ensures
        e == tfatal(tokens@, p as int),
{
    miss_at(tokens, p).to_fatal()
}

/// The spans of the tokens from `p` up to `q`.
fn span_meta(tokens: &Vec<Token>, p: usize, q: usize) -> (r: AMeta)
    requires
        p <= q <= tokens.len(),
    ensures
        r.token_meta@ == metas(tokens@, p as int, q as int),
{
    let mut v: Vec<TMeta> = Vec::new();
    let mut i = p;
    while i < q
        invariant
            p <= i <= q <= tokens.len(),
            v@ == metas(tokens@, p as int, i as int),
        decreases q - i,
    {
        v.push(tokens[i].meta());
        i += 1;
        assert(v@ =~= metas(tokens@, p as int, i as int));
    }
    AMeta { token_meta: v }
}

fn paren(tokens: &Vec<Token>, at: usize) -> (r: Outcome<Type>)
    requires
        at <= tokens.len(),
    ensures
        type_parsed(r) == paren_type(tokens@, at as int),
        in_bounds(tokens@.len(), at, r),
    decreases tokens.len() - at, 0int,
{
    if !kind_at(tokens, at, Kind::LParen) {
        return (Err(miss_at(tokens, at)), at);
    }
    let m = parse_type(tokens, at + 1);
    match m.0 {
        Err(e) => if e.is_fatal() {
            (Err(e), m.1)
        } else {
            (Err(e), at)
        },
        Ok(t) => if kind_at(tokens, m.1, Kind::RParen) {
            (Ok(t), m.1 + 1)
        } else {
            (Err(fatal_at(tokens, m.1)), m.1)
        },
    }
}

fn index(tokens: &Vec<Token>, at: usize) -> (r: Outcome<Type>)
    requires
        at <= tokens.len(),
    ensures
        type_parsed(r) == index_type(tokens@, at as int),
        in_bounds(tokens@.len(), at, r),
    decreases tokens.len() - at, 0int,
{
    if !kind_at(tokens, at, Kind::UpperSymbol) {
        return (Err(miss_at(tokens, at)), at);
    }
    if !kind_at(tokens, at + 1, Kind::LAngle) {
        return (Err(miss_at(tokens, at + 1)), at);
    }
    let m = parse_type(tokens, at + 2);
    match m.0 {
        Err(e) => (Err(e.to_fatal()), m.1),
        Ok(t) => if kind_at(tokens, m.1, Kind::RAngle) {
            let meta = span_meta(tokens, at, m.1 + 1);
            let name = tokens[at].symbol_name();
            (Ok(Type::Index(meta, name, Box::new(t))), m.1 + 1)
        } else {
            (Err(fatal_at(tokens, m.1)), m.1)
        },
    }
}

fn named_type(tokens: &Vec<Token>, at: usize, lower: bool) -> (r: Outcome<Type>)
    requires
        at <= tokens.len(),
    ensures
        type_parsed(r) == if lower {
            generic_type(tokens@, at as int)
        } else {
            concrete_type(tokens@, at as int)
        },
        in_bounds(tokens@.len(), at, r),
{
    let k = if lower {
        Kind::LowerSymbol
    } else {
        Kind::UpperSymbol
    };
    if !kind_at(tokens, at, k) {
        return (Err(miss_at(tokens, at)), at);
    }
    let meta = span_meta(tokens, at, at + 1);
    let name = tokens[at].symbol_name();
    if lower {
        (Ok(Type::Generic(meta, name)), at + 1)
    } else {
        (Ok(Type::Concrete(meta, name)), at + 1)
    }
}

fn atomic(tokens: &Vec<Token>, at: usize) -> (r: Outcome<Type>)
    requires
        at <= tokens.len(),
    ensures
        type_parsed(r) == atomic_type(tokens@, at as int),
        in_bounds(tokens@.len(), at, r),
    decreases tokens.len() - at, 1int,
{
    let r = paren(tokens, at);
    if !is_recoverable(&r.0) {
        return r;
    }
    let r = index(tokens, at);
    if !is_recoverable(&r.0) {
        return r;
    }
    let r = named_type(tokens, at, true);
    if !is_recoverable(&r.0) {
        return r;
    }
    let r = named_type(tokens, at, false);
    if is_recoverable(&r.0) {
        (r.0, at)
    } else {
        r
    }
}

/// A type expression starting at token `at`: an atomic type, and if an arrow
/// follows, the arrow type to the type after it.
pub fn parse_type(tokens: &Vec<Token>, at: usize) -> (r: Outcome<Type>)
    requires
        at <= tokens.len(),
    ensures
        type_parsed(r) == type_main(tokens@, at as int),
        in_bounds(tokens@.len(), at, r),
    decreases tokens.len() - at, 2int,
{
    let a = atomic(tokens, at);
    match a.0 {
        Err(e) => if e.is_fatal() {
            (Err(e), a.1)
        } else {
            (Err(e), at)
        },
        Ok(t) => if kind_at(tokens, a.1, Kind::SRArrow) {
            let d = parse_type(tokens, a.1 + 1);
            match d.0 {
                Ok(dt) => {
                    let meta = span_meta(tokens, at, d.1);
                    (Ok(Type::Arrow { meta, src: Box::new(t), dest: Box::new(dt) }), d.1)
                },
                Err(e) => (Err(e.to_fatal()), d.1),
            }
        } else {
            (Ok(t), a.1)
        },
    }
}

fn more_types_at(tokens: &Vec<Token>, at: usize) -> (r: Outcome<Vec<Type>>)
    requires
        at <= tokens.len(),
    ensures
        types_parsed(r) == more_types(tokens@, at as int),
        at <= r.1 <= tokens.len(),
    decreases tokens.len() - at,
{
    if !kind_at(tokens, at, Kind::Comma) {
        let v: Vec<Type> = Vec::new();
        assert(types_model(v@) =~= Seq::<TypeModel>::empty());
        return (Ok(v), at);
    }
    let t = parse_type(tokens, at + 1);
    match t.0 {
        Err(e) => (Err(e.to_fatal()), t.1),
        Ok(x) => {
            let rest = more_types_at(tokens, t.1);
            match rest.0 {
                Ok(xs) => {
                    let ghost m = x.model();
                    let mut v = xs;
                    let ghost old_v = v@;
                    v.insert(0, x);
                    assert(types_model(v@) =~= seq![m] + types_model(old_v));
                    (Ok(v), rest.1)
                },
                Err(e) => (Err(e), rest.1),
            }
        },
    }
}

fn param_list_at(tokens: &Vec<Token>, at: usize) -> (r: Outcome<Vec<Type>>)
    requires
        at <= tokens.len(),
    ensures
        types_parsed(r) == param_list(tokens@, at as int),
        in_bounds(tokens@.len(), at, r),
{
    if !kind_at(tokens, at, Kind::LParen) {
        return (Err(miss_at(tokens, at)), at);
    }
    let f = parse_type(tokens, at + 1);
    match f.0 {
        Err(e) => (Err(e.to_fatal()), f.1),
        Ok(x) => {
            let r = more_types_at(tokens, f.1);
            match r.0 {
                Err(e) => (Err(e), r.1),
                Ok(xs) => if kind_at(tokens, r.1, Kind::RParen) {
                    let ghost m = x.model();
                    let mut v = xs;
                    let ghost old_v = v@;
                    v.insert(0, x);
                    assert(types_model(v@) =~= seq![m] + types_model(old_v));
                    (Ok(v), r.1 + 1)
                } else {
                    (Err(fatal_at(tokens, r.1)), r.1)
                },
            }
        },
    }
}

fn cons_case_at(tokens: &Vec<Token>, at: usize) -> (r: Outcome<ConsCase>)
    requires
        at <= tokens.len(),
    ensures
        case_parsed(r) == cons_case(tokens@, at as int),
        in_bounds(tokens@.len(), at, r),
{
    if !kind_at(tokens, at, Kind::UpperSymbol) {
        return (Err(miss_at(tokens, at)), at);
    }
    let name = tokens[at].symbol_name();
    let pl = param_list_at(tokens, at + 1);
    match pl.0 {
        Ok(params) => {
            let meta = span_meta(tokens, at, pl.1);
            (Ok(ConsCase::Position { meta, name, params }), pl.1)
        },
        Err(e) => if e.is_fatal() {
            (Err(e), pl.1)
        } else {
            let meta = span_meta(tokens, at, at + 1);
            let params: Vec<Type> = Vec::new();
            assert(types_model(params@) =~= Seq::<TypeModel>::empty());
            (Ok(ConsCase::Position { meta, name, params }), at + 1)
        },
    }
}

fn case_comma_at(tokens: &Vec<Token>, at: usize) -> (r: Outcome<ConsCase>)
    requires
        at <= tokens.len(),
    ensures
        case_parsed(r) == case_comma(tokens@, at as int),
        in_bounds(tokens@.len(), at, r),
{
    let c = cons_case_at(tokens, at);
    match c.0 {
        Ok(x) => if kind_at(tokens, c.1, Kind::Comma) {
            (Ok(x), c.1 + 1)
        } else {
            (Err(miss_at(tokens, c.1)), at)
        },
        Err(e) => if e.is_fatal() {
            (Err(e), c.1)
        } else {
            (Err(e), at)
        },
    }
}

fn cases_with_comma_at(tokens: &Vec<Token>, at: usize) -> (r: Outcome<Vec<ConsCase>>)
    requires
        at <= tokens.len(),
    ensures
        cases_parsed(r) == cases_with_comma(tokens@, at as int),
        at <= r.1 <= tokens.len(),
    decreases tokens.len() - at,
{
    let c = case_comma_at(tokens, at);
    match c.0 {
        Ok(x) => {
            let rest = cases_with_comma_at(tokens, c.1);
            match rest.0 {
                Ok(xs) => {
                    let ghost m = x.model();
                    let mut v = xs;
                    let ghost old_v = v@;
                    v.insert(0, x);
                    assert(cases_model(v@) =~= seq![m] + cases_model(old_v));
                    (Ok(v), rest.1)
                },
                Err(e) => (Err(e), rest.1),
            }
        },
        Err(e) => if e.is_fatal() {
            (Err(e), c.1)
        } else {
            let v: Vec<ConsCase> = Vec::new();
            assert(cases_model(v@) =~= Seq::<CaseModel>::empty());
            (Ok(v), at)
        },
    }
}

fn cons_list_at(tokens: &Vec<Token>, at: usize) -> (r: Outcome<Vec<ConsCase>>)
    requires
        at <= tokens.len(),
    ensures
        cases_parsed(r) == cons_list(tokens@, at as int),
        in_bounds(tokens@.len(), at, r),
{
    if !kind_at(tokens, at, Kind::LCurl) {
        return (Err(miss_at(tokens, at)), at);
    }
    let r = cases_with_comma_at(tokens, at + 1);
    match r.0 {
        Err(e) => (Err(e), r.1),
        Ok(cs) => {
            let mut all = cs;
            let l = cons_case_at(tokens, r.1);
            let q = match l.0 {
                Ok(c) => {
                    let ghost m = c.model();
                    let ghost old_all = all@;
                    all.push(c);
                    assert(cases_model(all@) =~= cases_model(old_all).push(m));
                    l.1
                },
                Err(e) => if e.is_fatal() {
                    return (Err(e), l.1);
                } else {
                    r.1
                },
            };
            if kind_at(tokens, q, Kind::RCurl) {
                (Ok(all), q + 1)
            } else {
                (Err(fatal_at(tokens, q)), q)
            }
        },
    }
}

fn more_names_at(tokens: &Vec<Token>, at: usize) -> (r: Outcome<Vec<String>>)
    requires
        at <= tokens.len(),
    ensures
        names_parsed(r) == more_names(tokens@, at as int),
        at <= r.1 <= tokens.len(),
    decreases tokens.len() - at,
{
    if !kind_at(tokens, at, Kind::Comma) {
        let v: Vec<String> = Vec::new();
        assert(names_model(v@) =~= Seq::<Seq<char>>::empty());
        return (Ok(v), at);
    }
    if !kind_at(tokens, at + 1, Kind::LowerSymbol) {
        return (Err(fatal_at(tokens, at + 1)), at + 1);
    }
    let name = tokens[at + 1].symbol_name();
    let rest = more_names_at(tokens, at + 2);
    match rest.0 {
        Ok(ns) => {
            let ghost m = name@;
            let mut v = ns;
            let ghost old_v = v@;
            v.insert(0, name);
            assert(names_model(v@) =~= seq![m] + names_model(old_v));
            (Ok(v), rest.1)
        },
        Err(e) => (Err(e), rest.1),
    }
}

fn type_params_at(tokens: &Vec<Token>, at: usize) -> (r: Outcome<Vec<String>>)
    requires
        at <= tokens.len(),
    ensures
        names_parsed(r) == type_params(tokens@, at as int),
        in_bounds(tokens@.len(), at, r),
{
    if !kind_at(tokens, at, Kind::LAngle) {
        return (Err(miss_at(tokens, at)), at);
    }
    if !kind_at(tokens, at + 1, Kind::LowerSymbol) {
        return (Err(fatal_at(tokens, at + 1)), at + 1);
    }
    let first = tokens[at + 1].symbol_name();
    let r = more_names_at(tokens, at + 2);
    match r.0 {
        Err(e) => (Err(e), r.1),
        Ok(ns) => if kind_at(tokens, r.1, Kind::RAngle) {
            let ghost m = first@;
            let mut v = ns;
            let ghost old_v = v@;
            v.insert(0, first);
            assert(names_model(v@) =~= seq![m] + names_model(old_v));
            proof {
                lemma_more_names_end(tokens@, at + 2);
                lemma_repeated_name_bound(names_model(v@), 0);
            }
            match first_repeated(&v) {
                None => (Ok(v), r.1 + 1),
                Some(j) => {
                    let i = at + 1 + 2 * j;
                    (Err(fatal_at(tokens, i)), i)
                },
            }
        } else {
            (Err(fatal_at(tokens, r.1)), r.1)
        },
    }
}

/// The index of the first name that repeats an earlier one.
fn first_repeated(v: &Vec<String>) -> (r: Option<usize>)
    ensures
        match r {
            Some(j) => repeated_name(names_model(v@), 0) == Some(j as int),
            None => repeated_name(names_model(v@), 0) is None,
        },
{
    let ghost ns = names_model(v@);
    let mut i: usize = 0;
    while i < v.len()
        invariant
            i <= v.len(),
            ns == names_model(v@),
            repeated_name(ns, 0) == repeated_name(ns, i as int),
        decreases v.len() - i,
    {
        let mut k: usize = 0;
        let mut found = false;
        while k < i && !found
            invariant
                k <= i < v.len(),
                ns == names_model(v@),
                found ==> k > 0 && ns[k - 1] == ns[i as int],
                !found ==> forall|m: int| 0 <= m < k ==> ns[m] != ns[i as int],
            decreases i - k,
        {
            found = v[k] == v[i];
            k += 1;
        }
        if found {
            assert(ns.subrange(0, i as int)[k - 1] == ns[i as int]);
            assert(ns.subrange(0, i as int).contains(ns[i as int]));
            return Some(i);
        }
        assert(!ns.subrange(0, i as int).contains(ns[i as int])) by {
            if ns.subrange(0, i as int).contains(ns[i as int]) {
                let m = choose|m: int| 0 <= m < i && ns.subrange(0, i as int)[m] == ns[i as int];
                assert(ns[m] == ns[i as int]);
            }
        }
        i += 1;
    }
    None
}

fn is_type_word(tokens: &Vec<Token>, at: usize) -> (b: bool)
    ensures
        b == (tok_is(tokens@, at as int, Kind::LowerSymbol) && tokens@[at as int].text() == type_word()),
{
    if !kind_at(tokens, at, Kind::LowerSymbol) {
        return false;
    }
    let name = tokens[at].symbol_name();
    let s = name.as_str();
    let b = s.unicode_len() == 4 && s.get_char(0) == 't' && s.get_char(1) == 'y' && s.get_char(2) == 'p'
        && s.get_char(3) == 'e';
    proof {
        if b {
            assert(s@ =~= type_word());
        } else if s@.len() == 4 {
            assert(s@ != type_word()) by {
                if s@ == type_word() {
                    assert(s@[0] == 't' && s@[1] == 'y' && s@[2] == 'p' && s@[3] == 'e');
                }
            }
        }
    }
    b
}

fn declaration_at(tokens: &Vec<Token>, at: usize) -> (r: Outcome<ConsDef>)
    requires
        at <= tokens.len(),
    ensures
        def_parsed(r) == declaration(tokens@, at as int),
        in_bounds(tokens@.len(), at, r),
{
    if !is_type_word(tokens, at) {
        return (Err(miss_at(tokens, at)), at);
    }
    let g = type_params_at(tokens, at + 1);
    let (type_params, q) = match g.0 {
        Ok(ns) => (ns, g.1),
        Err(e) => if e.is_fatal() {
            return (Err(e), g.1);
        } else {
            let v: Vec<String> = Vec::new();
            assert(names_model(v@) =~= Seq::<Seq<char>>::empty());
            (v, at + 1)
        },
    };
    if !kind_at(tokens, q, Kind::UpperSymbol) {
        return (Err(fatal_at(tokens, q)), q);
    }
    let name = tokens[q].symbol_name();
    let cl = cons_list_at(tokens, q + 1);
    let (cons, end) = match cl.0 {
        Ok(cs) => (cs, cl.1),
        Err(e) => if e.is_fatal() {
            return (Err(e), cl.1);
        } else {
            let v: Vec<ConsCase> = Vec::new();
            assert(cases_model(v@) =~= Seq::<CaseModel>::empty());
            (v, q + 1)
        },
    };
    let meta = span_meta(tokens, at, end);
    (Ok(ConsDef { meta, name, type_params, cons }), end)
}

spec fn prepend_defs(pre: Seq<DefModel>, r: Result<Seq<DefModel>, MatchError>) -> Result<Seq<DefModel>, MatchError> {
    match r {
        Ok(ds) => Ok(pre + ds),
        Err(e) => Err(e),
    }
}

/// The declarations that `tokens` hold, in order. A failure gives the index
/// of the token where it happened, or says that the tokens ended too early.
pub fn parse(tokens: &Vec<Token>) -> (r: Result<Vec<ConsDef>, MatchError>)
    ensures
        match declarations(tokens@, 0) {
            Ok(ds) => r is Ok && defs_model(r->Ok_0@) == ds,
            Err(e) => r == Err::<Vec<ConsDef>, MatchError>(e),
        },
{
    let mut out: Vec<ConsDef> = Vec::new();
    let mut pos: usize = 0;
    assert(prepend_defs(defs_model(out@), declarations(tokens@, 0)) == declarations(tokens@, 0)) by {
        if let Ok(ds) = declarations(tokens@, 0) {
            assert(defs_model(out@) + ds =~= ds);
        }
    }
    loop
        invariant
            pos <= tokens.len(),
            declarations(tokens@, 0) == prepend_defs(defs_model(out@), declarations(tokens@, pos as int)),
        decreases tokens.len() - pos,
    {
        let d = declaration_at(tokens, pos);
        let ghost before = out@;
        match d.0 {
            Ok(x) => {
                let ghost m = x.model();
                out.push(x);
                assert(defs_model(out@) =~= defs_model(before).push(m));
                proof {
                    if let Ok(ds) = declarations(tokens@, d.1 as int) {
                        assert(defs_model(before) + (seq![m] + ds) =~= defs_model(out@) + ds);
                    }
                }
                pos = d.1;
            },
            Err(e) => {
                if e == MatchError::ErrorEndOfFile {
                    assert(defs_model(out@) + Seq::<DefModel>::empty() =~= defs_model(out@));
                    return Ok(out);
                } else {
                    return Err(e);
                }
            },
        }
    }
}

} // verus!
