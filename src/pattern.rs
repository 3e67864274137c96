//! A backtracking matcher engine over a fully materialized input.
//!
//! The cursor is a position into the input vector. A matcher takes the input and
//! the position to start from, and gives back what it produced together with
//! the position it left the cursor at. A recoverable failure leaves the cursor
//! where it started, so saving a cursor is copying an integer and rewinding is
//! using the copy again.
use vstd::prelude::*;
use vstd::std_specs::cmp::PartialEqSpec;

verus! {

/// Why a match failed.
///
/// A recoverable failure says that this production does not apply here, so an
/// enclosing choice may try the next candidate. A fatal failure says that the
/// input committed to this production and is malformed: nothing else is tried.
#[derive(Debug, Clone, Copy, PartialEq, Eq, Structural)]
pub enum MatchError {
    /// The element at this index did not match.
    Error(usize),
    /// The input ended where an element was needed.
    ErrorEndOfFile,
    /// The element at this index did not match after a commitment.
    Fatal(usize),
    /// The input ended after a commitment.
    FatalEndOfFile,
}

impl MatchError {
    pub open spec fn spec_is_fatal(&self) -> bool {
        self is Fatal || self is FatalEndOfFile
    }

    #[verifier::when_used_as_spec(spec_is_fatal)]
    pub fn is_fatal(&self) -> (r: bool)
        ensures
            r == self.spec_is_fatal(),
    {
        match self {
            MatchError::Fatal(_) | MatchError::FatalEndOfFile => true,
            _ => false,
        }
    }

    /// The same failure, promoted to a fatal one at the same place.
    pub open spec fn spec_to_fatal(&self) -> MatchError {
        match *self {
            MatchError::Error(i) => MatchError::Fatal(i),
            MatchError::ErrorEndOfFile => MatchError::FatalEndOfFile,
            e => e,
        }
    }

    #[verifier::when_used_as_spec(spec_to_fatal)]
    pub fn to_fatal(&self) -> (r: MatchError)
        ensures
            r == self.spec_to_fatal(),
    {
        match self {
            MatchError::Error(i) => MatchError::Fatal(*i),
            MatchError::ErrorEndOfFile => MatchError::FatalEndOfFile,
            e => *e,
        }
    }
}

/// What a matcher produced, and the position it left the cursor at.
pub type Outcome<O> = (Result<O, MatchError>, usize);

/// The failure lets an enclosing choice try another candidate.
pub open spec fn recoverable<O>(r: Result<O, MatchError>) -> bool {
    r is Err && !r->Err_0.spec_is_fatal()
}

/// The failure is final.
pub open spec fn fatal<O>(r: Result<O, MatchError>) -> bool {
    r is Err && r->Err_0.spec_is_fatal()
}

/// Whether a result is a recoverable failure.
pub fn is_recoverable<O>(r: &Result<O, MatchError>) -> (b: bool)
    ensures
        b == recoverable(*r),
{
    match r {
        Ok(_) => false,
        Err(e) => !e.is_fatal(),
    }
}

/// The matcher protocol: from a start inside the input the cursor ends inside
/// the input, never moves back, and a recoverable failure leaves it in place.
pub open spec fn follows_protocol<O>(len: nat, at: usize, r: Outcome<O>) -> bool {
    &&& at <= r.1 <= len
    &&& recoverable(r.0) ==> r.1 == at
}

/// `m` may be run on `input` from any position.
pub open spec fn runnable<E, O, M: Fn(&Vec<E>, usize) -> Outcome<O>>(m: M, input: &Vec<E>) -> bool {
    forall|p: usize| #[trigger] m.requires((input, p))
}

/// Optional step: a recoverable failure becomes "no value" with the cursor
/// back at the start; a fatal failure stays.
pub open spec fn optional_of<O>(at: usize, r: Outcome<O>) -> Outcome<Option<O>> {
    match r.0 {
        Ok(v) => (Ok(Some(v)), r.1),
        Err(e) => if e.spec_is_fatal() {
            (Err(e), r.1)
        } else {
            (Ok(None), at)
        },
    }
}

/// Committed step: a recoverable failure becomes fatal at the same place.
pub open spec fn committed<O>(r: Outcome<O>) -> Outcome<O> {
    match r.0 {
        Ok(_) => r,
        Err(e) => (Err(e.spec_to_fatal()), r.1),
    }
}

/// A whole sequence as seen from outside: a recoverable failure anywhere
/// inside rewinds the cursor to where the sequence began.
pub open spec fn attempt_of<O>(at: usize, r: Outcome<O>) -> Outcome<O> {
    if recoverable(r.0) {
        (r.0, at)
    } else {
        r
    }
}

/// Ordered choice between the outcomes of two candidates tried from `at`:
/// the first one's success or fatal failure decides; otherwise the second
/// one's outcome stands, rewound if it failed recoverably.
pub open spec fn choice<O>(at: usize, first: Outcome<O>, second: Outcome<O>) -> Outcome<O> {
    if !recoverable(first.0) {
        first
    } else {
        attempt_of(at, second)
    }
}

/// Two steps in sequence, the second started where the first ended.
pub open spec fn then_of<O, P>(at: usize, first: Outcome<O>, second: Outcome<P>) -> Outcome<(O, P)> {
    match first.0 {
        Err(e) => attempt_of(at, (Err(e), first.1)),
        Ok(x) => match second.0 {
            Ok(y) => (Ok((x, y)), second.1),
            Err(e) => attempt_of(at, (Err(e), second.1)),
        },
    }
}

/// A successful outcome with its value transformed.
pub open spec fn mapped<O, P, F: Fn(O) -> P>(r: Outcome<O>, f: F, out: Result<P, MatchError>) -> bool {
    match r.0 {
        Ok(v) => out is Ok && f.ensures((v,), out->Ok_0),
        Err(e) => out == Err::<P, MatchError>(e),
    }
}

/// Where the `i`-th repeated attempt started.
pub open spec fn start_of(at: usize, ends: Seq<usize>, i: int) -> usize {
    if i <= 0 {
        at
    } else {
        ends[i - 1]
    }
}

/// Where a repetition stands after the recorded attempts.
pub open spec fn last_end(at: usize, ends: Seq<usize>) -> usize {
    start_of(at, ends, ends.len() as int)
}

/// Each recorded attempt of `m` started where the previous one ended,
/// succeeded with the recorded value and moved the cursor forward.
pub open spec fn repeated<E, O, M: Fn(&Vec<E>, usize) -> Outcome<O>>(
    m: M,
    input: &Vec<E>,
    at: usize,
    values: Seq<O>,
    ends: Seq<usize>,
) -> bool {
    &&& values.len() == ends.len()
    &&& forall|i: int|
        0 <= i < values.len() ==> {
            &&& #[trigger] m.ensures((input, start_of(at, ends, i)), (Ok(values[i]), ends[i]))
            &&& start_of(at, ends, i) < ends[i]
        }
}

/// A repetition ends at `p` on a recoverable failure, or on a success that
/// does not move the cursor forward (which would repeat forever).
pub open spec fn ends_repetition<O>(p: usize, r: Outcome<O>) -> bool {
    recoverable(r.0) || (r.0 is Ok && r.1 <= p)
}

/// Matches one element for which `cond` gives a value, and produces that value.
pub fn predicate<E, O, P: Fn(&E) -> Option<O>>(input: &Vec<E>, at: usize, cond: &P) -> (r: Outcome<O>)
    requires
        at < input.len() ==> cond.requires((&input[at as int],)),
    ensures
        at >= input.len() ==> r == (Err::<O, MatchError>(MatchError::ErrorEndOfFile), at),
        at < input.len() ==> match r.0 {
            Ok(v) => cond.ensures((&input[at as int],), Some(v)) && r.1 == at + 1,
            Err(e) => cond.ensures((&input[at as int],), None::<O>) && e == MatchError::Error(at)
                && r.1 == at,
        },
{
    if at >= input.len() {
        return (Err(MatchError::ErrorEndOfFile), at);
    }
    match cond(&input[at]) {
        Some(v) => (Ok(v), at + 1),
        None => (Err(MatchError::Error(at)), at),
    }
}

/// Matches one element equal to `expected`, and produces that element.
pub fn literal<E: PartialEq + Copy>(input: &Vec<E>, at: usize, expected: &E) -> (r: Outcome<E>)
    ensures
        at >= input.len() ==> r == (Err::<E, MatchError>(MatchError::ErrorEndOfFile), at),
        at < input.len() ==> (r.0 is Ok ==> r == (Ok::<E, MatchError>(input[at as int]), (at + 1) as usize)),
        at < input.len() ==> (r.0 is Err ==> r == (Err::<E, MatchError>(MatchError::Error(at)), at)),
        at < input.len() && E::obeys_eq_spec() ==> (r.0 is Ok <==> input[at as int].eq_spec(expected)),
{
    if at >= input.len() {
        return (Err(MatchError::ErrorEndOfFile), at);
    }
    if input[at] == *expected {
        (Ok(input[at]), at + 1)
    } else {
        (Err(MatchError::Error(at)), at)
    }
}

/// Zero or one match of `m`.
pub fn optional<E, O, M: Fn(&Vec<E>, usize) -> Outcome<O>>(input: &Vec<E>, at: usize, m: &M) -> (r:
    Outcome<Option<O>>)
    requires
        m.requires((input, at)),
    ensures
        exists|rm: Outcome<O>| m.ensures((input, at), rm) && r == optional_of(at, rm),
{
    let rm = m(input, at);
    let r = match rm.0 {
        Ok(v) => (Ok(Some(v)), rm.1),
        Err(e) => if e.is_fatal() {
            (Err(e), rm.1)
        } else {
            (Ok(None), at)
        },
    };
    assert(m.ensures((input, at), rm));
    assert(r == optional_of(at, rm));
    r
}

/// One match of `m`, after which the input is committed: a recoverable
/// failure of `m` becomes fatal.
pub fn commit<E, O, M: Fn(&Vec<E>, usize) -> Outcome<O>>(input: &Vec<E>, at: usize, m: &M) -> (r:
    Outcome<O>)
    requires
        m.requires((input, at)),
    ensures
        exists|rm: Outcome<O>| m.ensures((input, at), rm) && r == committed(rm),
{
    let rm = m(input, at);
    let r = match rm.0 {
        Ok(v) => (Ok(v), rm.1),
        Err(e) => (Err(e.to_fatal()), rm.1),
    };
    assert(m.ensures((input, at), rm));
    assert(r == committed(rm));
    r
}

/// Runs `body` as one sequence: if it fails recoverably anywhere, the cursor
/// goes back to where the sequence began.
pub fn sequence<E, O, M: Fn(&Vec<E>, usize) -> Outcome<O>>(input: &Vec<E>, at: usize, body: &M) -> (r:
    Outcome<O>)
    requires
        body.requires((input, at)),
    ensures
        exists|rm: Outcome<O>| body.ensures((input, at), rm) && r == attempt_of(at, rm),
{
    let rm = body(input, at);
    assert(body.ensures((input, at), rm));
    let r = match rm.0 {
        Err(e) => if e.is_fatal() {
            (Err(e), rm.1)
        } else {
            (Err(e), at)
        },
        Ok(v) => (Ok(v), rm.1),
    };
    assert(r == attempt_of(at, rm));
    r
}

/// `first` then `second`, as one sequence producing both values.
pub fn pair<E, O, P, A: Fn(&Vec<E>, usize) -> Outcome<O>, B: Fn(&Vec<E>, usize) -> Outcome<P>>(
    input: &Vec<E>,
    at: usize,
    first: &A,
    second: &B,
) -> (r: Outcome<(O, P)>)
    requires
        first.requires((input, at)),
        runnable(*second, input),
    ensures
        exists|ra: Outcome<O>, rb: Outcome<P>|
            {
                &&& first.ensures((input, at), ra)
                &&& ra.0 is Ok ==> second.ensures((input, ra.1), rb)
                &&& r == then_of(at, ra, rb)
            },
{
    let ra = first(input, at);
    assert(first.ensures((input, at), ra));
    match ra.0 {
        Err(e) => {
            let r = if e.is_fatal() {
                (Err(e), ra.1)
            } else {
                (Err(e), at)
            };
            let ghost rb: Outcome<P> = (Err(e), ra.1);
            assert(r == then_of(at, ra, rb));
            r
        },
        Ok(x) => {
            assert(second.requires((input, ra.1)));
            let rb = second(input, ra.1);
            assert(second.ensures((input, ra.1), rb));
            let r = match rb.0 {
                Ok(y) => (Ok((x, y)), rb.1),
                Err(e) => if e.is_fatal() {
                    (Err(e), rb.1)
                } else {
                    (Err(e), at)
                },
            };
            assert(r == then_of(at, ra, rb));
            r
        },
    }
}

/// Ordered choice: tries `first`, and `second` from the same start only if
/// `first` failed recoverably.
pub fn alternative<E, O, A: Fn(&Vec<E>, usize) -> Outcome<O>, B: Fn(&Vec<E>, usize) -> Outcome<O>>(
    input: &Vec<E>,
    at: usize,
    first: &A,
    second: &B,
) -> (r: Outcome<O>)
    requires
        first.requires((input, at)),
        second.requires((input, at)),
    ensures
        exists|ra: Outcome<O>, rb: Outcome<O>|
            {
                &&& first.ensures((input, at), ra)
                &&& recoverable(ra.0) ==> second.ensures((input, at), rb)
                &&& r == choice(at, ra, rb)
            },
{
    let ra = first(input, at);
    assert(first.ensures((input, at), ra));
    match ra.0 {
        Err(e) => if e.is_fatal() {
            let r = (Err(e), ra.1);
            assert(r == choice(at, ra, ra));
            r
        } else {
            let rb = second(input, at);
            assert(second.ensures((input, at), rb));
            let r = match rb.0 {
                Ok(v) => (Ok(v), rb.1),
                Err(e2) => if e2.is_fatal() {
                    (Err(e2), rb.1)
                } else {
                    (Err(e2), at)
                },
            };
            assert(r == choice(at, ra, rb));
            r
        },
        Ok(v) => {
            let r = (Ok(v), ra.1);
            assert(r == choice(at, ra, ra));
            r
        },
    }
}

/// Zero or more matches of `m`, collected in order. The repetition stops
/// without error at the first recoverable failure, with the cursor before the
/// failed attempt; a fatal failure ends the whole match.
pub fn repeat<E, O, M: Fn(&Vec<E>, usize) -> Outcome<O>>(input: &Vec<E>, at: usize, m: &M) -> (r:
    Outcome<Vec<O>>)
    requires
        runnable(*m, input),
    ensures
        r.0 is Ok ==> exists|ends: Seq<usize>, last: Outcome<O>|
            {
                &&& repeated(*m, input, at, r.0->Ok_0@, ends)
                &&& r.1 == last_end(at, ends)
                &&& m.ensures((input, r.1), last)
                &&& ends_repetition(r.1, last)
            },
        r.0 is Err ==> exists|values: Seq<O>, ends: Seq<usize>, last: Outcome<O>|
            {
                &&& repeated(*m, input, at, values, ends)
                &&& m.ensures((input, last_end(at, ends)), last)
                &&& fatal(last.0)
                &&& r.0 == Err::<Vec<O>, MatchError>(last.0->Err_0)
                &&& r.1 == last.1
            },
{
    let mut values: Vec<O> = Vec::new();
    let mut pos: usize = at;
    let ghost mut ends: Seq<usize> = Seq::empty();
    loop
        invariant
            runnable(*m, input),
            repeated(*m, input, at, values@, ends),
            pos == last_end(at, ends),
            at <= pos,
        decreases usize::MAX - pos,
    {
        assert(m.requires((input, pos)));
        let rm = m(input, pos);
        assert(m.ensures((input, pos), rm));
        match rm.0 {
            Ok(v) => {
                if rm.1 <= pos {
                    let r = (Ok(values), pos);
                    assert(ends_repetition(r.1, rm) && r.1 == last_end(at, ends));
                    return r;
                }
                proof {
                    lemma_repeated_push(*m, input, at, values@, ends, v, rm.1);
                    ends = ends.push(rm.1);
                }
                values.push(v);
                pos = rm.1;
            },
            Err(e) => {
                if e.is_fatal() {
                    assert(fatal(rm.0));
                    return (Err(e), rm.1);
                }
                let r = (Ok(values), pos);
                assert(ends_repetition(r.1, rm) && r.1 == last_end(at, ends));
                return r;
            },
        }
    }
}

proof fn lemma_repeated_push<E, O, M: Fn(&Vec<E>, usize) -> Outcome<O>>(
    m: M,
    input: &Vec<E>,
    at: usize,
    values: Seq<O>,
    ends: Seq<usize>,
    v: O,
    end: usize,
)
    requires
        repeated(m, input, at, values, ends),
        m.ensures((input, last_end(at, ends)), (Ok(v), end)),
        last_end(at, ends) < end,
    ensures
        repeated(m, input, at, values.push(v), ends.push(end)),
        last_end(at, ends.push(end)) == end,
{
    let ends2 = ends.push(end);
    let values2 = values.push(v);
    assert forall|i: int| 0 <= i < values2.len() implies {
        &&& #[trigger] m.ensures((input, start_of(at, ends2, i)), (Ok(values2[i]), ends2[i]))
        &&& start_of(at, ends2, i) < ends2[i]
    } by {
        if i < values.len() {
            assert(start_of(at, ends2, i) == start_of(at, ends, i));
            assert(m.ensures((input, start_of(at, ends, i)), (Ok(values[i]), ends[i])));
        } else {
            assert(start_of(at, ends2, i) == last_end(at, ends));
        }
    }
}

/// Runs `m` and transforms the value it produces with `f`: the projection
/// that a sequence or a choice applies to its result.
pub fn project<E, O, P, M: Fn(&Vec<E>, usize) -> Outcome<O>, F: Fn(O) -> P>(
    input: &Vec<E>,
    at: usize,
    m: &M,
    f: &F,
) -> (r: Outcome<P>)
    requires
        m.requires((input, at)),
        forall|v: O| #[trigger] f.requires((v,)),
    ensures
        exists|rm: Outcome<O>| m.ensures((input, at), rm) && r.1 == rm.1 && mapped(rm, *f, r.0),
{
    let rm = m(input, at);
    assert(m.ensures((input, at), rm));
    match rm.0 {
        Ok(v) => {
            let out = f(v);
            let r = (Ok(out), rm.1);
            assert(r.1 == rm.1 && mapped(rm, *f, r.0));
            r
        },
        Err(e) => {
            let r = (Err(e), rm.1);
            assert(r.1 == rm.1 && mapped(rm, *f, r.0));
            r
        },
    }
}

/// The element under the cursor with its index, and the cursor after it.
pub fn next<E: Copy>(input: &Vec<E>, at: usize) -> (r: (Option<(usize, E)>, usize))
    ensures
        at < input.len() ==> r == (Some((at, input[at as int])), (at + 1) as usize),
        at >= input.len() ==> r == (None::<(usize, E)>, at),
{
    if at < input.len() {
        (Some((at, input[at])), at + 1)
    } else {
        (None, at)
    }
}

/// A recoverable failure leaves the cursor where it was, so what is left to
/// read afterwards is exactly what was left before.
pub proof fn lemma_rewind<E, O>(input: Seq<E>, at: usize, r: Outcome<O>)
    requires
        follows_protocol(input.len(), at, r),
        recoverable(r.0),
    ensures
        input.subrange(r.1 as int, input.len() as int) == input.subrange(at as int, input.len() as int),
{
}

/// The combinators rewind on their own recoverable failures, whatever the
/// matchers they were given did: a sequence, a choice and a pair leave the
/// cursor at their start, and an optional or committed step never fails
/// recoverably.
pub proof fn lemma_combinators_rewind<O, P>(at: usize, first: Outcome<O>, second: Outcome<O>, then: Outcome<P>)
    ensures
        recoverable(attempt_of(at, first).0) ==> attempt_of(at, first).1 == at,
        recoverable(choice(at, first, second).0) ==> choice(at, first, second).1 == at,
        recoverable(then_of(at, first, then).0) ==> then_of(at, first, then).1 == at,
        !recoverable(optional_of(at, first).0),
        !recoverable(committed(first).0),
{
}

/// A sequence whose step fails recoverably stops there, runs nothing after
/// the failing step, and gives back all the input its earlier steps consumed.
pub proof fn lemma_sequence_short_circuit<O, P>(at: usize, first: Outcome<O>, second: Outcome<P>, other: Outcome<P>)
    ensures
        recoverable(first.0) ==> then_of(at, first, second) == then_of(at, first, other),
        recoverable(first.0) ==> then_of(at, first, second).1 == at,
        first.0 is Ok && recoverable(second.0) ==> then_of(at, first, second).1 == at,
{
}

/// Once a committed step fails, the failure is fatal and an enclosing choice
/// never turns to its next candidate, whatever that candidate would give.
pub proof fn lemma_cut_commitment<O>(at: usize, attempt: Outcome<O>, sibling: Outcome<O>)
    requires
        attempt.0 is Err,
    ensures
        fatal(committed(attempt).0),
        choice(at, committed(attempt), sibling) == committed(attempt),
{
}

/// A sequence that commits after a successful step and then fails is a fatal
/// failure, so an enclosing choice gives that failure and never tries its
/// next candidate, even one that would match.
pub proof fn lemma_cut_in_sequence<O, P>(
    at: usize,
    before: Outcome<O>,
    attempt: Outcome<P>,
    sibling: Outcome<(O, P)>,
)
    requires
        before.0 is Ok,
        attempt.0 is Err,
    ensures
        fatal(then_of(at, before, committed(attempt)).0),
        choice(at, then_of(at, before, committed(attempt)), sibling) == then_of(at, before, committed(attempt)),
{
}

/// When the first candidate of a choice succeeds, its result is taken, even if
/// the second would succeed too.
pub proof fn lemma_alternation_order<O>(at: usize, first: Outcome<O>, second: Outcome<O>)
    requires
        first.0 is Ok,
    ensures
        choice(at, first, second) == first,
{
}

} // verus!
