//! Ordered middleware pipelines: fallible two-phase assembly and
//! deterministic dispatch.
//!
//! A [`Builder`] accumulates deferred middleware conversions; resolving it
//! against one [`Scope`] converts every accumulated factory in
//! registration order — failing fast on the first error — and produces an
//! immutable [`Stack`] that dispatches by walking its middlewares in order
//! down to a terminal fallback handler.

use vstd::prelude::*;

use crate::handler::{Error, Handler, NotFound};
use crate::matcher::{Matcher, Route, RouteError, Segment, SegmentView};
use crate::middleware::{Middleware, Outcome, OutcomeView, TryIntoMiddleware};
use crate::request::RequestView;
use crate::request::Request;
use crate::response::{Response, ResponseView};
use crate::scope::Scope;

verus! {

/// The response a middleware sequence produces for a request: the first
/// middleware's answer, or the next stage applied to what it forwards,
/// with the fallback handler answering when every middleware forwarded.
pub open spec fn stack_run<M: Middleware, F: Handler>(
    mids: Seq<M>,
    req: RequestView,
    fallback: F,
) -> ResponseView
    decreases mids.len(),
{
    if mids.len() == 0 {
        fallback.response(req)
    } else {
        match mids[0].step(req) {
            OutcomeView::Answer(res) => res,
            OutcomeView::Forward(req2) => stack_run(mids.drop_first(), req2, fallback),
        }
    }
}

/// The outcome a middleware sequence produces when used as one middleware:
/// the first answer, or the request the whole sequence forwards.
pub open spec fn stack_step<M: Middleware>(mids: Seq<M>, req: RequestView) -> OutcomeView
    decreases mids.len(),
{
    if mids.len() == 0 {
        OutcomeView::Forward(req)
    } else {
        match mids[0].step(req) {
            OutcomeView::Answer(res) => OutcomeView::Answer(res),
            OutcomeView::Forward(req2) => stack_step(mids.drop_first(), req2),
        }
    }
}

/// The result of converting a factory sequence against one scope, in
/// order: the converted middlewares, or the first conversion error.
pub open spec fn resolve_seq<T: TryIntoMiddleware>(fs: Seq<T>, scope: &Scope) -> Result<
    Seq<T::Output>,
    Error,
>
    decreases fs.len(),
{
    if fs.len() == 0 {
        Ok(Seq::empty())
    } else {
        match fs[0].conversion(scope) {
            Err(e) => Err(e),
            Ok(m) => match resolve_seq(fs.drop_first(), scope) {
                Err(e) => Err(e),
                Ok(rest) => Ok(seq![m] + rest),
            },
        }
    }
}

/// The capture name of the synthetic scope-gating wildcard.
pub open spec fn rest_name() -> Seq<u8> {
    seq!['r' as u8, 'e' as u8, 's' as u8, 't' as u8]
}

/// True when a base route can take a trailing wildcard: it holds no
/// wildcard of its own.
pub open spec fn appendable(base: Seq<SegmentView>) -> bool {
    forall|i: int| 0 <= i < base.len() ==> !((#[trigger] base[i]) is Wildcard)
}

/// Immutable, ordered middleware pipeline plus an optional prefix matcher.
///
/// Produced once by resolving a [`Builder`]; dispatching walks the
/// middlewares in registration order. The matcher, compiled only when the
/// scope carries a base route, holds the single synthetic pattern
/// `<base>/{*rest}` for prefix gating by an embedding router; the stack
/// itself does not enforce it.
#[derive(Debug)]
pub struct Stack<M> {
    /// The middlewares in registration order.
    pub middlewares: Vec<M>,
    /// Prefix matcher for scope gating, when mounted below a base route.
    pub matcher: Option<Matcher<()>>,
}

impl<M: Middleware> Stack<M> {
    /// Dispatches a request: middlewares run in order, the first answer
    /// wins, and the fallback handler answers when all of them forward.
    #[verifier::loop_isolation(false)]
    pub fn process<F: Handler>(&self, req: Request, fallback: &F) -> (r: Response)
        ensures
            r@ == stack_run(self.middlewares@, req@, *fallback),
    {
        let ghost mids = self.middlewares@;
        let ghost req0 = req@;
        let mut cur = req;
        let mut i: usize = 0;
        proof {
            assert(mids.skip(0) =~= mids);
        }
        while i < self.middlewares.len()
            invariant
                i <= mids.len(),
                mids == self.middlewares@,
                stack_run(mids, req0, *fallback) == stack_run(
                    mids.skip(i as int),
                    cur@,
                    *fallback,
                ),
            decreases mids.len() - i,
        {
            let ghost rest = mids.skip(i as int);
            proof {
                assert(rest[0] == mids[i as int]);
                assert(rest.drop_first() =~= mids.skip(i + 1));
            }
            let m = &self.middlewares[i];
            match m.process(cur) {
                Outcome::Answer(res) => {
                    return res;
                },
                Outcome::Forward(req2) => {
                    cur = req2;
                },
            }
            i += 1;
        }
        proof {
            assert(mids.skip(mids.len() as int) =~= Seq::<M>::empty());
        }
        fallback.handle(cur)
    }
}

impl<M: Middleware> Default for Stack<M> {
    /// An empty stack: every request reaches the fallback unchanged.
    fn default() -> (r: Stack<M>)
        ensures
            r.middlewares@ == Seq::<M>::empty(),
            r.matcher is None,
    {
        Stack { middlewares: Vec::new(), matcher: None }
    }
}

impl<M: Middleware> Middleware for Stack<M> {
    /// A stack used as one middleware: the first answer of its
    /// middlewares, or the request the whole sequence forwards.
    open spec fn step(&self, req: RequestView) -> OutcomeView {
        stack_step(self.middlewares@, req)
    }

    #[verifier::loop_isolation(false)]
    fn process(&self, req: Request) -> (r: Outcome) {
        let ghost mids = self.middlewares@;
        let ghost req0 = req@;
        let mut cur = req;
        let mut i: usize = 0;
        proof {
            assert(mids.skip(0) =~= mids);
        }
        while i < self.middlewares.len()
            invariant
                i <= mids.len(),
                mids == self.middlewares@,
                stack_step(mids, req0) == stack_step(mids.skip(i as int), cur@),
            decreases mids.len() - i,
        {
            let ghost rest = mids.skip(i as int);
            proof {
                assert(rest[0] == mids[i as int]);
                assert(rest.drop_first() =~= mids.skip(i + 1));
            }
            let m = &self.middlewares[i];
            match m.process(cur) {
                Outcome::Answer(res) => {
                    return Outcome::Answer(res);
                },
                Outcome::Forward(req2) => {
                    cur = req2;
                },
            }
            i += 1;
        }
        proof {
            assert(mids.skip(mids.len() as int) =~= Seq::<M>::empty());
        }
        Outcome::Forward(cur)
    }
}

impl<M: Middleware> Handler for Stack<M> {
    /// A stack used as a handler answers as if dispatched with the
    /// canonical `404 Not Found` fallback.
    open spec fn response(&self, req: RequestView) -> ResponseView {
        stack_run(self.middlewares@, req, NotFound)
    }

    fn handle(&self, req: Request) -> (r: Response) {
        self.process(req, &NotFound)
    }
}

/// Stack builder: the accumulation phase of the two-phase protocol.
///
/// Registration appends a deferred, fallible conversion and itself never
/// fails; registration order is execution order.
#[derive(Debug)]
pub struct Builder<T> {
    /// The accumulated middleware factories in registration order.
    pub middlewares: Vec<T>,
}

impl<T: TryIntoMiddleware> Builder<T> {
    /// An empty builder.
    pub fn new() -> (r: Builder<T>)
        ensures
            r.middlewares@ == Seq::<T>::empty(),
    {
        Builder { middlewares: Vec::new() }
    }

    /// Appends a middleware factory; registration never fails.
    pub fn push(&mut self, middleware: T)
        ensures
            final(self).middlewares@ == old(self).middlewares@.push(middleware),
    {
        self.middlewares.push(middleware);
    }

    /// Appends a middleware factory, fluently; registration never fails.
    ///
    /// Anything that can be converted into a [`Middleware`] can be added,
    /// stacks and plain middlewares included.
    pub fn with(self, middleware: T) -> (r: Builder<T>)
        ensures
            r.middlewares@ == self.middlewares@.push(middleware),
    {
        let mut b = self;
        b.push(middleware);
        b
    }

    /// Resolves the builder against one scope: compiles the scope's prefix
    /// matcher, then converts every accumulated factory in registration
    /// order, aborting on the first failure with no partial stack.
    #[verifier::loop_isolation(false)]
    pub fn try_into_middleware(self, scope: &Scope) -> (r: Result<Stack<T::Output>, Error>)
        ensures
            match r {
                Ok(stack) => {
                    &&& match scope.route {
                        None => stack.matcher is None,
                        Some(base) => {
                            &&& appendable(base@)
                            &&& stack.matcher is Some
                            &&& stack.matcher->Some_0.routes@.len() == 1
                            &&& stack.matcher->Some_0.routes@[0].0@ == base@ + seq![
                                SegmentView::Wildcard(rest_name()),
                            ]
                            &&& stack.matcher->Some_0.wf()
                        },
                    }
                    &&& resolve_seq(self.middlewares@, scope) == Ok::<_, Error>(
                        stack.middlewares@,
                    )
                },
                Err(e) => {
                    ||| (scope.route is Some && !appendable(scope.route->Some_0@) && e == (
                    Error::Matcher(RouteError::NonFinalWildcard)))
                    ||| ((scope.route is Some ==> appendable(scope.route->Some_0@))
                        && resolve_seq(self.middlewares@, scope) == Err::<Seq<T::Output>, _>(e))
                },
            },
    {
        let matcher: Option<Matcher<()>> = match &scope.route {
            None => None,
            Some(base) => {
                let mut segments: Vec<Segment> = Vec::new();
                let mut name: Vec<u8> = Vec::new();
                name.push('r' as u8);
                name.push('e' as u8);
                name.push('s' as u8);
                name.push('t' as u8);
                proof {
                    assert(name@ =~= rest_name());
                }
                segments.push(Segment::Wildcard(name));
                let rest_route = Route { segments };
                proof {
                    assert(rest_route@ =~= seq![SegmentView::Wildcard(rest_name())]);
                }
                let combined = base.append(&rest_route);
                let mut m: Matcher<()> = Matcher::new();
                match m.add(combined, ()) {
                    Ok(()) => {
                        proof {
                            assert(m.routes@.len() == 1);
                            assert(m.routes@[0].0@ == base@ + seq![
                                SegmentView::Wildcard(rest_name()),
                            ]);
                            assert(appendable(base@)) by {
                                let c = base@ + seq![SegmentView::Wildcard(rest_name())];
                                assert forall|i: int|
                                    0 <= i < base@.len() implies !((#[trigger] base@[i])
                                    is Wildcard) by {
                                    assert(c[i] == base@[i]);
                                }
                            }
                        }
                        Some(m)
                    },
                    Err(re) => {
                        proof {
                            let c = base@ + seq![SegmentView::Wildcard(rest_name())];
                            assert(re == RouteError::NonFinalWildcard);
                            assert(!appendable(base@)) by {
                                if appendable(base@) {
                                    assert forall|i: int|
                                        0 <= i < c.len() - 1 implies !((#[trigger] c[i])
                                        is Wildcard) by {
                                        assert(c[i] == base@[i]);
                                    }
                                }
                            }
                        }
                        return Err(Error::Matcher(re));
                    },
                }
            },
        };
        let ghost fsv = self.middlewares@;
        let mut fs = self.middlewares;
        let mut mids: Vec<T::Output> = Vec::new();
        proof {
            assert(mids@ + resolve_seq(fsv, scope)->Ok_0 =~= resolve_seq(fsv, scope)->Ok_0);
        }
        while fs.len() > 0
            invariant
                resolve_seq(fsv, scope) == (match resolve_seq(fs@, scope) {
                    Ok(rest) => Ok::<_, Error>(mids@ + rest),
                    Err(e) => Err(e),
                }),
            decreases fs.len(),
        {
            let ghost fpre = fs@;
            let f = fs.remove(0);
            proof {
                assert(fs@ =~= fpre.drop_first());
            }
            match f.try_into_middleware(scope) {
                Ok(m) => {
                    let ghost mpre = mids@;
                    mids.push(m);
                    proof {
                        if resolve_seq(fs@, scope) is Ok {
                            let rest = resolve_seq(fs@, scope)->Ok_0;
                            assert(resolve_seq(fpre, scope) == Ok::<_, Error>(seq![m] + rest));
                            assert(mpre + (seq![m] + rest) =~= mids@ + rest);
                        }
                    }
                },
                Err(e) => {
                    proof {
                        assert(resolve_seq(fpre, scope) == Err::<Seq<T::Output>, _>(e));
                    }
                    return Err(e);
                },
            }
        }
        proof {
            assert(fs@.len() == 0);
            assert(resolve_seq(fs@, scope) == Ok::<_, Error>(Seq::<T::Output>::empty()));
            assert(mids@ + Seq::<T::Output>::empty() =~= mids@);
        }
        Ok(Stack { middlewares: mids, matcher })
    }

    /// Resolves the builder against the default (root) scope, producing a
    /// stack usable as a handler.
    pub fn try_into_handler(self) -> (r: Result<Stack<T::Output>, Error>)
        ensures
            match r {
                Ok(stack) => stack.matcher is None && resolve_seq(
                    self.middlewares@,
                    &(Scope { route: None }),
                ) == Ok::<_, Error>(stack.middlewares@),
                Err(e) => resolve_seq(self.middlewares@, &(Scope { route: None })) == Err::<
                    Seq<T::Output>,
                    _,
                >(e),
            },
    {
        let scope = Scope::root();
        let ghost fsv = self.middlewares@;
        let r = self.try_into_middleware(&scope);
        proof {
            assert(scope == (Scope { route: None }));
        }
        r
    }
}

/// Law: a middleware that answers short-circuits everything after it.
/// Whatever middlewares follow it in the stack, and whatever the fallback,
/// the stack's response is exactly its answer, so none of them ever runs.
pub proof fn lemma_short_circuit<M: Middleware, F: Handler>(
    a: M,
    rest: Seq<M>,
    req: RequestView,
    fallback: F,
)
    requires
        a.step(req) is Answer,
    ensures
        stack_run(seq![a] + rest, req, fallback) == a.step(req)->Answer_0,
{
    let mids = seq![a] + rest;
    assert(mids.len() > 0);
    assert(mids[0] == a);
}

/// Law: a middleware that forwards runs before its successor, which sees
/// exactly the forwarded request; when that successor always answers, the
/// stack's response is the successor's answer to the forwarded request,
/// whatever the fallback.
pub proof fn lemma_forward_then_answer<M: Middleware, F: Handler>(
    a: M,
    b: M,
    req: RequestView,
    fallback: F,
)
    requires
        a.step(req) is Forward,
        forall|r: RequestView| (#[trigger] b.step(r)) is Answer,
    ensures
        stack_run(seq![a, b], req, fallback) == b.step(a.step(req)->Forward_0)->Answer_0,
{
    let req2 = a.step(req)->Forward_0;
    assert(seq![a, b][0] == a);
    assert(seq![a, b].drop_first() =~= seq![b]);
    assert(stack_run(seq![a, b], req, fallback) == stack_run(seq![b], req2, fallback));
    assert(seq![b][0] == b);
    assert(b.step(req2) is Answer);
}

/// Law: resolution fails fast. When every factory before position `k`
/// converts and the factory at `k` fails with `e`, resolution returns
/// exactly `e` — and does so whatever stands after position `k`, so the
/// conversions of later factories are never consulted.
pub proof fn lemma_resolution_fail_fast<T: TryIntoMiddleware>(
    fs: Seq<T>,
    tail: Seq<T>,
    scope: &Scope,
    k: int,
    e: Error,
)
    requires
        0 <= k < fs.len(),
        forall|i: int| 0 <= i < k ==> (#[trigger] fs[i].conversion(scope)) is Ok,
        fs[k].conversion(scope) == Err::<T::Output, Error>(e),
    ensures
        resolve_seq(fs, scope) == Err::<Seq<T::Output>, Error>(e),
        resolve_seq(fs.take(k + 1) + tail, scope) == Err::<Seq<T::Output>, Error>(e),
    decreases k,
{
    let g = fs.take(k + 1) + tail;
    assert(g[0] == fs[0]);
    if k == 0 {
        assert(resolve_seq(fs, scope) == Err::<Seq<T::Output>, Error>(e));
        assert(resolve_seq(g, scope) == Err::<Seq<T::Output>, Error>(e));
    } else {
        let fs2 = fs.drop_first();
        assert(fs[0].conversion(scope) is Ok);
        assert forall|i: int| 0 <= i < k - 1 implies (#[trigger] fs2[i].conversion(scope))
            is Ok by {
            assert(fs2[i] == fs[i + 1]);
        }
        assert(fs2[k - 1] == fs[k]);
        lemma_resolution_fail_fast(fs2, tail, scope, k - 1, e);
        assert(g.drop_first() =~= fs2.take(k) + tail);
        assert(resolve_seq(fs, scope) == resolve_seq(fs2, scope));
        assert(resolve_seq(g, scope) == resolve_seq(g.drop_first(), scope));
    }
}

} // verus!
