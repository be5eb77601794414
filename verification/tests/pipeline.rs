use zense::{
    Builder, Either, Error, Handler, Header, IntoResponse, Matcher, Method, Middleware, NotFound,
    Outcome, Request, Response, ResponseExt, Route, RouteError, Scope, Stack, Status,
    TryIntoHandler, TryIntoMiddleware, Uri,
};

#[derive(Debug)]
struct AlwaysTeapot;

impl Middleware for AlwaysTeapot {
    fn process(&self, _req: Request) -> Outcome {
        Outcome::Answer(Response::new().status(Status::ImATeapot))
    }
}

#[derive(Debug)]
enum TestMw {
    /// Forwards the request unchanged.
    Forward,
    /// Rewrites the path, then forwards.
    ForwardTo(&'static [u8]),
    /// Answers 200 with the request path as the body.
    EchoPath,
    /// Answers 204 unconditionally.
    AnswerNoContent,
    /// Fails the test if it ever runs.
    PanicIfRun,
    /// Answers 418 for `GET /coffee`, forwards anything else.
    Teapot,
}

impl Middleware for TestMw {
    fn process(&self, req: Request) -> Outcome {
        match self {
            TestMw::Forward => Outcome::Forward(req),
            TestMw::ForwardTo(p) => Outcome::Forward(req.uri(Uri::parse(p))),
            TestMw::EchoPath => {
                let body = req.uri.path.clone();
                Outcome::Answer(Response::new().status(Status::Okay).body(body))
            }
            TestMw::AnswerNoContent => {
                Outcome::Answer(Response::new().status(Status::NoContent))
            }
            TestMw::PanicIfRun => panic!("middleware must not run"),
            TestMw::Teapot => {
                if req.method == Method::Get && req.uri.path == b"/coffee".to_vec() {
                    Outcome::Answer(Response::new().status(Status::ImATeapot))
                } else {
                    Outcome::Forward(req)
                }
            }
        }
    }
}

#[derive(Debug)]
enum TestFactory {
    Good,
    Bad,
    Explode,
}

impl TryIntoMiddleware for TestFactory {
    type Output = TestMw;

    fn try_into_middleware(self, _scope: &Scope) -> Result<TestMw, Error> {
        match self {
            TestFactory::Good => Ok(TestMw::Forward),
            TestFactory::Bad => Err(Error::Middleware("boom")),
            TestFactory::Explode => panic!("third factory must never be invoked"),
        }
    }
}

#[test]
fn forwarding_runs_before_the_answer() {
    let stack = Builder::<TestMw>::new()
        .with(TestMw::ForwardTo(b"/from-a"))
        .with(TestMw::EchoPath)
        .try_into_handler()
        .unwrap();
    let res = stack.process(Request::default(), &NotFound);
    assert_eq!(res.status, Status::Okay);
    // The answering middleware saw the request as rewritten by the first.
    assert_eq!(res.body, b"/from-a".to_vec());
}

#[test]
fn answering_short_circuits_the_rest() {
    let stack = Builder::<TestMw>::new()
        .with(TestMw::AnswerNoContent)
        .with(TestMw::PanicIfRun)
        .try_into_handler()
        .unwrap();
    let res = stack.process(Request::default(), &NotFound);
    assert_eq!(res.status, Status::NoContent);
}

#[test]
fn resolution_fails_fast_on_the_first_error() {
    let builder = Builder::<TestFactory>::new()
        .with(TestFactory::Good)
        .with(TestFactory::Bad)
        .with(TestFactory::Explode);
    let err = builder.try_into_handler().unwrap_err();
    assert!(matches!(err, Error::Middleware("boom")));
}

#[test]
fn end_to_end_teapot_dispatch() {
    let stack = Builder::<TestMw>::new()
        .with(TestMw::Teapot)
        .try_into_handler()
        .unwrap();
    let req = Request::from_bytes(b"GET /coffee HTTP/1.1\r\n\r\n").unwrap();
    let res = stack.process(req, &NotFound);
    assert_eq!(res.status, Status::ImATeapot);

    let req = Request::from_bytes(b"GET /tea HTTP/1.1\r\n\r\n").unwrap();
    let res = stack.process(req, &NotFound);
    assert_eq!(res.status, Status::NotFound);
    assert_eq!(res.body, b"Not Found".to_vec());
}

#[test]
fn empty_stack_falls_back() {
    let stack: Stack<TestMw> = Stack::default();
    let res = stack.process(Request::default(), &NotFound);
    assert_eq!(res.status, Status::NotFound);
}

#[test]
fn a_stack_is_a_middleware() {
    let inner = Builder::<TestMw>::new()
        .with(TestMw::Teapot)
        .try_into_handler()
        .unwrap();
    let outer = Builder::<Stack<TestMw>>::new()
        .with(inner)
        .try_into_handler()
        .unwrap();
    let req = Request::new().uri(Uri::parse(b"/coffee"));
    let res = outer.process(req, &NotFound);
    assert_eq!(res.status, Status::ImATeapot);
}

#[test]
fn a_stack_is_a_handler() {
    let stack = Builder::<TestMw>::new()
        .with(TestMw::Forward)
        .try_into_handler()
        .unwrap();
    let res = stack.handle(Request::default());
    assert_eq!(res.status, Status::NotFound);
}

#[test]
fn registration_order_is_kept() {
    let mut builder = Builder::<TestMw>::new();
    builder.push(TestMw::ForwardTo(b"/first"));
    builder.push(TestMw::ForwardTo(b"/second"));
    builder.push(TestMw::EchoPath);
    let stack = builder.try_into_handler().unwrap();
    let res = stack.process(Request::default(), &NotFound);
    // The later rewrite wins, so it ran after the earlier one.
    assert_eq!(res.body, b"/second".to_vec());
}

#[test]
fn scoped_resolution_compiles_a_prefix_matcher() {
    let base = Route::parse(b"/api").unwrap();
    let scope = Scope::new(Some(base));
    let stack = Builder::<TestMw>::new()
        .with(TestMw::Forward)
        .try_into_middleware(&scope)
        .unwrap();
    let matcher = stack.matcher.as_ref().unwrap();
    assert!(matcher.resolve(b"/api/anything/below").is_some());
    assert!(matcher.resolve(b"/api").is_none());
    assert!(matcher.resolve(b"/elsewhere/x").is_none());
}

#[test]
fn root_resolution_has_no_matcher() {
    let stack = Builder::<TestMw>::new()
        .with(TestMw::Forward)
        .try_into_middleware(&Scope::root())
        .unwrap();
    assert!(stack.matcher.is_none());
}

#[test]
fn wildcard_base_fails_matcher_compilation() {
    let base = Route::parse(b"/{*all}").unwrap();
    let scope = Scope::new(Some(base));
    let err = Builder::<TestMw>::new()
        .with(TestMw::Forward)
        .try_into_middleware(&scope)
        .unwrap_err();
    assert!(matches!(err, Error::Matcher(RouteError::NonFinalWildcard)));
}

#[test]
fn handlers_convert_into_themselves() {
    let h = NotFound.try_into_handler().unwrap();
    let res = h.handle(Request::default());
    assert_eq!(res.status, Status::NotFound);
}

#[test]
fn not_found_body_is_the_canonical_name() {
    let res = NotFound.handle(Request::default());
    assert_eq!(res.status, Status::NotFound);
    assert_eq!(res.body, b"Not Found".to_vec());
    assert_eq!(
        res.headers.get(Header::ContentType).unwrap(),
        &b"text/plain; charset=utf-8".to_vec()
    );
    assert_eq!(res.headers.get(Header::ContentLength).unwrap(), &b"9".to_vec());
}

#[test]
fn from_status_builds_the_canonical_response() {
    let res = Response::from_status(Status::ImATeapot);
    assert_eq!(res.status, Status::ImATeapot);
    assert_eq!(res.body, b"I'm a Teapot".to_vec());
    assert_eq!(res.headers.get(Header::ContentLength).unwrap(), &b"12".to_vec());
    assert_eq!(Status::ImATeapot.code(), 418);
    assert_eq!(Status::ImATeapot.name(), "I'm a Teapot");
}

#[test]
fn results_convert_into_responses() {
    let ok: Result<Response, String> = Ok(Response::new().status(Status::Created));
    assert_eq!(ok.into_response().status, Status::Created);
    let err: Result<Response, String> = Err("backend failure".to_string());
    let res = err.into_response();
    assert_eq!(res.status, Status::InternalServerError);
    assert_eq!(res.body, b"Internal Server Error".to_vec());
}

#[test]
fn prefix_gating_uses_the_route_matcher() {
    // The synthetic scope pattern is an ordinary wildcard route.
    let mut m: Matcher<()> = Matcher::new();
    let base = Route::parse(b"/mnt").unwrap();
    let rest = Route::parse(b"/{*rest}").unwrap();
    m.add(base.append(&rest), ()).unwrap();
    assert!(m.resolve(b"/mnt/a/b").is_some());
    assert!(m.resolve(b"/mnt2/a").is_none());
}

#[test]
fn wire_layout_is_exact() {
    let res = Response::from_status(Status::NotFound);
    let wire = res.to_wire();
    let expected: &[u8] = b"HTTP/1.1 404 Not Found\r\n\
        content-type: text/plain; charset=utf-8\r\n\
        content-length: 9\r\n\
        \r\n\
        Not Found";
    assert_eq!(wire, expected.to_vec());
}

#[test]
fn wire_layout_keeps_header_order_and_body() {
    let res = Response::new()
        .status(Status::Okay)
        .header(Header::ContentLength, b"2".to_vec())
        .header(Header::ContentType, b"text/plain".to_vec())
        .body(b"ok".to_vec());
    let expected: &[u8] =
        b"HTTP/1.1 200 OK\r\ncontent-length: 2\r\ncontent-type: text/plain\r\n\r\nok";
    assert_eq!(res.to_wire(), expected.to_vec());
}

#[test]
fn different_middleware_types_mix_in_one_stack() {
    let stack = Builder::<Either<TestMw, AlwaysTeapot>>::new()
        .with(Either::First(TestMw::ForwardTo(b"/rewritten")))
        .with(Either::Second(AlwaysTeapot))
        .try_into_handler()
        .unwrap();
    let res = stack.process(Request::default(), &NotFound);
    assert_eq!(res.status, Status::ImATeapot);
}
