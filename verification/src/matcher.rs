//! Path-pattern compilation and deterministic most-specific-match
//! resolution.
//!
//! A pattern is a `/`-separated sequence of segments: a literal, a named
//! capture `{name}` matching exactly one non-empty segment, or a trailing
//! wildcard `{*name}` matching one or more remaining segments. Non-final
//! wildcards and structurally duplicate patterns are rejected when a route
//! is registered, never silently resolved at match time.

use vstd::prelude::*;
use vstd::slice::{slice_subrange, slice_to_vec};

use crate::bytes::{bytes_eq, split_bytes, split_seq, views};

verus! {

/// Ghost shape of a [`Segment`].
pub enum SegmentView {
    /// Literal text, matched exactly and case-sensitively.
    Static(Seq<u8>),
    /// Named capture of exactly one non-empty segment.
    Named(Seq<u8>),
    /// Trailing wildcard capturing all remaining segments.
    Wildcard(Seq<u8>),
}

/// One compiled segment of a path pattern.
#[derive(Debug)]
pub enum Segment {
    /// Literal text, matched exactly and case-sensitively.
    Static(Vec<u8>),
    /// Named capture of exactly one non-empty segment.
    Named(Vec<u8>),
    /// Trailing wildcard capturing all remaining segments.
    Wildcard(Vec<u8>),
}

impl View for Segment {
    type V = SegmentView;

    open spec fn view(&self) -> SegmentView {
        match self {
            Segment::Static(t) => SegmentView::Static(t@),
            Segment::Named(t) => SegmentView::Named(t@),
            Segment::Wildcard(t) => SegmentView::Wildcard(t@),
        }
    }
}

impl Segment {
    /// An owned copy of the segment.
    pub fn duplicate(&self) -> (r: Segment)
        ensures
            r@ == self@,
    {
        match self {
            Segment::Static(t) => Segment::Static(slice_to_vec(t.as_slice())),
            Segment::Named(t) => Segment::Named(slice_to_vec(t.as_slice())),
            Segment::Wildcard(t) => Segment::Wildcard(slice_to_vec(t.as_slice())),
        }
    }
}

/// Specificity rank of a segment: literal over named over wildcard.
pub open spec fn rank(s: SegmentView) -> int {
    match s {
        SegmentView::Static(_) => 2,
        SegmentView::Named(_) => 1,
        SegmentView::Wildcard(_) => 0,
    }
}

/// A well-formed pattern has wildcards only in final position.
pub open spec fn wf_route(segs: Seq<SegmentView>) -> bool {
    forall|i: int| 0 <= i < segs.len() - 1 ==> !((#[trigger] segs[i]) is Wildcard)
}

/// The segment one `/`-separated piece of a pattern compiles to.
pub open spec fn seg_of(piece: Seq<u8>) -> SegmentView {
    if piece.len() >= 2 && piece[0] == '{' as u8 && piece[piece.len() - 1] == '}' as u8 {
        let inner = piece.subrange(1, piece.len() - 1);
        if inner.len() >= 1 && inner[0] == '*' as u8 {
            SegmentView::Wildcard(inner.skip(1))
        } else {
            SegmentView::Named(inner)
        }
    } else {
        SegmentView::Static(piece)
    }
}

/// The segments a pattern beginning with `/` compiles to.
pub open spec fn route_of(pattern: Seq<u8>) -> Seq<SegmentView> {
    split_seq(pattern.skip(1), '/' as u8).map_values(|piece: Seq<u8>| seg_of(piece))
}

/// Why a route failed to compile or register.
#[derive(Clone, Copy, PartialEq, Eq, Structural, Debug)]
pub enum RouteError {
    /// The pattern does not begin with `/`.
    BadPattern,
    /// A wildcard stands in a non-final position.
    NonFinalWildcard,
    /// The pattern is a structural duplicate of a registered one.
    Ambiguous,
}

impl RouteError {
    /// Human-readable reason.
    pub fn reason(self) -> &'static str {
        match self {
            RouteError::BadPattern => "pattern must begin with a slash",
            RouteError::NonFinalWildcard => "wildcard is only legal as the final segment",
            RouteError::Ambiguous => "pattern is a structural duplicate of a registered one",
        }
    }
}

/// One compiled path pattern.
#[derive(Debug)]
pub struct Route {
    /// The compiled segments in order.
    pub segments: Vec<Segment>,
}

impl View for Route {
    type V = Seq<SegmentView>;

    open spec fn view(&self) -> Seq<SegmentView> {
        self.segments@.map_values(|s: Segment| s@)
    }
}

impl Route {
    /// Compiles a pattern. Fails when the pattern does not begin with `/`
    /// or carries a wildcard in a non-final position.
    pub fn parse(pattern: &[u8]) -> (r: Result<Route, RouteError>)
        ensures
            match r {
                Ok(route) => pattern@.len() > 0 && pattern@[0] == '/' as u8 && route@ == route_of(
                    pattern@,
                ) && wf_route(route@),
                Err(e) => {
                    ||| (e == RouteError::BadPattern && (pattern@.len() == 0 || pattern@[0]
                        != '/' as u8))
                    ||| (e == RouteError::NonFinalWildcard && pattern@.len() > 0 && pattern@[0]
                        == '/' as u8 && !wf_route(route_of(pattern@)))
                },
            },
    {
        if pattern.len() == 0 || pattern[0] != '/' as u8 {
            return Err(RouteError::BadPattern);
        }
        let n = pattern.len();
        let pieces = split_bytes(slice_subrange(pattern, 1, n), '/' as u8);
        let mut segments: Vec<Segment> = Vec::new();
        let mut i: usize = 0;
        proof {
            assert(views(pieces@) == split_seq(pattern@.skip(1), '/' as u8));
        }
        while i < pieces.len()
            invariant
                i <= pieces.len(),
                views(pieces@) == split_seq(pattern@.skip(1), '/' as u8),
                segments@.map_values(|s: Segment| s@) =~= views(pieces@).map_values(
                    |piece: Seq<u8>| seg_of(piece),
                ).take(i as int),
            decreases pieces.len() - i,
        {
            let piece = &pieces[i];
            let ghost pre = segments@;
            let m = piece.len();
            if m >= 2 && piece[0] == '{' as u8 && piece[m - 1] == '}' as u8 {
                let inner = slice_subrange(piece.as_slice(), 1, m - 1);
                proof {
                    assert(inner@ =~= piece@.subrange(1, piece@.len() - 1));
                }
                if inner.len() >= 1 && inner[0] == '*' as u8 {
                    let name = slice_subrange(inner, 1, m - 2);
                    proof {
                        assert(name@ =~= inner@.skip(1));
                    }
                    segments.push(Segment::Wildcard(slice_to_vec(name)));
                } else {
                    segments.push(Segment::Named(slice_to_vec(inner)));
                }
            } else {
                segments.push(Segment::Static(slice_to_vec(piece.as_slice())));
            }
            proof {
                let f = |s: Segment| s@;
                let g = |piece: Seq<u8>| seg_of(piece);
                assert(segments@.map_values(f) =~= pre.map_values(f).push(f(segments@.last())));
                assert(f(segments@.last()) == seg_of(views(pieces@)[i as int]));
                assert(views(pieces@).map_values(g).take(i + 1) =~= views(pieces@).map_values(
                    g,
                ).take(i as int).push(g(views(pieces@)[i as int])));
            }
            i += 1;
        }
        let route = Route { segments };
        proof {
            let g = |piece: Seq<u8>| seg_of(piece);
            assert(views(pieces@).map_values(g).take(pieces@.len() as int) =~= route_of(pattern@));
            assert(route@ == route_of(pattern@));
        }
        if !route.wildcard_final() {
            return Err(RouteError::NonFinalWildcard);
        }
        Ok(route)
    }

    /// True when every wildcard stands in final position.
    pub fn wildcard_final(&self) -> (r: bool)
        ensures
            r == wf_route(self@),
    {
        let n = self.segments.len();
        if n == 0 {
            return true;
        }
        let mut i: usize = 0;
        while i < n - 1
            invariant
                1 <= n,
                i <= n,
                n == self@.len(),
                forall|j: int| 0 <= j < i ==> !((#[trigger] self@[j]) is Wildcard),
            decreases n - i,
        {
            let is_wild = match &self.segments[i] {
                Segment::Wildcard(_) => true,
                _ => false,
            };
            if is_wild {
                proof {
                    assert(self@[i as int] is Wildcard);
                }
                return false;
            }
            i += 1;
        }
        true
    }

    /// The concatenation of two patterns' segments.
    pub fn append(&self, other: &Route) -> (r: Route)
        ensures
            r@ == self@ + other@,
    {
        let mut segments: Vec<Segment> = Vec::new();
        let mut i: usize = 0;
        while i < self.segments.len()
            invariant
                i <= self.segments.len(),
                segments@.map_values(|s: Segment| s@) =~= self@.take(i as int),
            decreases self.segments.len() - i,
        {
            let ghost pre = segments@;
            segments.push(self.segments[i].duplicate());
            proof {
                let f = |s: Segment| s@;
                assert(segments@.map_values(f) =~= pre.map_values(f).push(f(segments@.last())));
                assert(self@.take(i + 1) =~= self@.take(i as int).push(self@[i as int]));
            }
            i += 1;
        }
        let mut k: usize = 0;
        while k < other.segments.len()
            invariant
                k <= other.segments.len(),
                segments@.map_values(|s: Segment| s@) =~= self@ + other@.take(k as int),
            decreases other.segments.len() - k,
        {
            let ghost pre = segments@;
            segments.push(other.segments[k].duplicate());
            proof {
                let f = |s: Segment| s@;
                assert(segments@.map_values(f) =~= pre.map_values(f).push(f(segments@.last())));
                assert(self@ + other@.take(k + 1) =~= (self@ + other@.take(k as int)).push(
                    other@[k as int],
                ));
            }
            k += 1;
        }
        proof {
            assert(self@.take(self@.len() as int) =~= self@);
            assert(other@.take(other@.len() as int) =~= other@);
        }
        Route { segments }
    }
}

/// Joined remaining path segments, `/`-separated, as a wildcard binds them.
pub open spec fn join_parts(parts: Seq<Seq<u8>>) -> Seq<u8> {
    if parts.len() == 0 {
        seq![]
    } else {
        parts[0] + join_tail(parts.drop_first())
    }
}

/// Tail of a join: every segment preceded by `/`.
pub open spec fn join_tail(parts: Seq<Seq<u8>>) -> Seq<u8>
    decreases parts.len(),
{
    if parts.len() == 0 {
        seq![]
    } else {
        seq!['/' as u8] + parts[0] + join_tail(parts.drop_first())
    }
}

/// True when the pattern matches the path split into `parts`.
pub open spec fn matches_from(segs: Seq<SegmentView>, parts: Seq<Seq<u8>>) -> bool
    decreases segs.len(),
{
    if segs.len() == 0 {
        parts.len() == 0
    } else {
        match segs[0] {
            SegmentView::Static(t) => parts.len() > 0 && parts[0] == t && matches_from(
                segs.drop_first(),
                parts.drop_first(),
            ),
            SegmentView::Named(_) => parts.len() > 0 && parts[0].len() > 0 && matches_from(
                segs.drop_first(),
                parts.drop_first(),
            ),
            SegmentView::Wildcard(_) => segs.len() == 1 && parts.len() >= 1,
        }
    }
}

/// The parameters a matching pattern binds: each named capture its segment,
/// a wildcard the joined remainder.
pub open spec fn bind_from(segs: Seq<SegmentView>, parts: Seq<Seq<u8>>) -> Seq<(Seq<u8>, Seq<u8>)>
    decreases segs.len(),
{
    if segs.len() == 0 {
        seq![]
    } else {
        match segs[0] {
            SegmentView::Static(_) => bind_from(segs.drop_first(), parts.drop_first()),
            SegmentView::Named(id) => seq![(id, parts[0])] + bind_from(
                segs.drop_first(),
                parts.drop_first(),
            ),
            SegmentView::Wildcard(id) => seq![(id, join_parts(parts))],
        }
    }
}

/// Strictly-more-specific order: at the first position where the ranks of
/// two patterns differ, the one with the higher rank wins.
pub open spec fn more_specific(a: Seq<SegmentView>, b: Seq<SegmentView>) -> bool
    decreases a.len(),
{
    if a.len() == 0 || b.len() == 0 {
        false
    } else if rank(a[0]) > rank(b[0]) {
        true
    } else if rank(a[0]) < rank(b[0]) {
        false
    } else {
        more_specific(a.drop_first(), b.drop_first())
    }
}

/// Structural compatibility of two segments: equal literals, or the same
/// capture kind regardless of name.
pub open spec fn compatible(x: SegmentView, y: SegmentView) -> bool {
    match (x, y) {
        (SegmentView::Static(a), SegmentView::Static(b)) => a == b,
        (SegmentView::Named(_), SegmentView::Named(_)) => true,
        (SegmentView::Wildcard(_), SegmentView::Wildcard(_)) => true,
        _ => false,
    }
}

/// Structural duplicates: equally specific at every segment, so that no
/// path could tell them apart by the tie-break rule.
pub open spec fn duplicate(a: Seq<SegmentView>, b: Seq<SegmentView>) -> bool {
    a.len() == b.len() && forall|i: int|
        0 <= i < a.len() ==> compatible(#[trigger] a[i], #[trigger] b[i])
}

/// The strictly-more-specific order is transitive.
pub proof fn lemma_more_specific_trans(a: Seq<SegmentView>, b: Seq<SegmentView>, c: Seq<
    SegmentView,
>)
    requires
        more_specific(a, b),
        more_specific(b, c),
    ensures
        more_specific(a, c),
    decreases a.len(),
{
    if rank(a[0]) > rank(b[0]) {
        assert(rank(b[0]) >= rank(c[0]));
    } else {
        assert(rank(a[0]) == rank(b[0]));
        if rank(b[0]) > rank(c[0]) {
        } else {
            lemma_more_specific_trans(a.drop_first(), b.drop_first(), c.drop_first());
        }
    }
}

/// Two well-formed, structurally distinct patterns that match the same path
/// are always ordered by specificity.
pub proof fn lemma_comparable(a: Seq<SegmentView>, b: Seq<SegmentView>, parts: Seq<Seq<u8>>)
    requires
        wf_route(a),
        wf_route(b),
        !duplicate(a, b),
        matches_from(a, parts),
        matches_from(b, parts),
    ensures
        more_specific(a, b) || more_specific(b, a),
    decreases a.len(),
{
    if a.len() == 0 {
        assert(parts.len() == 0);
        assert(b.len() == 0) by {
            if b.len() > 0 {
                assert(!matches_from(b, parts));
            }
        }
        assert(duplicate(a, b));
    } else if b.len() == 0 {
        assert(parts.len() == 0);
        assert(!matches_from(a, parts));
    } else if rank(a[0]) != rank(b[0]) {
    } else {
        match (a[0], b[0]) {
            (SegmentView::Wildcard(_), SegmentView::Wildcard(_)) => {
                assert(a.len() == 1 && b.len() == 1);
                assert(duplicate(a, b));
            },
            _ => {
                assert(compatible(a[0], b[0]));
                let a2 = a.drop_first();
                let b2 = b.drop_first();
                let rest = parts.drop_first();
                assert(wf_route(a2)) by {
                    assert forall|i: int| 0 <= i < a2.len() - 1 implies !((#[trigger] a2[i])
                        is Wildcard) by {
                        assert(a2[i] == a[i + 1]);
                    }
                }
                assert(wf_route(b2)) by {
                    assert forall|i: int| 0 <= i < b2.len() - 1 implies !((#[trigger] b2[i])
                        is Wildcard) by {
                        assert(b2[i] == b[i + 1]);
                    }
                }
                assert(!duplicate(a2, b2)) by {
                    if duplicate(a2, b2) {
                        assert forall|i: int| 0 <= i < a.len() implies compatible(
                            #[trigger] a[i],
                            #[trigger] b[i],
                        ) by {
                            if i > 0 {
                                assert(a2[i - 1] == a[i]);
                                assert(b2[i - 1] == b[i]);
                                assert(compatible(a2[i - 1], b2[i - 1]));
                            }
                        }
                        assert(duplicate(a, b));
                    }
                }
                lemma_comparable(a2, b2, rest);
            },
        }
    }
}

/// Structural duplication is symmetric.
pub proof fn lemma_duplicate_sym(a: Seq<SegmentView>, b: Seq<SegmentView>)
    requires
        duplicate(a, b),
    ensures
        duplicate(b, a),
{
    assert forall|i: int| 0 <= i < b.len() implies compatible(#[trigger] b[i], #[trigger] a[i]) by {
        assert(compatible(a[i], b[i]));
    }
}

/// The views of a sequence of byte-vector pairs.
pub open spec fn pair_views(vs: Seq<(Vec<u8>, Vec<u8>)>) -> Seq<(Seq<u8>, Seq<u8>)> {
    vs.map_values(|p: (Vec<u8>, Vec<u8>)| (p.0@, p.1@))
}

/// The segments a concrete path splits into: the pieces after the leading
/// `/`, or nothing when the path does not begin with `/`.
pub open spec fn path_parts(path: Seq<u8>) -> Option<Seq<Seq<u8>>> {
    if path.len() == 0 || path[0] != '/' as u8 {
        None
    } else {
        Some(split_seq(path.skip(1), '/' as u8))
    }
}

/// Joins `parts[from..]` with `/` separators, as a wildcard binds them.
fn join_rest(parts: &Vec<Vec<u8>>, from: usize) -> (r: Vec<u8>)
    requires
        from < parts@.len(),
    ensures
        r@ == join_parts(views(parts@).skip(from as int)),
{
    let ghost pv = views(parts@);
    let len = parts.len();
    let mut out: Vec<u8> = slice_to_vec(parts[from].as_slice());
    let mut k: usize = from + 1;
    proof {
        assert(pv.skip(from as int)[0] == pv[from as int]);
        assert(pv.skip(from as int).drop_first() =~= pv.skip(from + 1));
        assert(join_parts(pv.skip(from as int)) == pv[from as int] + join_tail(pv.skip(from + 1)));
    }
    while k < parts.len()
        invariant
            from < k <= parts@.len(),
            pv == views(parts@),
            join_parts(pv.skip(from as int)) == out@ + join_tail(pv.skip(k as int)),
        decreases parts.len() - k,
    {
        let ghost pre = out@;
        out.push('/' as u8);
        let piece = &parts[k];
        let mut t: usize = 0;
        while t < piece.len()
            invariant
                t <= piece.len(),
                piece@ == parts@[k as int]@,
                out@ == pre + seq!['/' as u8] + piece@.take(t as int),
            decreases piece.len() - t,
        {
            out.push(piece[t]);
            proof {
                assert(pre + seq!['/' as u8] + piece@.take(t + 1) =~= (pre + seq!['/' as u8]
                    + piece@.take(t as int)).push(piece@[t as int]));
            }
            t += 1;
        }
        proof {
            assert(piece@.take(piece@.len() as int) =~= piece@);
            assert(pv.skip(k as int)[0] == pv[k as int]);
            assert(pv.skip(k as int).drop_first() =~= pv.skip(k + 1));
            assert(join_tail(pv.skip(k as int)) == seq!['/' as u8] + pv[k as int] + join_tail(
                pv.skip(k + 1),
            ));
            assert(out@ =~= pre + (seq!['/' as u8] + pv[k as int]));
            assert(pre + (seq!['/' as u8] + pv[k as int]) + join_tail(pv.skip(k + 1)) =~= pre
                + join_tail(pv.skip(k as int)));
        }
        k += 1;
    }
    proof {
        assert(join_tail(pv.skip(parts@.len() as int)) =~= Seq::<u8>::empty());
        assert(out@ + join_tail(pv.skip(parts@.len() as int)) =~= out@);
    }
    out
}

/// Matches one compiled pattern against a split path, binding parameters.
fn match_one(route: &Route, parts: &Vec<Vec<u8>>) -> (r: Option<Vec<(Vec<u8>, Vec<u8>)>>)
    ensures
        r is Some == matches_from(route@, views(parts@)),
        match r {
            Some(binds) => pair_views(binds@) == bind_from(route@, views(parts@)),
            None => true,
        },
{
    let ghost segs = route@;
    let ghost pv = views(parts@);
    let n = route.segments.len();
    let mut binds: Vec<(Vec<u8>, Vec<u8>)> = Vec::new();
    let mut i: usize = 0;
    proof {
        assert(segs.skip(0) =~= segs);
        assert(pv.skip(0) =~= pv);
        assert(pair_views(binds@) =~= Seq::<(Seq<u8>, Seq<u8>)>::empty());
    }
    while i < n
        invariant
            i <= n,
            i <= pv.len(),
            n == segs.len(),
            pv == views(parts@),
            segs == route@,
            matches_from(segs, pv) == matches_from(segs.skip(i as int), pv.skip(i as int)),
            matches_from(segs, pv) ==> bind_from(segs, pv) == pair_views(binds@) + bind_from(
                segs.skip(i as int),
                pv.skip(i as int),
            ),
        decreases n - i,
    {
        let ghost srest = segs.skip(i as int);
        let ghost prest = pv.skip(i as int);
        proof {
            assert(srest[0] == segs[i as int]);
            assert(srest.drop_first() =~= segs.skip(i + 1));
            if pv.len() > i {
                assert(prest[0] == pv[i as int]);
                assert(prest.drop_first() =~= pv.skip(i + 1));
            }
        }
        match &route.segments[i] {
            Segment::Static(t) => {
                if i >= parts.len() {
                    return None;
                }
                if !bytes_eq(parts[i].as_slice(), t.as_slice()) {
                    return None;
                }
            },
            Segment::Named(id) => {
                if i >= parts.len() {
                    return None;
                }
                if parts[i].len() == 0 {
                    return None;
                }
                let ghost pre = binds@;
                binds.push((slice_to_vec(id.as_slice()), slice_to_vec(parts[i].as_slice())));
                proof {
                    assert(pair_views(binds@) =~= pair_views(pre).push((id@, pv[i as int])));
                    assert(bind_from(srest, prest) == seq![(id@, pv[i as int])] + bind_from(
                        segs.skip(i + 1),
                        pv.skip(i + 1),
                    ));
                    assert(pair_views(pre).push((id@, pv[i as int])) + bind_from(
                        segs.skip(i + 1),
                        pv.skip(i + 1),
                    ) =~= pair_views(pre) + bind_from(srest, prest));
                }
            },
            Segment::Wildcard(id) => {
                if i + 1 < n {
                    proof {
                        assert(srest.len() >= 2);
                        assert(!matches_from(srest, prest));
                    }
                    return None;
                }
                if i >= parts.len() {
                    return None;
                }
                let joined = join_rest(parts, i);
                let ghost pre = binds@;
                binds.push((slice_to_vec(id.as_slice()), joined));
                proof {
                    assert(srest.len() == 1);
                    assert(matches_from(srest, prest));
                    assert(bind_from(srest, prest) == seq![(id@, join_parts(prest))]);
                    assert(pair_views(binds@) =~= pair_views(pre) + bind_from(srest, prest));
                }
                return Some(binds);
            },
        }
        i += 1;
    }
    if parts.len() == i {
        proof {
            assert(segs.skip(i as int) =~= Seq::<SegmentView>::empty());
            assert(pv.skip(i as int) =~= Seq::<Seq<u8>>::empty());
            assert(matches_from(segs, pv));
            assert(pair_views(binds@) =~= pair_views(binds@) + bind_from(
                segs.skip(i as int),
                pv.skip(i as int),
            ));
        }
        Some(binds)
    } else {
        proof {
            assert(segs.skip(i as int) =~= Seq::<SegmentView>::empty());
            assert(pv.skip(i as int).len() > 0);
        }
        None
    }
}

/// Decides the strictly-more-specific order on two compiled patterns.
fn is_more_specific(a: &Route, b: &Route) -> (r: bool)
    ensures
        r == more_specific(a@, b@),
{
    let mut i: usize = 0;
    proof {
        assert(a@.skip(0) =~= a@);
        assert(b@.skip(0) =~= b@);
    }
    while i < a.segments.len() && i < b.segments.len()
        invariant
            i <= a@.len(),
            i <= b@.len(),
            more_specific(a@, b@) == more_specific(a@.skip(i as int), b@.skip(i as int)),
        decreases a@.len() - i,
    {
        let ra: u8 = match &a.segments[i] {
            Segment::Static(_) => 2,
            Segment::Named(_) => 1,
            Segment::Wildcard(_) => 0,
        };
        let rb: u8 = match &b.segments[i] {
            Segment::Static(_) => 2,
            Segment::Named(_) => 1,
            Segment::Wildcard(_) => 0,
        };
        proof {
            assert(a@.skip(i as int)[0] == a@[i as int]);
            assert(b@.skip(i as int)[0] == b@[i as int]);
            assert(ra as int == rank(a@[i as int]));
            assert(rb as int == rank(b@[i as int]));
            assert(a@.skip(i as int).drop_first() =~= a@.skip(i + 1));
            assert(b@.skip(i as int).drop_first() =~= b@.skip(i + 1));
        }
        if ra > rb {
            return true;
        }
        if ra < rb {
            return false;
        }
        i += 1;
    }
    proof {
        assert(a@.skip(i as int).len() == 0 || b@.skip(i as int).len() == 0);
    }
    false
}

/// Decides structural duplication of two compiled patterns.
fn is_duplicate(a: &Route, b: &Route) -> (r: bool)
    ensures
        r == duplicate(a@, b@),
{
    if a.segments.len() != b.segments.len() {
        return false;
    }
    let mut i: usize = 0;
    while i < a.segments.len()
        invariant
            i <= a@.len(),
            a@.len() == b@.len(),
            forall|j: int| 0 <= j < i ==> compatible(#[trigger] a@[j], #[trigger] b@[j]),
        decreases a@.len() - i,
    {
        let ok = match (&a.segments[i], &b.segments[i]) {
            (Segment::Static(x), Segment::Static(y)) => bytes_eq(x.as_slice(), y.as_slice()),
            (Segment::Named(_), Segment::Named(_)) => true,
            (Segment::Wildcard(_), Segment::Wildcard(_)) => true,
            _ => false,
        };
        if !ok {
            proof {
                assert(!compatible(a@[i as int], b@[i as int]));
            }
            return false;
        }
        proof {
            assert(compatible(a@[i as int], b@[i as int]));
        }
        i += 1;
    }
    true
}

/// Compiled pattern set with deterministic most-specific-match resolution.
///
/// Each registered route carries an opaque attached value handed back on a
/// match.
#[derive(Debug)]
pub struct Matcher<T> {
    /// The registered routes with their attached values.
    pub routes: Vec<(Route, T)>,
}

impl<T> Matcher<T> {
    /// Well-formedness: every route is wildcard-final and no two are
    /// structural duplicates.
    pub open spec fn wf(&self) -> bool {
        &&& forall|i: int| 0 <= i < self.routes@.len() ==> wf_route(#[trigger] self.routes@[i].0@)
        &&& forall|i: int, j: int|
            0 <= i < self.routes@.len() && 0 <= j < self.routes@.len() && i != j ==> !duplicate(
                #[trigger] self.routes@[i].0@,
                #[trigger] self.routes@[j].0@,
            )
    }

    /// An empty matcher.
    pub fn new() -> (r: Matcher<T>)
        ensures
            r.wf(),
            r.routes@.len() == 0,
    {
        Matcher { routes: Vec::new() }
    }

    /// Number of registered routes.
    pub fn len(&self) -> (r: usize)
        ensures
            r == self.routes@.len(),
    {
        self.routes.len()
    }

    /// Registers a pattern with its attached value.
    ///
    /// Fails, leaving the matcher unchanged, when the route carries a
    /// non-final wildcard or structurally duplicates a registered route;
    /// exactly then.
    pub fn add(&mut self, route: Route, value: T) -> (r: Result<(), RouteError>)
        requires
            old(self).wf(),
        ensures
            final(self).wf(),
            match r {
                Ok(()) => wf_route(route@) && (forall|j: int|
                    0 <= j < old(self).routes@.len() ==> !duplicate(
                        route@,
                        #[trigger] old(self).routes@[j].0@,
                    )) && final(self).routes@ == old(self).routes@.push((route, value)),
                Err(e) => final(self).routes@ == old(self).routes@ && {
                    ||| (e == RouteError::NonFinalWildcard && !wf_route(route@))
                    ||| (e == RouteError::Ambiguous && wf_route(route@) && exists|j: int|
                        0 <= j < old(self).routes@.len() && duplicate(
                            route@,
                            #[trigger] old(self).routes@[j].0@,
                        ))
                },
            },
    {
        if !route.wildcard_final() {
            return Err(RouteError::NonFinalWildcard);
        }
        let mut i: usize = 0;
        while i < self.routes.len()
            invariant
                *self == *old(self),
                old(self).wf(),
                wf_route(route@),
                i <= self.routes@.len(),
                forall|j: int| 0 <= j < i ==> !duplicate(route@, #[trigger] self.routes@[j].0@),
            decreases self.routes.len() - i,
        {
            if is_duplicate(&route, &self.routes[i].0) {
                proof {
                    assert(self.wf());
                    assert(0 <= i < old(self).routes@.len());
                    assert(duplicate(route@, old(self).routes@[i as int].0@));
                }
                return Err(RouteError::Ambiguous);
            }
            i += 1;
        }
        let ghost pre = self.routes@;
        let ghost routev = route@;
        self.routes.push((route, value));
        proof {
            assert(self.routes@ =~= pre.push((route, value)));
            let m = self.routes@.len() - 1;
            assert forall|a: int, b: int|
                0 <= a < self.routes@.len() && 0 <= b < self.routes@.len() && a != b implies !duplicate(
                #[trigger] self.routes@[a].0@,
                #[trigger] self.routes@[b].0@,
            ) by {
                if a == m {
                    assert(self.routes@[a].0@ == routev);
                    assert(!duplicate(routev, pre[b].0@));
                } else if b == m {
                    assert(!duplicate(routev, pre[a].0@));
                    if duplicate(self.routes@[a].0@, self.routes@[b].0@) {
                        lemma_duplicate_sym(self.routes@[a].0@, self.routes@[b].0@);
                    }
                }
            }
        }
        Ok(())
    }

    /// Resolves a concrete path to the single most specific matching route:
    /// its attached value plus the bound parameters, or nothing when no
    /// registered route matches.
    pub fn resolve(&self, path: &[u8]) -> (r: Option<(&T, Vec<(Vec<u8>, Vec<u8>)>)>)
        requires
            self.wf(),
        ensures
            match path_parts(path@) {
                None => r is None,
                Some(parts) => match r {
                    None => forall|i: int|
                        0 <= i < self.routes@.len() ==> !matches_from(
                            #[trigger] self.routes@[i].0@,
                            parts,
                        ),
                    Some(m) => exists|i: int|
                        0 <= i < self.routes@.len() && matches_from(
                            #[trigger] self.routes@[i].0@,
                            parts,
                        ) && *m.0 == self.routes@[i].1 && pair_views(m.1@) == bind_from(
                            self.routes@[i].0@,
                            parts,
                        ) && forall|j: int|
                            0 <= j < self.routes@.len() && j != i && matches_from(
                                #[trigger] self.routes@[j].0@,
                                parts,
                            ) ==> more_specific(self.routes@[i].0@, self.routes@[j].0@),
                },
            },
    {
        if path.len() == 0 || path[0] != '/' as u8 {
            return None;
        }
        let n = path.len();
        let parts = split_bytes(slice_subrange(path, 1, n), '/' as u8);
        let ghost pv = views(parts@);
        proof {
            assert(path_parts(path@) == Some(pv));
        }
        let mut best: Option<(usize, Vec<(Vec<u8>, Vec<u8>)>)> = None;
        let mut i: usize = 0;
        while i < self.routes.len()
            invariant
                i <= self.routes@.len(),
                self.wf(),
                pv == views(parts@),
                match best {
                    None => forall|j: int|
                        0 <= j < i ==> !matches_from(#[trigger] self.routes@[j].0@, pv),
                    Some(b) => b.0 < i && matches_from(self.routes@[b.0 as int].0@, pv)
                        && pair_views(b.1@) == bind_from(self.routes@[b.0 as int].0@, pv) && forall|
                        j: int,
                    |
                        0 <= j < i && j != b.0 && matches_from(#[trigger] self.routes@[j].0@, pv)
                            ==> more_specific(self.routes@[b.0 as int].0@, self.routes@[j].0@),
                },
            decreases self.routes.len() - i,
        {
            match match_one(&self.routes[i].0, &parts) {
                Some(params) => {
                    let replace = match &best {
                        None => true,
                        Some(b) => is_more_specific(&self.routes[i].0, &self.routes[b.0].0),
                    };
                    if replace {
                        proof {
                            if let Some(b) = best {
                                let bi = b.0 as int;
                                assert forall|j: int|
                                    0 <= j < i + 1 && j != i && matches_from(
                                        #[trigger] self.routes@[j].0@,
                                        pv,
                                    ) implies more_specific(
                                    self.routes@[i as int].0@,
                                    self.routes@[j].0@,
                                ) by {
                                    if j != bi {
                                        lemma_more_specific_trans(
                                            self.routes@[i as int].0@,
                                            self.routes@[bi].0@,
                                            self.routes@[j].0@,
                                        );
                                    }
                                }
                            }
                        }
                        best = Some((i, params));
                    } else {
                        proof {
                            let b = best->Some_0;
                            let bi = b.0 as int;
                            lemma_comparable(
                                self.routes@[bi].0@,
                                self.routes@[i as int].0@,
                                pv,
                            );
                        }
                    }
                },
                None => {},
            }
            i += 1;
        }
        match best {
            Some(b) => Some((&self.routes[b.0].1, b.1)),
            None => None,
        }
    }
}

} // verus!

