use vstd::prelude::*;

use crate::classify::PathKind;

verus! {

/// The character views of a sequence of strings.
pub open spec fn views(v: Seq<String>) -> Seq<Seq<char>> {
    v.map_values(|x: String| x@)
}

/// The byte views of a sequence of byte strings.
pub open spec fn byte_views(v: Seq<Vec<u8>>) -> Seq<Seq<u8>> {
    v.map_values(|x: Vec<u8>| x@)
}

pub open spec fn is_hex_digit(b: u8) -> bool {
    (48 <= b <= 57) || (65 <= b <= 70) || (97 <= b <= 102)
}

pub open spec fn hex_value(b: u8) -> int {
    if 48 <= b <= 57 {
        b - 48
    } else if 65 <= b <= 70 {
        b - 55
    } else {
        b - 87
    }
}

/// A request path with every `%XY` escape replaced by the byte it stands for;
/// `None` where a `%` is not followed by two hex digits.
pub open spec fn percent_decoded(s: Seq<u8>) -> Option<Seq<u8>>
    decreases s.len(),
{
    if s.len() == 0 {
        Some(Seq::<u8>::empty())
    } else if s[0] == 37 {
        if s.len() >= 3 && is_hex_digit(s[1]) && is_hex_digit(s[2]) {
            match percent_decoded(s.subrange(3, s.len() as int)) {
                Some(t) => Some(seq![(hex_value(s[1]) * 16 + hex_value(s[2])) as u8] + t),
                None => None,
            }
        } else {
            None
        }
    } else {
        match percent_decoded(s.drop_first()) {
            Some(t) => Some(seq![s[0]] + t),
            None => None,
        }
    }
}

/// The value of a hex digit.
pub fn hex_digit_value(b: u8) -> (r: Option<u8>)
    ensures
        is_hex_digit(b) ==> r == Some(hex_value(b) as u8),
        !is_hex_digit(b) ==> r is None,
{
    if 48 <= b && b <= 57 {
        Some(b - 48)
    } else if 65 <= b && b <= 70 {
        Some(b - 55)
    } else if 97 <= b && b <= 102 {
        Some(b - 87)
    } else {
        None
    }
}

/// Decodes the percent escapes of a request path.
pub fn percent_decode(s: &[u8]) -> (r: Option<Vec<u8>>)
    ensures
        match percent_decoded(s@) {
            Some(d) => r is Some && r->0@ == d,
            None => r is None,
        },
{
    let n = s.len();
    let mut out: Vec<u8> = Vec::new();
    let mut i: usize = 0;
    assert(s@.subrange(0, n as int) =~= s@);
    assert(out@ =~= Seq::<u8>::empty());
    while i < n
        invariant
            i <= n,
            n == s@.len(),
            percent_decoded(s@) == match percent_decoded(s@.subrange(i as int, n as int)) {
                Some(t) => Some(out@ + t),
                None => None::<Seq<u8>>,
            },
        decreases n - i,
    {
        let ghost rest = s@.subrange(i as int, n as int);
        let ghost o = out@;
        let b = s[i];
        assert(rest[0] == b);
        if b == 37 {
            if n - i < 3 {
                return None;
            }
            let hi = hex_digit_value(s[i + 1]);
            let lo = hex_digit_value(s[i + 2]);
            assert(rest[1] == s@[i + 1] && rest[2] == s@[i + 2]);
            match (hi, lo) {
                (Some(h), Some(l)) => {
                    let v: u8 = h * 16 + l;
                    assert(rest.subrange(3, rest.len() as int) =~= s@.subrange(i + 3, n as int));
                    out.push(v);
                    proof {
                        if let Some(t) = percent_decoded(s@.subrange(i + 3, n as int)) {
                            assert(out@ + t =~= o + (seq![v] + t));
                        }
                    }
                    i = i + 3;
                },
                _ => {
                    return None;
                },
            }
        } else {
            assert(rest.drop_first() =~= s@.subrange(i + 1, n as int));
            out.push(b);
            proof {
                if let Some(t) = percent_decoded(s@.subrange(i + 1, n as int)) {
                    assert(out@ + t =~= o + (seq![b] + t));
                }
            }
            i = i + 1;
        }
    }
    assert(s@.subrange(n as int, n as int) =~= Seq::<u8>::empty());
    assert(out@ + Seq::<u8>::empty() =~= out@);
    Some(out)
}

/// The pieces of a path between its `/` separators, empty pieces included.
pub open spec fn segments_of(s: Seq<u8>) -> Seq<Seq<u8>>
    decreases s.len(),
{
    if s.len() == 0 {
        seq![Seq::<u8>::empty()]
    } else {
        let rest = segments_of(s.drop_last());
        if s.last() == 47 {
            rest.push(Seq::<u8>::empty())
        } else {
            rest.update(rest.len() - 1, rest.last().push(s.last()))
        }
    }
}

/// How one path segment moves the walk down from the root.
#[derive(Clone, Copy, Debug, PartialEq, Eq, Structural)]
pub enum SegmentKind {
    /// `..`: back up one level.
    Parent,
    /// An empty segment or `.`: stay where the walk is.
    Stay,
    /// A name: go down into it.
    Name,
}

pub open spec fn kind_of(g: Seq<u8>) -> SegmentKind {
    if g == seq![46u8, 46u8] {
        SegmentKind::Parent
    } else if g.len() == 0 || g == seq![46u8] {
        SegmentKind::Stay
    } else {
        SegmentKind::Name
    }
}

/// Where a walk over the segments ends, as the names below the root;
/// `None` once a `..` would climb above the root.
pub open spec fn walk(segs: Seq<Seq<u8>>) -> Option<Seq<Seq<u8>>>
    decreases segs.len(),
{
    if segs.len() == 0 {
        Some(Seq::<Seq<u8>>::empty())
    } else {
        match walk(segs.drop_last()) {
            None => None,
            Some(st) => match kind_of(segs.last()) {
                SegmentKind::Parent => if st.len() == 0 {
                    None
                } else {
                    Some(st.drop_last())
                },
                SegmentKind::Stay => Some(st),
                SegmentKind::Name => Some(st.push(segs.last())),
            },
        }
    }
}

/// Why a request path names nothing below the root.
#[derive(Clone, Copy, Debug, PartialEq, Eq, Structural)]
pub enum PathError {
    /// A `%` is not followed by two hex digits.
    BadEscape,
    /// A `..` climbs above the root.
    Outside,
}

/// Where a request path lands below the root once its escapes are decoded.
pub open spec fn resolution(p: Seq<u8>) -> Result<Seq<Seq<u8>>, PathError> {
    match percent_decoded(p) {
        None => Err(PathError::BadEscape),
        Some(d) => match walk(segments_of(d)) {
            Some(st) => Ok(st),
            None => Err(PathError::Outside),
        },
    }
}

/// Splits a path at every `/`.
pub fn split_segments(p: &[u8]) -> (r: Vec<Vec<u8>>)
    ensures
        byte_views(r@) == segments_of(p@),
{
    let n = p.len();
    let mut out: Vec<Vec<u8>> = Vec::new();
    let mut cur: Vec<u8> = Vec::new();
    let mut i: usize = 0;
    assert(p@.subrange(0, 0) =~= Seq::<u8>::empty());
    assert(byte_views(out@).push(cur@) =~= seq![Seq::<u8>::empty()]);
    while i < n
        invariant
            n == p@.len(),
            i <= n,
            segments_of(p@.subrange(0, i as int)) == byte_views(out@).push(cur@),
        decreases n - i,
    {
        let ghost pre = p@.subrange(0, i as int);
        let ghost whole = p@.subrange(0, i as int + 1);
        let ghost before = byte_views(out@);
        let ghost c0 = cur@;
        assert(whole.drop_last() =~= pre);
        let b = p[i];
        assert(whole.last() == b);
        if b == 47 {
            let done = cur;
            out.push(done);
            cur = Vec::new();
            assert(byte_views(out@) =~= before.push(c0));
            assert(segments_of(whole) =~= byte_views(out@).push(cur@));
        } else {
            cur.push(b);
            assert(segments_of(whole) =~= before.push(cur@));
        }
        i = i + 1;
    }
    let ghost before = byte_views(out@);
    let ghost c0 = cur@;
    out.push(cur);
    assert(byte_views(out@) =~= before.push(c0));
    assert(p@.subrange(0, n as int) =~= p@);
    out
}

/// Tells what kind of segment `g` is.
pub fn segment_kind(g: &[u8]) -> (k: SegmentKind)
    ensures
        k == kind_of(g@),
{
    let n = g.len();
    if n == 0 {
        SegmentKind::Stay
    } else if n == 1 && g[0] == 46 {
        assert(g@ =~= seq![46u8]);
        SegmentKind::Stay
    } else if n == 2 && g[0] == 46 && g[1] == 46 {
        assert(g@ =~= seq![46u8, 46u8]);
        SegmentKind::Parent
    } else {
        assert(n == 1 ==> g@ != seq![46u8]) by {
            if n == 1 && g@ == seq![46u8] {
                assert(g@[0] == 46);
            }
        }
        assert(n == 2 ==> g@ != seq![46u8, 46u8]) by {
            if n == 2 && g@ == seq![46u8, 46u8] {
                assert(g@[0] == 46 && g@[1] == 46);
            }
        }
        SegmentKind::Name
    }
}

/// Walks the segments from the root; `None` where a `..` climbs above it.
pub fn walk_segments(segs: Vec<Vec<u8>>) -> (r: Option<Vec<Vec<u8>>>)
    ensures
        match walk(byte_views(segs@)) {
            Some(st) => r is Some && byte_views(r->0@) == st,
            None => r is None,
        },
{
    let ghost all = byte_views(segs@);
    let mut rest = segs;
    assert(forall|j: int| 0 <= j < rest@.len() ==> (#[trigger] rest@[j])@ == all[j]);
    let mut out: Vec<Vec<u8>> = Vec::new();
    let ghost mut i: int = 0;
    assert(all.subrange(0, 0) =~= Seq::<Seq<u8>>::empty());
    assert(byte_views(out@) =~= Seq::<Seq<u8>>::empty());
    while rest.len() > 0
        invariant
            0 <= i <= all.len(),
            all == byte_views(segs@),
            rest@.len() == all.len() - i,
            forall|j: int| 0 <= j < rest@.len() ==> (#[trigger] rest@[j])@ == all[i + j],
            walk(all.subrange(0, i)) == Some(byte_views(out@)),
        decreases rest@.len(),
    {
        let ghost cur = all.subrange(0, i + 1);
        let ghost before = byte_views(out@);
        assert(cur.drop_last() =~= all.subrange(0, i));
        let g = rest.remove(0);
        assert(g@ == all[i]);
        assert(cur.last() == g@);
        let k = segment_kind(g.as_slice());
        match k {
            SegmentKind::Parent => {
                if out.len() == 0 {
                    assert(kind_of(cur.last()) == SegmentKind::Parent);
                    assert(byte_views(out@).len() == 0);
                    assert(walk(cur) is None);
                    proof {
                        lemma_walk_stays_failed(all, cur);
                    }
                    return None;
                }
                out.pop();
                assert(byte_views(out@) =~= before.drop_last());
            },
            SegmentKind::Stay => {},
            SegmentKind::Name => {
                out.push(g);
                assert(byte_views(out@) =~= before.push(cur.last()));
            },
        }
        proof {
            i = i + 1;
        }
    }
    assert(all.subrange(0, all.len() as int) =~= all);
    Some(out)
}

/// Once a walk has climbed above the root, no further segment brings it back.
proof fn lemma_walk_stays_failed(segs: Seq<Seq<u8>>, p: Seq<Seq<u8>>)
    requires
        p.len() <= segs.len(),
        p =~= segs.subrange(0, p.len() as int),
        walk(p) is None,
    ensures
        walk(segs) is None,
    decreases segs.len() - p.len(),
{
    if segs.len() > p.len() {
        let q = segs.subrange(0, p.len() as int + 1);
        assert(q.drop_last() =~= p);
        lemma_walk_stays_failed(segs, q);
    } else {
        assert(segs =~= p);
    }
}

/// Resolves a request path, escapes decoded, to the names below the root that it
/// leads to.
pub fn resolve(path: &[u8]) -> (r: Result<Vec<Vec<u8>>, PathError>)
    ensures
        match resolution(path@) {
            Ok(st) => r is Ok && byte_views(r->Ok_0@) == st,
            Err(e) => r == Err::<Vec<Vec<u8>>, PathError>(e),
        },
{
    match percent_decode(path) {
        None => Err(PathError::BadEscape),
        Some(d) => {
            let segs = split_segments(d.as_slice());
            match walk_segments(segs) {
                Some(st) => Ok(st),
                None => Err(PathError::Outside),
            }
        },
    }
}

/// What the router does with one request before touching the filesystem.
#[derive(Debug)]
pub enum Dispatch {
    /// Serve the configured file itself.
    ServeRoot,
    /// No route answers this path; the framework's default applies.
    Unrouted,
    /// The path holds a malformed escape.
    BadRequest,
    /// The path leaves the root.
    Forbidden,
    /// Look up these names below the root directory.
    Lookup(Vec<Vec<u8>>),
}

/// The contract of routing the raw request path `path` under a root of kind `kind` to `r`.
pub open spec fn routes_to(kind: PathKind, path: Seq<u8>, r: Dispatch) -> bool {
    &&& kind == PathKind::SingleFile && path == seq![47u8] ==> r is ServeRoot
    &&& kind == PathKind::SingleFile && path != seq![47u8] ==> r is Unrouted
    &&& kind == PathKind::Directory ==> match resolution(path) {
        Ok(st) => r is Lookup && byte_views(r->Lookup_0@) == st,
        Err(PathError::BadEscape) => r is BadRequest,
        Err(PathError::Outside) => r is Forbidden,
    }
}

/// Whether two routing decisions are the same, down to the names looked up.
pub open spec fn same_dispatch(a: Dispatch, b: Dispatch) -> bool {
    match a {
        Dispatch::ServeRoot => b is ServeRoot,
        Dispatch::Unrouted => b is Unrouted,
        Dispatch::BadRequest => b is BadRequest,
        Dispatch::Forbidden => b is Forbidden,
        Dispatch::Lookup(x) => b is Lookup && byte_views(b->Lookup_0@) == byte_views(x@),
    }
}

/// Routing repeats: the same request path under the same root is routed the same
/// way every time, so with the filesystem unchanged the response is the same.
pub proof fn lemma_dispatch_repeatable(kind: PathKind, path: Seq<u8>, a: Dispatch, b: Dispatch)
    requires
        routes_to(kind, path, a),
        routes_to(kind, path, b),
    ensures
        same_dispatch(a, b),
{
}

/// Routes a raw request path by the kind of the root. A file root answers the root
/// URL alone; a directory root answers every path that, escapes decoded, stays inside it.
pub fn dispatch(kind: PathKind, path: &[u8]) -> (r: Dispatch)
    ensures
        routes_to(kind, path@, r),
{
    match kind {
        PathKind::SingleFile => {
            if path.len() == 1 && path[0] == 47 {
                assert(path@ =~= seq![47u8]);
                Dispatch::ServeRoot
            } else {
                assert(path@ != seq![47u8]) by {
                    if path@ == seq![47u8] {
                        assert(path@[0] == 47);
                    }
                }
                Dispatch::Unrouted
            }
        },
        PathKind::Directory => match resolve(path) {
            Ok(st) => Dispatch::Lookup(st),
            Err(PathError::BadEscape) => Dispatch::BadRequest,
            Err(PathError::Outside) => Dispatch::Forbidden,
        },
    }
}

/// A request never resolves outside the root, whatever its escapes: where it resolves
/// at all, the decoded path is a path of plain names below the root, with no `..`, `.`
/// or empty segment in it.
pub proof fn lemma_resolution_stays_inside(p: Seq<u8>)
    ensures
        resolution(p) matches Ok(st) ==> forall|j: int|
            0 <= j < st.len() ==> kind_of(#[trigger] st[j]) == SegmentKind::Name,
{
    if let Some(d) = percent_decoded(p) {
        lemma_walk_names(segments_of(d));
    }
}

proof fn lemma_walk_names(segs: Seq<Seq<u8>>)
    ensures
        walk(segs) matches Some(st) ==> forall|j: int|
            0 <= j < st.len() ==> kind_of(#[trigger] st[j]) == SegmentKind::Name,
    decreases segs.len(),
{
    if segs.len() > 0 {
        lemma_walk_names(segs.drop_last());
        if let Some(st) = walk(segs.drop_last()) {
            if let Some(st2) = walk(segs) {
                assert forall|j: int| 0 <= j < st2.len() implies kind_of(#[trigger] st2[j])
                    == SegmentKind::Name by {
                    if kind_of(segs.last()) == SegmentKind::Name && j == st.len() {
                    } else {
                        assert(st2[j] == st[j]);
                    }
                }
            }
        }
    }
}

/// Whether the names of `target` begin with all the names of `root`.
pub open spec fn within(root: Seq<Seq<char>>, target: Seq<Seq<char>>) -> bool {
    root.len() <= target.len() && forall|j: int| 0 <= j < root.len() ==> root[j] == target[j]
}

/// Whether the canonical path `target` lies in the subtree of the canonical path `root`,
/// both given as their components. Compares whole components, never characters, so
/// `/srv/data2` is not inside `/srv/data`.
pub fn is_within(root: &Vec<String>, target: &Vec<String>) -> (r: bool)
    ensures
        r == within(views(root@), views(target@)),
{
    if root.len() > target.len() {
        return false;
    }
    let mut i: usize = 0;
    while i < root.len()
        invariant
            i <= root@.len() <= target@.len(),
            forall|j: int| 0 <= j < i ==> views(root@)[j] == views(target@)[j],
        decreases root@.len() - i,
    {
        if root[i] != target[i] {
            assert(views(root@)[i as int] != views(target@)[i as int]);
            return false;
        }
        i = i + 1;
    }
    true
}

} // verus!
