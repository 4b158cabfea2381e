use vstd::prelude::*;

verus! {

/// How a request ends.
#[derive(Clone, Copy, Debug, PartialEq, Eq, Structural)]
pub enum Outcome {
    /// A file's bytes are sent.
    File,
    /// A directory listing is sent.
    Listing,
    /// Nothing exists at the requested place.
    NotFound,
    /// The request reaches outside the root.
    Forbidden,
    /// The request path holds a malformed escape.
    BadRequest,
    /// No route answers the path; the framework's default applies.
    Unrouted,
}

/// How a directory root answers a lookup, from what the filesystem reported:
/// whether the place exists, whether its canonical path lies inside the root,
/// and whether it is a directory.
pub fn lookup_outcome(exists: bool, inside: bool, is_dir: bool) -> (r: Outcome)
    ensures
        !exists ==> r == Outcome::NotFound,
        exists && !inside ==> r == Outcome::Forbidden,
        exists && inside && is_dir ==> r == Outcome::Listing,
        exists && inside && !is_dir ==> r == Outcome::File,
{
    if !exists {
        Outcome::NotFound
    } else if !inside {
        Outcome::Forbidden
    } else if is_dir {
        Outcome::Listing
    } else {
        Outcome::File
    }
}

pub open spec fn status_spec(o: Outcome) -> u16 {
    match o {
        Outcome::File => 200,
        Outcome::Listing => 200,
        Outcome::NotFound => 404,
        Outcome::Forbidden => 403,
        Outcome::BadRequest => 400,
        Outcome::Unrouted => 404,
    }
}

/// The HTTP status code of an outcome.
pub fn status_of(o: Outcome) -> (r: u16)
    ensures
        r == status_spec(o),
{
    match o {
        Outcome::File => 200,
        Outcome::Listing => 200,
        Outcome::NotFound => 404,
        Outcome::Forbidden => 403,
        Outcome::BadRequest => 400,
        Outcome::Unrouted => 404,
    }
}

/// One response header.
#[derive(Debug)]
pub struct Header {
    pub name: String,
    pub value: String,
}

/// The authentication challenge that every response carries. It is only advertised:
/// no credentials are ever checked.
pub open spec fn is_challenge(h: Header) -> bool {
    h.name@ == "WWW-Authenticate"@ && h.value@ == "Basic realm=\"lol\""@
}

/// Builds the challenge header.
pub fn challenge() -> (h: Header)
    ensures
        is_challenge(h),
{
    Header {
        name: String::from_str("WWW-Authenticate"),
        value: String::from_str("Basic realm=\"lol\""),
    }
}

/// Whether `c` is the letter `l`, or its upper-case form.
pub open spec fn same_ascii_letter(c: char, l: char) -> bool {
    c == l || ('A' <= c && c <= 'Z' && c as int + 32 == l as int)
}

/// Whether `n` names the challenge header, ASCII case ignored.
pub open spec fn names_challenge(n: Seq<char>) -> bool {
    &&& n.len() == "www-authenticate"@.len()
    &&& forall|i: int| 0 <= i < n.len() ==> same_ascii_letter(n[i], #[trigger] "www-authenticate"@[i])
}

/// The headers other than challenges, in their order.
pub open spec fn without_challenge(s: Seq<Header>) -> Seq<Header>
    decreases s.len(),
{
    if s.len() == 0 {
        s
    } else {
        let kept = without_challenge(s.drop_last());
        if names_challenge(s.last().name@) {
            kept
        } else {
            kept.push(s.last())
        }
    }
}

/// Tells whether a header name names the challenge, ASCII case ignored.
pub fn is_challenge_name(n: &str) -> (r: bool)
    ensures
        r == names_challenge(n@),
{
    let pat = "www-authenticate";
    let len = pat.unicode_len();
    if n.unicode_len() != len {
        return false;
    }
    let mut i: usize = 0;
    while i < len
        invariant
            len == pat@.len(),
            len == n@.len(),
            pat@ == "www-authenticate"@,
            i <= len,
            forall|j: int| 0 <= j < i ==> same_ascii_letter(n@[j], #[trigger] "www-authenticate"@[j]),
        decreases len - i,
    {
        let c = n.get_char(i);
        let l = pat.get_char(i);
        if !(c == l || ('A' <= c && c <= 'Z' && c as u32 + 32 == l as u32)) {
            assert(!same_ascii_letter(n@[i as int], "www-authenticate"@[i as int]));
            return false;
        }
        i = i + 1;
    }
    true
}

proof fn lemma_without_challenge_clean(s: Seq<Header>)
    ensures
        forall|i: int|
            0 <= i < without_challenge(s).len() ==> !names_challenge(
                #[trigger] without_challenge(s)[i].name@,
            ),
    decreases s.len(),
{
    if s.len() > 0 {
        lemma_without_challenge_clean(s.drop_last());
        let kept = without_challenge(s.drop_last());
        assert forall|i: int| 0 <= i < without_challenge(s).len() implies !names_challenge(
            #[trigger] without_challenge(s)[i].name@,
        ) by {
            if i < kept.len() {
                assert(without_challenge(s)[i] == kept[i]);
            }
        }
    }
}

proof fn lemma_without_challenge_of_clean(t: Seq<Header>)
    requires
        forall|i: int| 0 <= i < t.len() ==> !names_challenge(#[trigger] t[i].name@),
    ensures
        without_challenge(t) == t,
    decreases t.len(),
{
    if t.len() > 0 {
        lemma_without_challenge_of_clean(t.drop_last());
        assert(t.drop_last().push(t.last()) =~= t);
    } else {
        assert(t =~= Seq::<Header>::empty());
    }
}

/// The challenge header's own name names the challenge.
proof fn lemma_challenge_named(h: Header)
    requires
        is_challenge(h),
    ensures
        names_challenge(h.name@),
{
    reveal_strlit("WWW-Authenticate");
    reveal_strlit("www-authenticate");
    assert(names_challenge(h.name@));
}

/// Sets the challenge on a response's headers: any earlier header of that name,
/// in any ASCII case, is dropped, the other headers keep their order, and the
/// challenge comes last, as the only header of its name.
pub fn add_challenge(headers: &mut Vec<Header>)
    ensures
        final(headers)@.len() >= 1,
        final(headers)@.drop_last() == without_challenge(old(headers)@),
        is_challenge(final(headers)@.last()),
        forall|i: int|
            0 <= i < final(headers)@.len() - 1 ==> !names_challenge(
                #[trigger] final(headers)@[i].name@,
            ),
{
    let mut rest: Vec<Header> = Vec::new();
    std::mem::swap(headers, &mut rest);
    let ghost orig = rest@;
    let ghost mut k: int = 0;
    assert(orig.subrange(0, 0) =~= Seq::<Header>::empty());
    assert(rest@ =~= orig.subrange(0, orig.len() as int));
    while rest.len() > 0
        invariant
            0 <= k <= orig.len(),
            rest@ =~= orig.subrange(k, orig.len() as int),
            headers@ == without_challenge(orig.subrange(0, k)),
        decreases rest@.len(),
    {
        let h = rest.remove(0);
        let ghost cur = orig.subrange(0, k + 1);
        assert(cur.drop_last() =~= orig.subrange(0, k));
        assert(cur.last() == h);
        if !is_challenge_name(h.name.as_str()) {
            headers.push(h);
        }
        proof {
            k = k + 1;
        }
    }
    assert(orig.subrange(0, k) =~= orig);
    proof {
        lemma_without_challenge_clean(orig);
    }
    let ghost kept = headers@;
    let c = challenge();
    proof {
        lemma_challenge_named(c);
    }
    headers.push(c);
    assert(headers@.drop_last() =~= kept);
}

/// Setting the challenge twice leaves the headers as setting it once: the second
/// call drops the first challenge and keeps the rest as they were.
pub proof fn lemma_challenge_set_once(s: Seq<Header>, c: Header)
    requires
        is_challenge(c),
    ensures
        without_challenge(without_challenge(s).push(c)) == without_challenge(s),
{
    lemma_challenge_named(c);
    lemma_without_challenge_clean(s);
    lemma_without_challenge_of_clean(without_challenge(s));
    assert(without_challenge(s).push(c).drop_last() =~= without_challenge(s));
}

/// The status line and headers of a response.
#[derive(Debug)]
pub struct Reply {
    pub status: u16,
    pub headers: Vec<Header>,
}

/// The status and headers sent for an outcome: its status, and the challenge,
/// whatever the outcome.
pub fn reply_for(o: Outcome) -> (r: Reply)
    ensures
        r.status == status_spec(o),
        r.headers@.len() == 1,
        is_challenge(r.headers@[0]),
{
    let mut headers: Vec<Header> = Vec::new();
    add_challenge(&mut headers);
    assert(headers@.drop_last() =~= Seq::<Header>::empty());
    Reply { status: status_of(o), headers }
}

} // verus!
