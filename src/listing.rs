use vstd::prelude::*;

use vstd::multiset::Multiset;

use crate::request::views;

verus! {

/// One immediate child of a listed directory, as the filesystem enumerated it.
#[derive(Clone, Debug)]
pub struct Child {
    pub name: String,
    pub is_dir: bool,
}

/// One line of a directory listing.
#[derive(Debug)]
pub struct Entry {
    /// The child's name, with a trailing `/` for a directory.
    pub label: String,
    /// The absolute URL path of the child.
    pub link: String,
    pub is_dir: bool,
}

/// A name made safe to stand as one segment of a URL path: the characters that
/// would end the segment or the path, or start an escape, are escaped.
pub open spec fn url_escaped(s: Seq<char>) -> Seq<char>
    decreases s.len(),
{
    if s.len() == 0 {
        Seq::<char>::empty()
    } else {
        url_escaped(s.drop_last()) + url_escape_char(s.last())
    }
}

pub open spec fn url_escape_char(c: char) -> Seq<char> {
    if c == '%' {
        "%25"@
    } else if c == '#' {
        "%23"@
    } else if c == '?' {
        "%3F"@
    } else if c == ' ' {
        "%20"@
    } else if c == '/' {
        "%2F"@
    } else {
        seq![c]
    }
}

/// Escapes `s` to stand as one segment of a URL path.
pub fn escape_url_segment(s: &str) -> (r: String)
    ensures
        r@ == url_escaped(s@),
{
    let n = s.unicode_len();
    let mut out = String::new();
    let mut i: usize = 0;
    assert(s@.subrange(0, 0) =~= Seq::<char>::empty());
    while i < n
        invariant
            n == s@.len(),
            i <= n,
            out@ == url_escaped(s@.subrange(0, i as int)),
        decreases n - i,
    {
        let ghost cur = s@.subrange(0, i as int + 1);
        assert(cur.drop_last() =~= s@.subrange(0, i as int));
        let c = s.get_char(i);
        if c == '%' {
            out.append("%25");
        } else if c == '#' {
            out.append("%23");
        } else if c == '?' {
            out.append("%3F");
        } else if c == ' ' {
            out.append("%20");
        } else if c == '/' {
            out.append("%2F");
        } else {
            let one = s.substring_char(i, i + 1);
            assert(one@ =~= seq![c]);
            out.append(one);
        }
        i = i + 1;
    }
    assert(s@.subrange(0, n as int) =~= s@);
    out
}

/// The URL path of the directory reached by `segs` below the root, ending in `/`.
pub open spec fn url_prefix(segs: Seq<Seq<char>>) -> Seq<char>
    decreases segs.len(),
{
    if segs.len() == 0 {
        seq!['/']
    } else {
        url_prefix(segs.drop_last()) + url_escaped(segs.last()) + seq!['/']
    }
}

/// The link to a child, relative to nothing: the directory's path, then the child's
/// escaped name, and a `/` after a directory.
pub open spec fn link_of(prefix: Seq<char>, name: Seq<char>, is_dir: bool) -> Seq<char> {
    prefix + label_of(url_escaped(name), is_dir)
}

pub open spec fn label_of(name: Seq<char>, is_dir: bool) -> Seq<char> {
    if is_dir {
        name + seq!['/']
    } else {
        name
    }
}

/// The listing line for `c` inside the directory at `prefix`.
pub open spec fn entry_matches(e: Entry, c: Child, prefix: Seq<char>) -> bool {
    &&& e.label@ == label_of(c.name@, c.is_dir)
    &&& e.link@ == link_of(prefix, c.name@, c.is_dir)
    &&& e.is_dir == c.is_dir
}

/// Builds the URL path of the directory reached by the first `k` names of `dir`.
pub fn url_prefix_upto(dir: &Vec<String>, k: usize) -> (r: String)
    requires
        k <= dir@.len(),
    ensures
        r@ == url_prefix(views(dir@).subrange(0, k as int)),
{
    let mut s = String::from_str("/");
    proof {
        reveal_strlit("/");
    }
    assert(views(dir@).subrange(0, 0) =~= Seq::<Seq<char>>::empty());
    let mut i: usize = 0;
    while i < k
        invariant
            i <= k <= dir@.len(),
            s@ == url_prefix(views(dir@).subrange(0, i as int)),
        decreases k - i,
    {
        let ghost cur = views(dir@).subrange(0, i as int + 1);
        assert(cur.drop_last() =~= views(dir@).subrange(0, i as int));
        let seg = escape_url_segment(dir[i].as_str());
        s.append(seg.as_str());
        s.append("/");
        proof {
            reveal_strlit("/");
        }
        i = i + 1;
    }
    s
}

/// Builds the URL path of the directory reached by `dir` below the root.
pub fn url_prefix_of(dir: &Vec<String>) -> (r: String)
    ensures
        r@ == url_prefix(views(dir@)),
{
    assert(views(dir@).subrange(0, dir@.len() as int) =~= views(dir@));
    url_prefix_upto(dir, dir.len())
}

/// Whether the listing of the directory at `dir` offers a link to its parent:
/// everywhere but at the root.
pub fn shows_parent_link(dir: &Vec<String>) -> (r: bool)
    ensures
        r == (dir@.len() > 0),
{
    dir.len() > 0
}

/// Name order: character by character, a name before every longer name it begins.
pub open spec fn name_le(a: Seq<char>, b: Seq<char>) -> bool
    decreases a.len(),
{
    if a.len() == 0 {
        true
    } else if b.len() == 0 {
        false
    } else if a[0] != b[0] {
        a[0] < b[0]
    } else {
        name_le(a.drop_first(), b.drop_first())
    }
}

proof fn lemma_name_le_total(a: Seq<char>, b: Seq<char>)
    ensures
        name_le(a, b) || name_le(b, a),
    decreases a.len(),
{
    if a.len() > 0 && b.len() > 0 && a[0] == b[0] {
        lemma_name_le_total(a.drop_first(), b.drop_first());
    }
}

proof fn lemma_name_le_trans(a: Seq<char>, b: Seq<char>, c: Seq<char>)
    requires
        name_le(a, b),
        name_le(b, c),
    ensures
        name_le(a, c),
    decreases a.len(),
{
    if a.len() > 0 && b.len() > 0 && c.len() > 0 && a[0] == b[0] && b[0] == c[0] {
        lemma_name_le_trans(a.drop_first(), b.drop_first(), c.drop_first());
    }
}

/// Compares two names in name order.
pub fn name_le_exec(a: &str, b: &str) -> (r: bool)
    ensures
        r == name_le(a@, b@),
{
    let n = a.unicode_len();
    let m = b.unicode_len();
    let mut i: usize = 0;
    assert(a@.subrange(0, n as int) =~= a@);
    assert(b@.subrange(0, m as int) =~= b@);
    while i < n && i < m
        invariant
            n == a@.len(),
            m == b@.len(),
            i <= n,
            i <= m,
            name_le(a@, b@) == name_le(
                a@.subrange(i as int, n as int),
                b@.subrange(i as int, m as int),
            ),
        decreases n - i,
    {
        let x = a.get_char(i);
        let y = b.get_char(i);
        let ghost sa = a@.subrange(i as int, n as int);
        let ghost sb = b@.subrange(i as int, m as int);
        assert(sa[0] == x && sb[0] == y);
        if x != y {
            return x < y;
        }
        assert(sa.drop_first() =~= a@.subrange(i as int + 1, n as int));
        assert(sb.drop_first() =~= b@.subrange(i as int + 1, m as int));
        i = i + 1;
    }
    i == n
}

/// Whether the children stand in name order.
pub open spec fn sorted_by_name(s: Seq<Child>) -> bool {
    forall|x: int, y: int| 0 <= x < y < s.len() ==> name_le(#[trigger] s[x].name@, #[trigger] s[y].name@)
}

/// Puts the children of a directory in name order, keeping each of them exactly once.
pub fn sort_by_name(children: Vec<Child>) -> (r: Vec<Child>)
    ensures
        sorted_by_name(r@),
        r@.to_multiset() == children@.to_multiset(),
{
    broadcast use vstd::seq_lib::group_to_multiset_ensures;
    broadcast use vstd::multiset::group_multiset_axioms, vstd::multiset::lemma_multiset_empty_len;
    let ghost all = children@;
    let mut rest = children;
    let mut out: Vec<Child> = Vec::new();
    assert(out@ =~= Seq::<Child>::empty());
    assert(out@.to_multiset() =~= Multiset::<Child>::empty());
    assert(out@.to_multiset().add(rest@.to_multiset()) =~= all.to_multiset());
    while rest.len() > 0
        invariant
            sorted_by_name(out@),
            out@.to_multiset().add(rest@.to_multiset()) == all.to_multiset(),
        decreases rest@.len(),
    {
        let ghost before_rest = rest@;
        let c = rest.pop().unwrap();
        assert(before_rest =~= rest@.push(c));
        let mut pos: usize = 0;
        while pos < out.len() && name_le_exec(out[pos].name.as_str(), c.name.as_str())
            invariant
                pos <= out@.len(),
                forall|k: int| 0 <= k < pos ==> name_le(#[trigger] out@[k].name@, c.name@),
            decreases out@.len() - pos,
        {
            pos = pos + 1;
        }
        let ghost before = out@;
        proof {
            if pos < before.len() {
                lemma_name_le_total(before[pos as int].name@, c.name@);
            }
        }
        assert forall|k: int| pos <= k < before.len() implies name_le(
            c.name@,
            #[trigger] before[k].name@,
        ) by {
            if k > pos {
                lemma_name_le_trans(c.name@, before[pos as int].name@, before[k].name@);
            }
        }
        out.insert(pos, c);
        assert forall|x: int, y: int| 0 <= x < y < out@.len() implies name_le(
            #[trigger] out@[x].name@,
            #[trigger] out@[y].name@,
        ) by {
            if y < pos {
            } else if y == pos {
            } else if x < pos {
                lemma_name_le_trans(before[x].name@, c.name@, before[y - 1].name@);
            } else if x == pos {
            } else {
                assert(out@[x] == before[x - 1]);
            }
        }
        assert(out@ == before.insert(pos as int, c));
        proof {
            vstd::seq_lib::to_multiset_insert(before, pos as int, c);
        }
        assert(out@.to_multiset() == before.to_multiset().insert(c));
        proof {
            vstd::seq_lib::to_multiset_build(rest@, c);
        }
        assert(before_rest.to_multiset() == rest@.to_multiset().insert(c));
        assert(before.to_multiset().add(before_rest.to_multiset()) == all.to_multiset());
        assert(out@.to_multiset().add(rest@.to_multiset()) =~= all.to_multiset());
    }
    assert(rest@ =~= Seq::<Child>::empty());
    assert(rest@.to_multiset() =~= Multiset::<Child>::empty());
    assert(out@.to_multiset() =~= out@.to_multiset().add(rest@.to_multiset()));
    out
}

/// The listing of the directory reached by `dir` below the root: one entry for each
/// child, in the order given, none left out and none added.
pub fn listing(dir: &Vec<String>, children: &Vec<Child>) -> (r: Vec<Entry>)
    ensures
        r@.len() == children@.len(),
        forall|i: int|
            0 <= i < r@.len() ==> entry_matches(
                #[trigger] r@[i],
                children@[i],
                url_prefix(views(dir@)),
            ),
{
    let prefix = url_prefix_of(dir);
    let mut out: Vec<Entry> = Vec::new();
    let mut i: usize = 0;
    while i < children.len()
        invariant
            i <= children@.len(),
            out@.len() == i,
            prefix@ == url_prefix(views(dir@)),
            forall|j: int| 0 <= j < i ==> entry_matches(#[trigger] out@[j], children@[j], prefix@),
        decreases children@.len() - i,
    {
        let c = &children[i];
        let mut label = c.name.clone();
        if c.is_dir {
            label.append("/");
            proof {
                reveal_strlit("/");
            }
        }
        assert(label@ == label_of(c.name@, c.is_dir));
        let mut link = prefix.clone();
        let tail = escape_url_segment(c.name.as_str());
        link.append(tail.as_str());
        if c.is_dir {
            link.append("/");
            proof {
                reveal_strlit("/");
            }
            assert(link@ =~= prefix@ + (tail@ + seq!['/']));
        } else {
            assert(link@ =~= prefix@ + tail@);
        }
        assert(link@ == link_of(prefix@, c.name@, c.is_dir));
        let ghost before = out@;
        out.push(Entry { label, link, is_dir: c.is_dir });
        assert(entry_matches(out@[i as int], children@[i as int], prefix@));
        assert forall|j: int| 0 <= j < i + 1 implies entry_matches(
            #[trigger] out@[j],
            children@[j],
            prefix@,
        ) by {
            if j < i {
                assert(out@[j] == before[j]);
            }
        }
        i = i + 1;
    }
    out
}

/// A listing shows exactly the children of its directory: once they are put in name
/// order and listed, every child has an entry, every entry stands for a child, and
/// there are as many entries as children.
pub proof fn lemma_listing_shows_children(
    children: Seq<Child>,
    sorted: Seq<Child>,
    entries: Seq<Entry>,
    prefix: Seq<char>,
)
    requires
        sorted.to_multiset() == children.to_multiset(),
        entries.len() == sorted.len(),
        forall|i: int| 0 <= i < entries.len() ==> entry_matches(#[trigger] entries[i], sorted[i], prefix),
    ensures
        entries.len() == children.len(),
        forall|c: Child|
            children.contains(c) ==> exists|i: int|
                0 <= i < entries.len() && #[trigger] entry_matches(entries[i], c, prefix),
        forall|i: int|
            0 <= i < entries.len() ==> children.contains(#[trigger] sorted[i]) && entry_matches(
                entries[i],
                sorted[i],
                prefix,
            ),
{
    broadcast use vstd::seq_lib::group_to_multiset_ensures;

    assert(sorted.to_multiset().len() == sorted.len());
    assert(children.to_multiset().len() == children.len());
    assert forall|c: Child| children.contains(c) implies exists|i: int|
        0 <= i < entries.len() && #[trigger] entry_matches(entries[i], c, prefix) by {
        assert(sorted.to_multiset().count(c) > 0);
        assert(sorted.contains(c));
        let i = choose|i: int| 0 <= i < sorted.len() && sorted[i] == c;
        assert(entry_matches(entries[i], c, prefix));
    }
    assert forall|i: int| 0 <= i < entries.len() implies children.contains(#[trigger] sorted[i]) by {
        assert(sorted.contains(sorted[i]));
        assert(children.to_multiset().count(sorted[i]) > 0);
    }
}

/// A name made safe to place in HTML text or in a quoted attribute.
pub open spec fn escaped(s: Seq<char>) -> Seq<char>
    decreases s.len(),
{
    if s.len() == 0 {
        Seq::<char>::empty()
    } else {
        escaped(s.drop_last()) + escape_char(s.last())
    }
}

pub open spec fn escape_char(c: char) -> Seq<char> {
    if c == '&' {
        "&amp;"@
    } else if c == '<' {
        "&lt;"@
    } else if c == '>' {
        "&gt;"@
    } else if c == '"' {
        "&quot;"@
    } else {
        seq![c]
    }
}

/// Escapes `s` for HTML.
pub fn escape_html(s: &str) -> (r: String)
    ensures
        r@ == escaped(s@),
{
    let n = s.unicode_len();
    let mut out = String::new();
    let mut i: usize = 0;
    assert(s@.subrange(0, 0) =~= Seq::<char>::empty());
    while i < n
        invariant
            n == s@.len(),
            i <= n,
            out@ == escaped(s@.subrange(0, i as int)),
        decreases n - i,
    {
        let ghost cur = s@.subrange(0, i as int + 1);
        assert(cur.drop_last() =~= s@.subrange(0, i as int));
        let c = s.get_char(i);
        if c == '&' {
            out.append("&amp;");
        } else if c == '<' {
            out.append("&lt;");
        } else if c == '>' {
            out.append("&gt;");
        } else if c == '"' {
            out.append("&quot;");
        } else {
            let one = s.substring_char(i, i + 1);
            assert(one@ =~= seq![c]);
            out.append(one);
        }
        i = i + 1;
    }
    assert(s@.subrange(0, n as int) =~= s@);
    out
}

pub open spec fn entry_html(e: Entry) -> Seq<char> {
    "<li><a href=\""@ + escaped(e.link@) + "\">"@ + escaped(e.label@) + "</a></li>"@
}

pub open spec fn entries_html(es: Seq<Entry>) -> Seq<char>
    decreases es.len(),
{
    if es.len() == 0 {
        Seq::<char>::empty()
    } else {
        entries_html(es.drop_last()) + entry_html(es.last())
    }
}

/// The link to the parent of the directory reached by `dir`; none at the root.
pub open spec fn parent_html(dir: Seq<Seq<char>>) -> Seq<char> {
    if dir.len() > 0 {
        "<li><a href=\""@ + escaped(url_prefix(dir.drop_last())) + "\">..</a></li>"@
    } else {
        Seq::<char>::empty()
    }
}

/// The HTML page listing the directory reached by `dir`: a link to its parent where
/// there is one, then one line for each entry, in order.
pub open spec fn page_html(dir: Seq<Seq<char>>, es: Seq<Entry>) -> Seq<char> {
    "<html><head><meta charset=\"utf-8\"></head><body><ul>"@ + parent_html(dir) + entries_html(
        es,
    ) + "</ul></body></html>"@
}

/// Renders the listing of the directory reached by `dir` as HTML.
pub fn render_listing(dir: &Vec<String>, entries: &Vec<Entry>) -> (r: String)
    ensures
        r@ == page_html(views(dir@), entries@),
{
    let mut html = String::from_str("<html><head><meta charset=\"utf-8\"></head><body><ul>");
    let ghost head = html@;
    if shows_parent_link(dir) {
        let up = url_prefix_upto(dir, dir.len() - 1);
        assert(views(dir@).subrange(0, dir@.len() - 1) =~= views(dir@).drop_last());
        let up = escape_html(up.as_str());
        html.append("<li><a href=\"");
        html.append(up.as_str());
        html.append("\">..</a></li>");
        assert(html@ =~= head + parent_html(views(dir@)));
    } else {
        assert(head =~= head + parent_html(views(dir@)));
    }
    let ghost top = html@;
    assert(entries@.subrange(0, 0) =~= Seq::<Entry>::empty());
    assert(top =~= top + entries_html(entries@.subrange(0, 0)));
    let mut i: usize = 0;
    while i < entries.len()
        invariant
            i <= entries@.len(),
            html@ == top + entries_html(entries@.subrange(0, i as int)),
        decreases entries@.len() - i,
    {
        let ghost cur = entries@.subrange(0, i as int + 1);
        assert(cur.drop_last() =~= entries@.subrange(0, i as int));
        let e = &entries[i];
        let link = escape_html(e.link.as_str());
        let label = escape_html(e.label.as_str());
        let ghost before = html@;
        html.append("<li><a href=\"");
        html.append(link.as_str());
        html.append("\">");
        html.append(label.as_str());
        html.append("</a></li>");
        assert(html@ =~= before + entry_html(*e));
        assert(html@ =~= top + entries_html(cur));
        i = i + 1;
    }
    assert(entries@.subrange(0, entries@.len() as int) =~= entries@);
    html.append("</ul></body></html>");
    html
}

} // verus!
