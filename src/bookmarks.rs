//! What is indexed: bookmarks read from a bookmark service's XML answer,
//! and the plain text of a bookmarked page, its paragraphs joined.
use vstd::prelude::*;
use crate::analyzer::{chars_of, string_of};

verus! {

/// A node of an XML document as the bookmark reader sees it: the local name
/// of an element (empty for other nodes) and its `href` and `description`
/// attributes.
pub struct XmlNode {
    pub name: String,
    pub href: Option<String>,
    pub description: Option<String>,
}

/// The model of an optional string.
pub open spec fn opt_view(o: Option<String>) -> Option<Seq<char>> {
    match o {
        Some(s) => Some(s@),
        None => None,
    }
}

impl View for XmlNode {
    type V = (Seq<char>, Option<Seq<char>>, Option<Seq<char>>);

    open spec fn view(&self) -> (Seq<char>, Option<Seq<char>>, Option<Seq<char>>) {
        (self.name@, opt_view(self.href), opt_view(self.description))
    }
}

/// The models of a sequence of nodes.
pub open spec fn node_models(v: Seq<XmlNode>) -> Seq<(Seq<char>, Option<Seq<char>>, Option<Seq<char>>)> {
    v.map_values(|n: XmlNode| n@)
}

/// The nodes that roxmltree finds in a text, in document order; none where
/// the text is not well-formed XML.
pub uninterp spec fn xml_nodes_of(text: Seq<char>) -> Option<Seq<(Seq<char>, Option<Seq<char>>, Option<Seq<char>>)>>;

/// Relies on `roxmltree::Document::parse` and `Document::descendants`: every
/// node of a well-formed document in document order, with its tag's local
/// name and two attribute values; `None` where parsing fails.
#[verifier::external_body]
fn xml_nodes(text: &str) -> (r: Option<Vec<XmlNode>>)
    ensures
        match r {
            Some(v) => xml_nodes_of(text@) == Some(node_models(v@)),
            None => xml_nodes_of(text@) is None,
        },
{
    let doc = roxmltree::Document::parse(text).ok()?;
    Some(doc.descendants().map(|n| XmlNode {
        name: n.tag_name().name().to_string(),
        href: n.attribute("href").map(|s| s.to_string()),
        description: n.attribute("description").map(|s| s.to_string()),
    }).collect())
}

/// A bookmark: the link and its title.
pub struct Post {
    pub link: String,
    pub title: String,
}

/// Why a bookmark answer could not be read.
#[derive(Debug, PartialEq, Eq, Structural, Clone, Copy)]
pub enum BookmarkError {
    /// The answer is not well-formed XML.
    NotXml,
    /// A `post` element lacks its `href` or `description`.
    MissingAttribute,
}

/// The bookmarks among the nodes: every `post` element, in order, as
/// (link, title); none where one lacks an attribute.
pub open spec fn posts_spec(nodes: Seq<(Seq<char>, Option<Seq<char>>, Option<Seq<char>>)>) -> Option<Seq<(Seq<char>, Seq<char>)>>
    decreases nodes.len(),
{
    if nodes.len() == 0 {
        Some(seq![])
    } else {
        match posts_spec(nodes.drop_last()) {
            None => None,
            Some(p) => {
                let n = nodes.last();
                if n.0 != seq!['p', 'o', 's', 't'] {
                    Some(p)
                } else {
                    match (n.1, n.2) {
                        (Some(l), Some(t)) => Some(p.push((l, t))),
                        _ => None,
                    }
                }
            },
        }
    }
}

/// The models of a sequence of bookmarks.
pub open spec fn post_models(v: Seq<Post>) -> Seq<(Seq<char>, Seq<char>)> {
    v.map_values(|p: Post| (p.link@, p.title@))
}

fn is_post(name: &String) -> (r: bool)
    ensures
        r == (name@ == seq!['p', 'o', 's', 't']),
{
    let cs = chars_of(name.as_str());
    if cs.len() == 4 && cs[0] == 'p' && cs[1] == 'o' && cs[2] == 's' && cs[3] == 't' {
        assert(cs@ =~= seq!['p', 'o', 's', 't']);
        true
    } else {
        proof {
            if cs@ == seq!['p', 'o', 's', 't'] {
                assert(cs@.len() == 4);
            }
        }
        false
    }
}

proof fn lemma_posts_fail_on(nodes: Seq<(Seq<char>, Option<Seq<char>>, Option<Seq<char>>)>, n: int, m: int)
    requires
        0 <= n <= m <= nodes.len(),
        posts_spec(nodes.take(n)) is None,
    ensures
        posts_spec(nodes.take(m)) is None,
    decreases m - n,
{
    if n < m {
        assert(nodes.take(n + 1).drop_last() =~= nodes.take(n));
        lemma_posts_fail_on(nodes, n + 1, m);
    }
}

/// The bookmarks among the nodes.
pub fn posts_from_nodes(nodes: &Vec<XmlNode>) -> (r: Result<Vec<Post>, BookmarkError>)
    ensures
        match r {
            Ok(v) => posts_spec(node_models(nodes@)) == Some(post_models(v@)),
            Err(e) => e == BookmarkError::MissingAttribute && posts_spec(node_models(nodes@)) is None,
        },
{
    let ghost ns = node_models(nodes@);
    let mut out: Vec<Post> = Vec::new();
    let mut i: usize = 0;
    while i < nodes.len()
        invariant
            i <= nodes.len(),
            ns == node_models(nodes@),
            posts_spec(ns.take(i as int)) == Some(post_models(out@)),
        decreases nodes.len() - i,
    {
        let n = &nodes[i];
        assert(ns.take(i + 1).drop_last() =~= ns.take(i as int));
        assert(ns.take(i + 1).last() == n@);
        if is_post(&n.name) {
            match (&n.href, &n.description) {
                (Some(l), Some(t)) => {
                    let ghost prev = post_models(out@);
                    out.push(Post { link: l.clone(), title: t.clone() });
                    assert(post_models(out@) =~= prev.push((l@, t@)));
                },
                _ => {
                    proof {
                        lemma_posts_fail_on(ns, i + 1, ns.len() as int);
                        assert(ns.take(ns.len() as int) =~= ns);
                    }
                    return Err(BookmarkError::MissingAttribute);
                },
            }
        }
        i = i + 1;
    }
    assert(ns.take(ns.len() as int) =~= ns);
    Ok(out)
}

/// Reads the bookmarks of a bookmark service's XML answer: every `post`
/// element's `href` and `description`, in order.
pub fn parse_posts(text: &str) -> (r: Result<Vec<Post>, BookmarkError>)
    ensures
        xml_nodes_of(text@) is None ==> r == Err::<Vec<Post>, BookmarkError>(BookmarkError::NotXml),
        xml_nodes_of(text@) matches Some(ns) ==> match r {
            Ok(v) => posts_spec(ns) == Some(post_models(v@)),
            Err(e) => e == BookmarkError::MissingAttribute && posts_spec(ns) is None,
        },
{
    match xml_nodes(text) {
        None => Err(BookmarkError::NotXml),
        Some(nodes) => posts_from_nodes(&nodes),
    }
}

/// The text pieces of each `<p>` element that scraper finds in a page, in
/// the order its `select` yields them.
pub uninterp spec fn paragraphs_of(html: Seq<char>) -> Seq<Seq<Seq<char>>>;

/// Relies on `scraper::Html::parse_document`, `Selector::parse("p")`,
/// `Html::select` and `ElementRef::text`: the text nodes of every paragraph
/// element, in the order `select` yields them. Parsing HTML never fails, and `p` is a valid
/// selector.
#[verifier::external_body]
fn paragraphs(html: &str) -> (r: Vec<Vec<String>>)
    ensures
        Seq::new(r@.len(), |i: int| Seq::new(r@[i]@.len(), |j: int| r@[i]@[j]@)) == paragraphs_of(html@),
{
    let document = scraper::Html::parse_document(html);
    let selector = scraper::Selector::parse("p").unwrap();
    document.select(&selector).map(|p| p.text().map(|t| t.to_string()).collect()).collect()
}

/// The pieces joined, with `sep` between each two.
pub open spec fn joined(pieces: Seq<Seq<char>>, sep: char) -> Seq<char>
    decreases pieces.len(),
{
    if pieces.len() == 0 {
        seq![]
    } else if pieces.len() == 1 {
        pieces[0]
    } else {
        joined(pieces.drop_last(), sep).push(sep) + pieces.last()
    }
}

/// A page's text: each paragraph's pieces joined by a space, the
/// paragraphs joined by a newline.
pub open spec fn page_text_spec(ps: Seq<Seq<Seq<char>>>) -> Seq<char> {
    joined(Seq::new(ps.len(), |i: int| joined(ps[i], ' ')), '\n')
}

fn join_into(out: &mut Vec<char>, pieces: &Vec<Vec<char>>, sep: char)
    ensures
        final(out)@ == old(out)@ + joined(pieces.deep_view(), sep),
{
    let ghost start = out@;
    let ghost pv = pieces.deep_view();
    let mut i: usize = 0;
    while i < pieces.len()
        invariant
            i <= pieces.len(),
            pv == pieces.deep_view(),
            out@ == start + joined(pv.take(i as int), sep),
        decreases pieces.len() - i,
    {
        let ghost before = out@;
        if i > 0 {
            out.push(sep);
        }
        let p = &pieces[i];
        let mut j: usize = 0;
        let ghost mid = out@;
        while j < p.len()
            invariant
                j <= p.len(),
                out@ == mid + p@.take(j as int),
            decreases p.len() - j,
        {
            out.push(p[j]);
            j = j + 1;
            assert(out@ =~= mid + p@.take(j as int));
        }
        assert(p@.take(p.len() as int) =~= p@);
        assert(pv[i as int] == p@);
        assert(pv.take(i + 1).drop_last() =~= pv.take(i as int));
        if i == 0 {
            assert(pv.take(1) =~= seq![p@]);
            assert(out@ =~= start + joined(pv.take(1), sep));
        } else {
            assert(out@ =~= start + joined(pv.take(i + 1), sep));
        }
        i = i + 1;
    }
    assert(pv.take(pieces.len() as int) =~= pv);
}

/// The text of a page's paragraphs, as plain values.
pub fn join_paragraphs(ps: &Vec<Vec<String>>) -> (r: String)
    ensures
        r@ == page_text_spec(Seq::new(ps@.len(), |i: int| Seq::new(ps@[i]@.len(), |j: int| ps@[i]@[j]@))),
{
    let ghost psv = Seq::new(ps@.len(), |i: int| Seq::new(ps@[i]@.len(), |j: int| ps@[i]@[j]@));
    let mut lines: Vec<Vec<char>> = Vec::new();
    let mut i: usize = 0;
    while i < ps.len()
        invariant
            i <= ps.len(),
            psv == Seq::new(ps@.len(), |i: int| Seq::new(ps@[i]@.len(), |j: int| ps@[i]@[j]@)),
            lines.deep_view() == Seq::new(i as nat, |k: int| joined(psv[k], ' ')),
        decreases ps.len() - i,
    {
        let para = &ps[i];
        let mut pieces: Vec<Vec<char>> = Vec::new();
        let mut j: usize = 0;
        while j < para.len()
            invariant
                j <= para.len(),
                pieces.deep_view() == Seq::new(j as nat, |k: int| para@[k]@),
            decreases para.len() - j,
        {
            let c = chars_of(para[j].as_str());
            let ghost prev = pieces.deep_view();
            assert(c.deep_view() =~= c@);
            pieces.push(c);
            assert(pieces.deep_view() =~= prev.push(para@[j as int]@));
            j = j + 1;
            assert(pieces.deep_view() =~= Seq::new(j as nat, |k: int| para@[k]@));
        }
        assert(pieces.deep_view() =~= psv[i as int]);
        let mut line: Vec<char> = Vec::new();
        join_into(&mut line, &pieces, ' ');
        assert(line@ =~= joined(psv[i as int], ' '));
        let ghost prevl = lines.deep_view();
        assert(line.deep_view() =~= line@);
        let ghost lv = line@;
        lines.push(line);
        assert(lines.deep_view() =~= prevl.push(lv));
        i = i + 1;
        assert(lines.deep_view() =~= Seq::new(i as nat, |k: int| joined(psv[k], ' ')));
    }
    let mut out: Vec<char> = Vec::new();
    join_into(&mut out, &lines, '\n');
    assert(out@ =~= page_text_spec(psv));
    string_of(&out)
}

/// The plain text of a page: its paragraphs' text, pieces joined by a
/// space and paragraphs by a newline.
pub fn extract_text(html: &str) -> (r: String)
    ensures
        r@ == page_text_spec(paragraphs_of(html@)),
{
    let ps = paragraphs(html);
    join_paragraphs(&ps)
}

/// What `str::trim` leaves of a text.
pub uninterp spec fn trim_of(s: Seq<char>) -> Seq<char>;

/// Relies on `str::trim`: the text without leading and trailing white space.
#[verifier::external_body]
fn trimmed(s: &str) -> (r: Vec<char>)
    ensures
        r@ == trim_of(s@),
{
    s.trim().chars().collect()
}

/// `pat` occurs in `s` at `i`.
pub open spec fn occurs_at(s: Seq<char>, pat: Seq<char>, i: int) -> bool {
    0 <= i && i + pat.len() <= s.len() && s.subrange(i, i + pat.len()) == pat
}

/// The last place before `n` where `pat` occurs in `s`, or -1.
pub open spec fn last_occurrence(s: Seq<char>, pat: Seq<char>, n: int) -> int
    decreases n,
{
    if n <= 0 {
        -1
    } else if occurs_at(s, pat, n - 1) {
        n - 1
    } else {
        last_occurrence(s, pat, n - 1)
    }
}

/// What follows the last occurrence of `pat` in `s`; all of `s` where it
/// does not occur.
pub open spec fn after_last(s: Seq<char>, pat: Seq<char>) -> Seq<char> {
    let i = last_occurrence(s, pat, s.len() as int);
    if i < 0 {
        s
    } else {
        s.skip(i + pat.len())
    }
}

/// The token in a secret store's output: the last line of the trimmed
/// output, after its last `": "`.
pub open spec fn auth_token_spec(output: Seq<char>) -> Seq<char> {
    after_last(after_last(trim_of(output), seq!['\n']), seq![':', ' '])
}

fn occurs(s: &Vec<char>, pat: &Vec<char>, i: usize) -> (r: bool)
    ensures
        r == occurs_at(s@, pat@, i as int),
{
    if i > s.len() || pat.len() > s.len() - i {
        return false;
    }
    let mut k: usize = 0;
    while k < pat.len()
        invariant
            k <= pat.len(),
            i + pat@.len() <= s@.len(),
            s@.len() == s.len(),
            forall|m: int| 0 <= m < k ==> s@[i + m] == pat@[m],
        decreases pat.len() - k,
    {
        assert(i + k < s.len());
        if s[i + k] != pat[k] {
            assert(s@.subrange(i as int, i + pat@.len())[k as int] != pat@[k as int]);
            return false;
        }
        k = k + 1;
    }
    assert(s@.subrange(i as int, i + pat@.len()) =~= pat@);
    true
}

fn skip_after_last(s: &Vec<char>, pat: &Vec<char>) -> (r: Vec<char>)
    ensures
        r@ == after_last(s@, pat@),
{
    let mut n: usize = s.len();
    while n > 0
        invariant
            n <= s.len(),
            last_occurrence(s@, pat@, s@.len() as int) == last_occurrence(s@, pat@, n as int),
        decreases n,
    {
        if occurs(s, pat, n - 1) {
            let from = n - 1 + pat.len();
            let mut r: Vec<char> = Vec::new();
            let mut j: usize = from;
            while j < s.len()
                invariant
                    from <= j <= s.len(),
                    r@ == s@.subrange(from as int, j as int),
                decreases s.len() - j,
            {
                r.push(s[j]);
                j = j + 1;
                assert(r@ =~= s@.subrange(from as int, j as int));
            }
            assert(r@ =~= s@.skip(from as int));
            return r;
        }
        n = n - 1;
    }
    let mut r: Vec<char> = Vec::new();
    let mut j: usize = 0;
    while j < s.len()
        invariant
            j <= s.len(),
            r@ == s@.take(j as int),
        decreases s.len() - j,
    {
        r.push(s[j]);
        j = j + 1;
        assert(r@ =~= s@.take(j as int));
    }
    assert(s@.take(s.len() as int) =~= s@);
    r
}

/// The token in a secret store's output: the last line of the trimmed
/// output, after its last `": "`.
pub fn auth_token(output: &str) -> (r: String)
    ensures
        r@ == auth_token_spec(output@),
{
    let t = trimmed(output);
    let nl: Vec<char> = vec!['\n'];
    let line = skip_after_last(&t, &nl);
    let sep: Vec<char> = vec![':', ' '];
    let token = skip_after_last(&line, &sep);
    assert(nl@ =~= seq!['\n']);
    assert(sep@ =~= seq![':', ' ']);
    string_of(&token)
}

} // verus!
