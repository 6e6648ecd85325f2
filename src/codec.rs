//! The file format of segments and manifests: sequences of 64-bit words.
//! Text is its length and then one word per character; a list is its length
//! and then its items; every file starts with a tag word and ends with a
//! checksum word, the wrapping sum of all the words before it.
use vstd::prelude::*;
use crate::analyzer::{chars_of, string_of};
use crate::index::{DocModel, Index, IndexError, Segment, StoredDoc, models};
use crate::storage::{FileOp, commit_plan, commit_ops, publish_ops, op_models};

verus! {

/// The first word of a segment file.
pub const SEGMENT_TAG: u64 = 0x4745_4c53_4547_0001;

/// The first word of a manifest file.
pub const MANIFEST_TAG: u64 = 0x4745_4c4d_414e_0001;

/// The second word of a manifest file: the index's field definitions.
/// Byte by byte from the low end: `title` is indexed, stored and tokenized
/// (0b111), `body` indexed and tokenized (0b101).
pub const SCHEMA: u64 = 0x0507;

/// A Unicode scalar value.
pub open spec fn is_scalar(x: u32) -> bool {
    x < 0xD800 || (0xE000 <= x && x < 0x11_0000)
}

/// Relies on `char::from_u32`: it returns the character whose code is `x`
/// when `x` is a Unicode scalar value, and `None` otherwise.
#[verifier::external_body]
fn char_from(x: u32) -> (r: Option<char>)
    ensures
        r matches Some(c) ==> c as u32 == x,
        is_scalar(x) <==> r is Some,
{
    char::from_u32(x)
}

/// The wrapping sum of the words.
pub open spec fn checksum(s: Seq<u64>) -> u64
    decreases s.len(),
{
    if s.len() == 0 {
        0
    } else {
        checksum(s.drop_last()).wrapping_add(s.last())
    }
}

/// The words of a text.
pub open spec fn enc_text(s: Seq<char>) -> Seq<u64> {
    seq![s.len() as u64] + s.map_values(|c: char| (c as u32) as u64)
}

/// The words of the texts, one after another.
pub open spec fn enc_texts(ts: Seq<Seq<char>>) -> Seq<u64>
    decreases ts.len(),
{
    if ts.len() == 0 {
        seq![]
    } else {
        enc_texts(ts.drop_last()) + enc_text(ts.last())
    }
}

/// The words of a list of terms.
pub open spec fn enc_terms(ts: Seq<Seq<char>>) -> Seq<u64> {
    seq![ts.len() as u64] + enc_texts(ts)
}

/// The words of a document.
pub open spec fn enc_doc(d: DocModel) -> Seq<u64> {
    seq![d.doc_id] + enc_text(d.title) + enc_terms(d.title_terms) + enc_terms(d.body_terms)
}

/// The words of the documents, one after another.
pub open spec fn enc_docs(ds: Seq<DocModel>) -> Seq<u64>
    decreases ds.len(),
{
    if ds.len() == 0 {
        seq![]
    } else {
        enc_docs(ds.drop_last()) + enc_doc(ds.last())
    }
}

/// The words of a segment file, checksum excluded.
pub open spec fn enc_segment_body(segment_id: u64, ds: Seq<DocModel>) -> Seq<u64> {
    seq![SEGMENT_TAG, segment_id, ds.len() as u64] + enc_docs(ds)
}

/// A file's words: its body, then the body's checksum.
pub open spec fn sealed(body: Seq<u64>) -> Seq<u64> {
    body.push(checksum(body))
}

fn push_text(out: &mut Vec<u64>, s: &Vec<char>)
    ensures
        final(out)@ == old(out)@ + enc_text(s@),
{
    out.push(s.len() as u64);
    let ghost start = out@;
    let mut i: usize = 0;
    while i < s.len()
        invariant
            i <= s.len(),
            out@ == start + s@.take(i as int).map_values(|c: char| (c as u32) as u64),
        decreases s.len() - i,
    {
        out.push(s[i] as u32 as u64);
        i = i + 1;
        assert(s@.take(i as int).map_values(|c: char| (c as u32) as u64) =~= s@.take(i - 1).map_values(
            |c: char| (c as u32) as u64,
        ).push((s@[i - 1] as u32) as u64));
    }
    assert(s@.take(s.len() as int) =~= s@);
    assert(out@ =~= old(out)@ + enc_text(s@));
}

fn push_terms(out: &mut Vec<u64>, ts: &Vec<Vec<char>>)
    ensures
        final(out)@ == old(out)@ + enc_terms(ts.deep_view()),
{
    out.push(ts.len() as u64);
    let ghost start = out@;
    let mut i: usize = 0;
    while i < ts.len()
        invariant
            i <= ts.len(),
            out@ == start + enc_texts(ts.deep_view().take(i as int)),
        decreases ts.len() - i,
    {
        let ghost before = out@;
        push_text(out, &ts[i]);
        assert(ts.deep_view().take(i + 1).drop_last() =~= ts.deep_view().take(i as int));
        assert(ts.deep_view()[i as int] == ts@[i as int]@);
        i = i + 1;
        assert(out@ =~= start + enc_texts(ts.deep_view().take(i as int)));
    }
    assert(ts.deep_view().take(ts.len() as int) =~= ts.deep_view());
    assert(out@ =~= old(out)@ + enc_terms(ts.deep_view()));
}

fn push_doc(out: &mut Vec<u64>, d: &StoredDoc)
    ensures
        final(out)@ == old(out)@ + enc_doc(d@),
{
    out.push(d.doc_id);
    let title = chars_of(d.title.as_str());
    push_text(out, &title);
    push_terms(out, &d.title_terms);
    push_terms(out, &d.body_terms);
    assert(out@ =~= old(out)@ + enc_doc(d@));
}

fn seal(body: Vec<u64>) -> (r: Vec<u64>)
    ensures
        r@ == sealed(body@),
{
    let mut sum: u64 = 0;
    let mut i: usize = 0;
    while i < body.len()
        invariant
            i <= body.len(),
            sum == checksum(body@.take(i as int)),
        decreases body.len() - i,
    {
        assert(body@.take(i + 1).drop_last() =~= body@.take(i as int));
        sum = sum.wrapping_add(body[i]);
        i = i + 1;
    }
    assert(body@.take(body.len() as int) =~= body@);
    let mut r = body;
    r.push(sum);
    r
}

/// The words of a segment file holding the documents.
pub fn encode_segment(segment_id: u64, docs: &Vec<StoredDoc>) -> (r: Vec<u64>)
    ensures
        r@ == sealed(enc_segment_body(segment_id, models(docs@))),
{
    let mut out: Vec<u64> = Vec::new();
    out.push(SEGMENT_TAG);
    out.push(segment_id);
    out.push(docs.len() as u64);
    let ghost start = out@;
    let mut i: usize = 0;
    while i < docs.len()
        invariant
            i <= docs.len(),
            out@ == start + enc_docs(models(docs@).take(i as int)),
        decreases docs.len() - i,
    {
        push_doc(&mut out, &docs[i]);
        assert(models(docs@).take(i + 1).drop_last() =~= models(docs@).take(i as int));
        i = i + 1;
        assert(out@ =~= start + enc_docs(models(docs@).take(i as int)));
    }
    assert(models(docs@).take(docs.len() as int) =~= models(docs@));
    assert(out@ =~= enc_segment_body(segment_id, models(docs@)));
    seal(out)
}

proof fn lemma_char_code(c: char, d: char)
    ensures
        is_scalar(c as u32),
        c as u32 == d as u32 ==> c == d,
{
}

/// The words at `p` of `w` are the encoding of the text `s`.
pub open spec fn text_at(w: Seq<u64>, p: int, s: Seq<char>) -> bool {
    &&& 0 <= p
    &&& p + enc_text(s).len() <= w.len()
    &&& w.subrange(p, p + enc_text(s).len()) == enc_text(s)
}

proof fn lemma_text_at(w: Seq<u64>, p: int, s: Seq<char>)
    requires
        text_at(w, p, s),
    ensures
        w[p] == s.len() as u64,
        forall|j: int| 0 <= j < s.len() ==> w[p + 1 + j] == #[trigger] ((s[j] as u32) as u64),
{
    let e = enc_text(s);
    assert(w.subrange(p, p + e.len())[0] == w[p]);
    assert forall|j: int| 0 <= j < s.len() implies w[p + 1 + j] == #[trigger] ((s[j] as u32) as u64) by {
        assert(w.subrange(p, p + e.len())[1 + j] == w[p + 1 + j]);
        assert(e[1 + j] == (s[j] as u32) as u64);
    }
}

fn read_text(w: &Vec<u64>, p: usize) -> (r: Option<(Vec<char>, usize)>)
    ensures
        r matches Some((s, q)) ==> p <= q <= w@.len() && w@.subrange(p as int, q as int) == enc_text(s@),
        forall|s: Seq<char>| #[trigger] text_at(w@, p as int, s) ==> (r matches Some((t, q)) && t@ == s
            && q == p + enc_text(s).len()),
{
    let ghost target: Option<Seq<char>> = if exists|s: Seq<char>| text_at(w@, p as int, s) {
        Some(choose|s: Seq<char>| text_at(w@, p as int, s))
    } else {
        None
    };
    proof {
        if let Some(s0) = target {
            lemma_text_at(w@, p as int, s0);
        }
    }
    if p >= w.len() {
        return None;
    }
    let n64 = w[p];
    if n64 > (w.len() - p - 1) as u64 {
        return None;
    }
    let n = n64 as usize;
    let mut s: Vec<char> = Vec::new();
    let mut i: usize = 0;
    while i < n
        invariant
            i <= n,
            n == n64,
            n64 == w@[p as int],
            p + 1 + n <= w@.len(),
            w@.len() == w.len(),
            s@.len() == i,
            w@.subrange(p + 1, p + 1 + i) == s@.map_values(|c: char| (c as u32) as u64),
            target matches Some(s0) ==> s0.len() == n && forall|j: int| 0 <= j < s0.len() ==> w@[p + 1 + j] == #[trigger] ((s0[j] as u32) as u64),
            target matches Some(s0) ==> forall|j: int| 0 <= j < i ==> s@[j] == s0[j],
            forall|s1: Seq<char>| #[trigger] text_at(w@, p as int, s1) ==> target is Some,
        decreases n - i,
    {
        assert(p + 1 + i < w.len());
        let x = w[p + 1 + i];
        if x > u32::MAX as u64 {
            proof {
                if let Some(s0) = target {
                    assert(w@[p + 1 + i] == (s0[i as int] as u32) as u64);
                }
            }
            return None;
        }
        match char_from(x as u32) {
            None => {
                proof {
                    if let Some(s0) = target {
                        assert(w@[p + 1 + i] == (s0[i as int] as u32) as u64);
                        lemma_char_code(s0[i as int], s0[i as int]);
                    }
                }
                return None;
            },
            Some(c) => {
                let ghost prev = s@;
                assert((c as u32) as u64 == x);
                proof {
                    if let Some(s0) = target {
                        assert(w@[p + 1 + i] == (s0[i as int] as u32) as u64);
                        assert(c as u32 == s0[i as int] as u32);
                        lemma_char_code(c, s0[i as int]);
                    }
                }
                s.push(c);
                assert(s@.map_values(|c: char| (c as u32) as u64) =~= prev.map_values(|c: char| (c as u32) as u64).push(x));
                i = i + 1;
                assert(w@.subrange(p + 1, p + 1 + i) =~= w@.subrange(p + 1, p + i).push(x));
            },
        }
    }
    assert(w@.subrange(p as int, p + 1 + n) =~= seq![n64] + w@.subrange(p + 1, p + 1 + n));
    proof {
        if let Some(s0) = target {
            assert(s@ =~= s0);
        }
        assert forall|s1: Seq<char>| #[trigger] text_at(w@, p as int, s1) implies s1 == s@ by {
            let s0 = target->0;
            lemma_text_at(w@, p as int, s1);
            assert forall|j: int| 0 <= j < s1.len() implies s1[j] == s0[j] by {
                assert(w@[p + 1 + j] == (s1[j] as u32) as u64);
                assert(w@[p + 1 + j] == (s0[j] as u32) as u64);
                assert(s1[j] as u32 == s0[j] as u32);
                lemma_char_code(s1[j], s0[j]);
            }
            assert(s1 =~= s0);
        }
    }
    Some((s, p + 1 + n))
}

/// The words at `p` of `w` are the encoding of the list of terms `ts`.
pub open spec fn terms_at(w: Seq<u64>, p: int, ts: Seq<Seq<char>>) -> bool {
    &&& 0 <= p
    &&& p + enc_terms(ts).len() <= w.len()
    &&& w.subrange(p, p + enc_terms(ts).len()) == enc_terms(ts)
}

proof fn lemma_enc_texts_prefix(ts: Seq<Seq<char>>, i: int)
    requires
        0 <= i <= ts.len(),
    ensures
        enc_texts(ts.take(i)).len() <= enc_texts(ts).len(),
        enc_texts(ts).subrange(0, enc_texts(ts.take(i)).len() as int) == enc_texts(ts.take(i)),
        enc_texts(ts).len() >= ts.len(),
    decreases ts.len(),
{
    if ts.len() > 0 {
        if i == ts.len() {
            assert(ts.take(i) =~= ts);
            lemma_enc_texts_prefix(ts.drop_last(), i - 1);
        } else {
            assert(ts.take(i) =~= ts.drop_last().take(i));
            lemma_enc_texts_prefix(ts.drop_last(), i);
        }
        let a = enc_texts(ts.drop_last());
        let e = enc_texts(ts.take(i));
        assert(enc_texts(ts) == a + enc_text(ts.last()));
        if i < ts.len() {
            assert((a + enc_text(ts.last())).subrange(0, e.len() as int) =~= a.subrange(0, e.len() as int));
        } else {
            assert(enc_texts(ts).subrange(0, e.len() as int) =~= enc_texts(ts));
        }
    } else {
        assert(ts.take(i) =~= ts);
    }
}

proof fn lemma_terms_step(w: Seq<u64>, p: int, ts: Seq<Seq<char>>, i: int)
    requires
        terms_at(w, p, ts),
        0 <= i < ts.len(),
    ensures
        text_at(w, p + 1 + enc_texts(ts.take(i)).len(), ts[i]),
        enc_texts(ts.take(i + 1)) == enc_texts(ts.take(i)) + enc_text(ts[i]),
{
    assert(ts.take(i + 1).drop_last() =~= ts.take(i));
    lemma_enc_texts_prefix(ts, i + 1);
    let e = enc_texts(ts.take(i));
    let f = enc_texts(ts.take(i + 1));
    let all = enc_terms(ts);
    let q = p + 1 + e.len();
    let t = enc_text(ts[i]);
    assert forall|k: int| 0 <= k < t.len() implies w.subrange(q, q + t.len())[k] == t[k] by {
        assert(w.subrange(p, p + all.len())[1 + e.len() + k] == all[1 + e.len() + k]);
        assert(all[1 + e.len() + k] == enc_texts(ts)[e.len() + k]);
        assert(enc_texts(ts).subrange(0, f.len() as int)[e.len() + k] == f[e.len() + k]);
        assert(f[e.len() + k] == t[k]);
    }
    assert(w.subrange(q, q + t.len()) =~= t);
}

fn read_terms(w: &Vec<u64>, p: usize) -> (r: Option<(Vec<Vec<char>>, usize)>)
    ensures
        r matches Some((ts, q)) ==> p <= q <= w@.len() && w@.subrange(p as int, q as int)
            == enc_terms(ts.deep_view()),
        forall|ts: Seq<Seq<char>>| #[trigger] terms_at(w@, p as int, ts) ==> (r matches Some((v, q))
            && v.deep_view() == ts && q == p + enc_terms(ts).len()),
{
    proof {
        assert forall|ts1: Seq<Seq<char>>| #[trigger] terms_at(w@, p as int, ts1) implies w@[p as int] == ts1.len() as u64 && ts1.len() < w@.len() by {
            lemma_enc_texts_prefix(ts1, 0);
            assert(w@.subrange(p as int, p + enc_terms(ts1).len())[0] == w@[p as int]);
        }
    }
    if p >= w.len() {
        return None;
    }
    let n64 = w[p];
    let mut ts: Vec<Vec<char>> = Vec::new();
    let mut q: usize = p + 1;
    let mut i: u64 = 0;
    assert(ts.deep_view() =~= Seq::<Seq<char>>::empty());
    while i < n64
        invariant
            i <= n64,
            n64 == w@[p as int],
            p < q <= w@.len(),
            ts@.len() == i,
            w@.subrange(p + 1, q as int) == enc_texts(ts.deep_view()),
            forall|ts1: Seq<Seq<char>>| #[trigger] terms_at(w@, p as int, ts1) ==> (ts1.len() == n64
                && ts.deep_view() == ts1.take(i as int) && q == p + 1 + enc_texts(ts1.take(i as int)).len()),
        decreases n64 - i,
    {
        proof {
            assert forall|ts1: Seq<Seq<char>>| #[trigger] terms_at(w@, p as int, ts1) implies text_at(w@, q as int, ts1[i as int]) by {
                lemma_terms_step(w@, p as int, ts1, i as int);
            }
        }
        match read_text(w, q) {
            None => {
                proof {
                    assert forall|ts1: Seq<Seq<char>>| #[trigger] terms_at(w@, p as int, ts1) implies false by {
                        assert(text_at(w@, q as int, ts1[i as int]));
                    }
                }
                return None;
            },
            Some((t, q2)) => {
                let ghost prev = ts.deep_view();
                let ghost tv = t@;
                assert(t.deep_view() =~= t@);
                ts.push(t);
                assert(ts.deep_view() =~= prev.push(tv));
                assert(ts.deep_view().drop_last() =~= prev);
                assert(w@.subrange(p + 1, q2 as int) =~= w@.subrange(p + 1, q as int) + w@.subrange(q as int, q2 as int));
                proof {
                    assert forall|ts1: Seq<Seq<char>>| #[trigger] terms_at(w@, p as int, ts1) implies (ts1.len() == n64
                        && ts.deep_view() == ts1.take(i + 1) && q2 == p + 1 + enc_texts(ts1.take(i + 1)).len()) by {
                        lemma_terms_step(w@, p as int, ts1, i as int);
                        assert(text_at(w@, q as int, ts1[i as int]));
                        assert(ts1.take(i + 1) =~= ts1.take(i as int).push(ts1[i as int]));
                    }
                }
                q = q2;
                i = i + 1;
            },
        }
    }
    assert(w@.subrange(p as int, q as int) =~= seq![n64] + w@.subrange(p + 1, q as int));
    proof {
        assert forall|ts1: Seq<Seq<char>>| #[trigger] terms_at(w@, p as int, ts1) implies (ts.deep_view() == ts1 && q == p + enc_terms(ts1).len()) by {
            assert(ts1.take(i as int) =~= ts1);
        }
    }
    Some((ts, q))
}

proof fn lemma_split(w: Seq<u64>, p: int, a: Seq<u64>, b: Seq<u64>)
    requires
        0 <= p,
        p + (a + b).len() <= w.len(),
        w.subrange(p, p + (a + b).len()) == a + b,
    ensures
        w.subrange(p, p + a.len()) == a,
        w.subrange(p + a.len(), p + a.len() + b.len()) == b,
{
    assert forall|k: int| 0 <= k < a.len() implies w.subrange(p, p + a.len())[k] == a[k] by {
        assert(w.subrange(p, p + (a + b).len())[k] == (a + b)[k]);
    }
    assert forall|k: int| 0 <= k < b.len() implies w.subrange(p + a.len(), p + a.len() + b.len())[k] == b[k] by {
        assert(w.subrange(p, p + (a + b).len())[a.len() + k] == (a + b)[a.len() + k]);
        assert((a + b)[a.len() + k] == b[k]);
        assert(w.subrange(p + a.len(), p + a.len() + b.len())[k] == w[p + a.len() + k]);
        assert(w.subrange(p, p + (a + b).len())[a.len() + k] == w[p + a.len() + k]);
    }
    assert(w.subrange(p, p + a.len()) =~= a);
    assert(w.subrange(p + a.len(), p + a.len() + b.len()) =~= b);
}

/// The words at `p` of `w` are the encoding of the document `d`.
pub open spec fn doc_at(w: Seq<u64>, p: int, d: DocModel) -> bool {
    &&& 0 <= p
    &&& p + enc_doc(d).len() <= w.len()
    &&& w.subrange(p, p + enc_doc(d).len()) == enc_doc(d)
}

proof fn lemma_doc_parts(w: Seq<u64>, p: int, d: DocModel)
    requires
        doc_at(w, p, d),
    ensures
        w[p] == d.doc_id,
        text_at(w, p + 1, d.title),
        terms_at(w, p + 1 + enc_text(d.title).len(), d.title_terms),
        terms_at(w, p + 1 + enc_text(d.title).len() + enc_terms(d.title_terms).len(), d.body_terms),
{
    let i = seq![d.doc_id];
    let t = enc_text(d.title);
    let a = enc_terms(d.title_terms);
    let b = enc_terms(d.body_terms);
    lemma_split(w, p, i + t + a, b);
    lemma_split(w, p, i + t, a);
    lemma_split(w, p, i, t);
    assert(w.subrange(p, p + 1)[0] == w[p]);
}

fn read_doc(w: &Vec<u64>, p: usize) -> (r: Option<(StoredDoc, usize)>)
    ensures
        r matches Some((d, q)) ==> p <= q <= w@.len() && w@.subrange(p as int, q as int) == enc_doc(d@),
        forall|d: DocModel| #[trigger] doc_at(w@, p as int, d) ==> (r matches Some((v, q)) && v@ == d
            && q == p + enc_doc(d).len()),
{
    proof {
        assert forall|d: DocModel| #[trigger] doc_at(w@, p as int, d) implies p < w@.len() && w@[p as int] == d.doc_id
            && text_at(w@, p + 1, d.title) by {
            lemma_doc_parts(w@, p as int, d);
        }
    }
    if p >= w.len() {
        return None;
    }
    let doc_id = w[p];
    let (title, q1) = match read_text(w, p + 1) {
        None => {
            return None;
        },
        Some(x) => x,
    };
    proof {
        assert forall|d: DocModel| #[trigger] doc_at(w@, p as int, d) implies terms_at(w@, q1 as int, d.title_terms) by {
            lemma_doc_parts(w@, p as int, d);
        }
    }
    let (title_terms, q2) = match read_terms(w, q1) {
        None => {
            return None;
        },
        Some(x) => x,
    };
    proof {
        assert forall|d: DocModel| #[trigger] doc_at(w@, p as int, d) implies terms_at(w@, q2 as int, d.body_terms) by {
            lemma_doc_parts(w@, p as int, d);
            assert(terms_at(w@, q1 as int, d.title_terms));
        }
    }
    let (body_terms, q3) = match read_terms(w, q2) {
        None => {
            return None;
        },
        Some(x) => x,
    };
    let d = StoredDoc { doc_id, title: string_of(&title), title_terms, body_terms };
    assert(w@.subrange(p as int, q3 as int) =~= seq![doc_id] + w@.subrange(p + 1, q1 as int)
        + w@.subrange(q1 as int, q2 as int) + w@.subrange(q2 as int, q3 as int));
    proof {
        assert forall|d1: DocModel| #[trigger] doc_at(w@, p as int, d1) implies d@ == d1 && q3 == p + enc_doc(d1).len() by {
            lemma_doc_parts(w@, p as int, d1);
            assert(terms_at(w@, q1 as int, d1.title_terms));
            assert(terms_at(w@, q2 as int, d1.body_terms));
        }
    }
    Some((d, q3))
}

/// Whether the last word is the checksum of the others.
fn checksum_holds(w: &Vec<u64>) -> (r: bool)
    ensures
        r == (w@.len() > 0 && w@ == sealed(w@.drop_last())),
{
    if w.len() == 0 {
        return false;
    }
    let n = w.len() - 1;
    let mut sum: u64 = 0;
    let mut i: usize = 0;
    while i < n
        invariant
            i <= n,
            n == w@.len() - 1,
            sum == checksum(w@.take(i as int)),
        decreases n - i,
    {
        assert(w@.take(i + 1).drop_last() =~= w@.take(i as int));
        sum = sum.wrapping_add(w[i]);
        i = i + 1;
    }
    assert(w@.take(n as int) =~= w@.drop_last());
    assert(w@.drop_last().push(w@.last()) =~= w@);
    sum == w[n]
}

proof fn lemma_enc_docs_prefix(ds: Seq<DocModel>, i: int)
    requires
        0 <= i <= ds.len(),
    ensures
        enc_docs(ds.take(i)).len() <= enc_docs(ds).len(),
        enc_docs(ds).subrange(0, enc_docs(ds.take(i)).len() as int) == enc_docs(ds.take(i)),
        enc_docs(ds).len() >= ds.len(),
    decreases ds.len(),
{
    if ds.len() > 0 {
        if i == ds.len() {
            assert(ds.take(i) =~= ds);
            lemma_enc_docs_prefix(ds.drop_last(), i - 1);
        } else {
            assert(ds.take(i) =~= ds.drop_last().take(i));
            lemma_enc_docs_prefix(ds.drop_last(), i);
        }
        let a = enc_docs(ds.drop_last());
        let e = enc_docs(ds.take(i));
        assert(enc_docs(ds) == a + enc_doc(ds.last()));
        if i < ds.len() {
            assert((a + enc_doc(ds.last())).subrange(0, e.len() as int) =~= a.subrange(0, e.len() as int));
        } else {
            assert(enc_docs(ds).subrange(0, e.len() as int) =~= enc_docs(ds));
        }
    } else {
        assert(ds.take(i) =~= ds);
    }
}

proof fn lemma_docs_step(w: Seq<u64>, id: u64, ds: Seq<DocModel>, i: int)
    requires
        w == sealed(enc_segment_body(id, ds)),
        0 <= i < ds.len(),
    ensures
        doc_at(w, 3 + enc_docs(ds.take(i)).len() as int, ds[i]),
        enc_docs(ds.take(i + 1)) == enc_docs(ds.take(i)) + enc_doc(ds[i]),
{
    assert(ds.take(i + 1).drop_last() =~= ds.take(i));
    lemma_enc_docs_prefix(ds, i + 1);
    let e = enc_docs(ds.take(i));
    let f = enc_docs(ds.take(i + 1));
    let body = enc_segment_body(id, ds);
    let q: int = 3 + e.len() as int;
    let t = enc_doc(ds[i]);
    assert forall|k: int| 0 <= k < t.len() implies w.subrange(q, q + t.len())[k] == t[k] by {
        assert(w[q + k] == body[q + k]);
        assert(body[q + k] == enc_docs(ds)[e.len() + k]);
        assert(enc_docs(ds).subrange(0, f.len() as int)[e.len() + k] == f[e.len() + k]);
        assert(f[e.len() + k] == t[k]);
    }
    assert(w.subrange(q, q + t.len()) =~= t);
}

/// Reads a segment file: its id and documents, or `None` where the words
/// are not a sealed segment (a failed checksum, a wrong tag, a cut-off or
/// malformed record). Whatever it returns encodes back to exactly `w`, and
/// every sealed segment is read back as the id and documents it encodes.
#[verifier::rlimit(50)]
pub fn decode_segment(w: &Vec<u64>) -> (r: Option<(u64, Vec<StoredDoc>)>)
    ensures
        r matches Some((id, docs)) ==> w@ == sealed(enc_segment_body(id, models(docs@))),
        forall|id: u64, ds: Seq<DocModel>| #[trigger] sealed(enc_segment_body(id, ds)) == w@ ==> (r matches Some(
            (i2, v),
        ) && i2 == id && models(v@) == ds),
{
    proof {
        assert forall|id: u64, ds: Seq<DocModel>| #[trigger] sealed(enc_segment_body(id, ds)) == w@ implies
            w@.len() > 3 && w@ == sealed(w@.drop_last()) && w@[0] == SEGMENT_TAG && w@[1] == id && w@[2]
            == ds.len() as u64 && 3 + enc_docs(ds).len() == w@.len() - 1 by {
            let body = enc_segment_body(id, ds);
            assert(body.push(checksum(body)).drop_last() =~= body);
            lemma_enc_docs_prefix(ds, 0);
        }
    }
    if !checksum_holds(w) {
        return None;
    }
    let end = w.len() - 1;
    if end < 3 || w[0] != SEGMENT_TAG {
        return None;
    }
    let id = w[1];
    let n64 = w[2];
    let mut docs: Vec<StoredDoc> = Vec::new();
    let mut q: usize = 3;
    let mut i: u64 = 0;
    assert(models(docs@) =~= Seq::<DocModel>::empty());
    proof {
        assert forall|id1: u64, ds: Seq<DocModel>| #[trigger] sealed(enc_segment_body(id1, ds)) == w@ implies (ds.len()
            == n64 && models(docs@) == ds.take(0) && q == 3 + enc_docs(ds.take(0)).len()) by {
            lemma_enc_docs_prefix(ds, 0);
            assert(ds.take(0) =~= Seq::<DocModel>::empty());
            assert(w@.len() <= usize::MAX);
        }
    }
    while i < n64
        invariant
            i <= n64,
            n64 == w@[2],
            3 <= q <= w@.len(),
            docs@.len() == i,
            w@.subrange(3, q as int) == enc_docs(models(docs@)),
            forall|id1: u64, ds: Seq<DocModel>| #[trigger] sealed(enc_segment_body(id1, ds)) == w@ ==> (ds.len()
                == n64 && models(docs@) == ds.take(i as int) && q == 3 + enc_docs(ds.take(i as int)).len()),
        decreases n64 - i,
    {
        proof {
            assert forall|id1: u64, ds: Seq<DocModel>| #[trigger] sealed(enc_segment_body(id1, ds)) == w@ implies doc_at(w@, q as int, ds[i as int]) by {
                lemma_docs_step(w@, id1, ds, i as int);
            }
        }
        match read_doc(w, q) {
            None => {
                proof {
                    assert forall|id1: u64, ds: Seq<DocModel>| #[trigger] sealed(enc_segment_body(id1, ds)) == w@ implies false by {
                        assert(doc_at(w@, q as int, ds[i as int]));
                    }
                }
                return None;
            },
            Some((d, q2)) => {
                let ghost prev = models(docs@);
                let ghost dv = d@;
                docs.push(d);
                assert(models(docs@) =~= prev.push(dv));
                assert(models(docs@).drop_last() =~= prev);
                assert(w@.subrange(3, q2 as int) =~= w@.subrange(3, q as int) + w@.subrange(q as int, q2 as int));
                proof {
                    assert forall|id1: u64, ds: Seq<DocModel>| #[trigger] sealed(enc_segment_body(id1, ds)) == w@ implies (ds.len()
                        == n64 && models(docs@) == ds.take(i + 1) && q2 == 3 + enc_docs(ds.take(i + 1)).len()) by {
                        lemma_docs_step(w@, id1, ds, i as int);
                        assert(doc_at(w@, q as int, ds[i as int]));
                        assert(ds.take(i + 1) =~= ds.take(i as int).push(ds[i as int]));
                    }
                }
                q = q2;
                i = i + 1;
            },
        }
    }
    proof {
        assert forall|id1: u64, ds: Seq<DocModel>| #[trigger] sealed(enc_segment_body(id1, ds)) == w@ implies (q == end
            && models(docs@) == ds) by {
            assert(ds.take(i as int) =~= ds);
        }
    }
    if q != end {
        return None;
    }
    assert(w@.drop_last() =~= seq![SEGMENT_TAG, id, n64] + w@.subrange(3, q as int));
    Some((id, docs))
}

/// The words of a tombstone overlay.
pub open spec fn enc_bits(b: Seq<bool>) -> Seq<u64> {
    seq![b.len() as u64] + b.map_values(|x: bool| if x { 1u64 } else { 0u64 })
}

/// The words of the manifest entries, one after another: each segment's id
/// and then its overlay.
pub open spec fn enc_entries(ids: Seq<u64>, tombs: Seq<Seq<bool>>) -> Seq<u64>
    decreases ids.len(),
{
    if ids.len() == 0 || tombs.len() == 0 {
        seq![]
    } else {
        enc_entries(ids.drop_last(), tombs.drop_last()) + seq![ids.last()] + enc_bits(tombs.last())
    }
}

/// What a manifest lists: the generation, the next ids to hand out, and the
/// live segments in order, each with its tombstone overlay.
pub struct Manifest {
    pub generation: u64,
    pub next_doc_id: u64,
    pub next_segment_id: u64,
    pub segment_ids: Vec<u64>,
    pub tombstones: Vec<Vec<bool>>,
}

impl Manifest {
    /// The overlays as sequences.
    pub open spec fn tombstone_models(&self) -> Seq<Seq<bool>> {
        Seq::new(self.tombstones@.len(), |i: int| self.tombstones@[i]@)
    }

    /// The words of the manifest file, checksum excluded.
    pub open spec fn body(&self) -> Seq<u64> {
        seq![
            MANIFEST_TAG,
            SCHEMA,
            self.generation,
            self.next_doc_id,
            self.next_segment_id,
            self.segment_ids@.len() as u64,
        ] + enc_entries(self.segment_ids@, self.tombstone_models())
    }
}

fn push_bits(out: &mut Vec<u64>, b: &Vec<bool>)
    ensures
        final(out)@ == old(out)@ + enc_bits(b@),
{
    out.push(b.len() as u64);
    let ghost start = out@;
    let mut i: usize = 0;
    while i < b.len()
        invariant
            i <= b.len(),
            out@ == start + b@.take(i as int).map_values(|x: bool| if x { 1u64 } else { 0u64 }),
        decreases b.len() - i,
    {
        out.push(if b[i] { 1u64 } else { 0u64 });
        i = i + 1;
        assert(b@.take(i as int).map_values(|x: bool| if x { 1u64 } else { 0u64 }) =~= b@.take(i - 1).map_values(
            |x: bool| if x { 1u64 } else { 0u64 },
        ).push(if b@[i - 1] { 1u64 } else { 0u64 }));
    }
    assert(b@.take(b.len() as int) =~= b@);
    assert(out@ =~= old(out)@ + enc_bits(b@));
}

/// The words of a manifest file.
pub fn encode_manifest(m: &Manifest) -> (r: Vec<u64>)
    requires
        m.segment_ids@.len() == m.tombstones@.len(),
    ensures
        r@ == sealed(m.body()),
{
    let mut out: Vec<u64> = Vec::new();
    out.push(MANIFEST_TAG);
    out.push(SCHEMA);
    out.push(m.generation);
    out.push(m.next_doc_id);
    out.push(m.next_segment_id);
    out.push(m.segment_ids.len() as u64);
    let ghost start = out@;
    let ghost ts = m.tombstone_models();
    let mut i: usize = 0;
    while i < m.segment_ids.len()
        invariant
            i <= m.segment_ids.len(),
            m.segment_ids@.len() == m.tombstones@.len(),
            ts == m.tombstone_models(),
            out@ == start + enc_entries(m.segment_ids@.take(i as int), ts.take(i as int)),
        decreases m.segment_ids.len() - i,
    {
        out.push(m.segment_ids[i]);
        push_bits(&mut out, &m.tombstones[i]);
        assert(m.segment_ids@.take(i + 1).drop_last() =~= m.segment_ids@.take(i as int));
        assert(ts.take(i + 1).drop_last() =~= ts.take(i as int));
        i = i + 1;
        assert(out@ =~= start + enc_entries(m.segment_ids@.take(i as int), ts.take(i as int)));
    }
    assert(m.segment_ids@.take(i as int) =~= m.segment_ids@);
    assert(ts.take(i as int) =~= ts);
    assert(out@ =~= m.body());
    seal(out)
}

/// The word of one tombstone bit.
pub open spec fn bit_word(x: bool) -> u64 {
    if x {
        1u64
    } else {
        0u64
    }
}

/// The words at `p` of `w` are the encoding of the overlay `b`.
pub open spec fn bits_at(w: Seq<u64>, p: int, b: Seq<bool>) -> bool {
    &&& 0 <= p
    &&& p + enc_bits(b).len() <= w.len()
    &&& w.subrange(p, p + enc_bits(b).len()) == enc_bits(b)
}

proof fn lemma_bits_at(w: Seq<u64>, p: int, b: Seq<bool>)
    requires
        bits_at(w, p, b),
    ensures
        w[p] == b.len() as u64,
        forall|j: int| 0 <= j < b.len() ==> w[p + 1 + j] == #[trigger] bit_word(b[j]),
{
    let e = enc_bits(b);
    assert(w.subrange(p, p + e.len())[0] == w[p]);
    assert forall|j: int| 0 <= j < b.len() implies w[p + 1 + j] == #[trigger] bit_word(b[j]) by {
        assert(w.subrange(p, p + e.len())[1 + j] == w[p + 1 + j]);
        assert(e[1 + j] == bit_word(b[j]));
    }
}

fn read_bits(w: &Vec<u64>, p: usize) -> (r: Option<(Vec<bool>, usize)>)
    ensures
        r matches Some((b, q)) ==> p <= q <= w@.len() && w@.subrange(p as int, q as int) == enc_bits(b@),
        forall|b: Seq<bool>| #[trigger] bits_at(w@, p as int, b) ==> (r matches Some((v, q)) && v@ == b
            && q == p + enc_bits(b).len()),
{
    proof {
        assert forall|b1: Seq<bool>| #[trigger] bits_at(w@, p as int, b1) implies p < w@.len() && w@[p as int] == b1.len() as u64
            && p + 1 + b1.len() <= w@.len() && forall|j: int| 0 <= j < b1.len() ==> w@[p + 1 + j] == #[trigger] bit_word(b1[j]) by {
            lemma_bits_at(w@, p as int, b1);
        }
    }
    if p >= w.len() {
        return None;
    }
    let n64 = w[p];
    if n64 > (w.len() - p - 1) as u64 {
        return None;
    }
    let n = n64 as usize;
    let mut b: Vec<bool> = Vec::new();
    let mut i: usize = 0;
    while i < n
        invariant
            i <= n,
            n == n64,
            n64 == w@[p as int],
            p + 1 + n <= w@.len(),
            w@.len() == w.len(),
            b@.len() == i,
            w@.subrange(p + 1, p + 1 + i) == b@.map_values(|x: bool| if x { 1u64 } else { 0u64 }),
            forall|b1: Seq<bool>| #[trigger] bits_at(w@, p as int, b1) ==> (b1.len() == n && b@ == b1.take(i as int)
                && forall|j: int| 0 <= j < b1.len() ==> w@[p + 1 + j] == #[trigger] bit_word(b1[j])),
        decreases n - i,
    {
        assert(p + 1 + i < w.len());
        let x = w[p + 1 + i];
        if x > 1 {
            proof {
                assert forall|b1: Seq<bool>| #[trigger] bits_at(w@, p as int, b1) implies false by {
                    assert(w@[p + 1 + i] == bit_word(b1[i as int]));
                }
            }
            return None;
        }
        let ghost prev = b@;
        b.push(x == 1);
        assert(b@.map_values(|x: bool| if x { 1u64 } else { 0u64 }) =~= prev.map_values(
            |x: bool| if x { 1u64 } else { 0u64 },
        ).push(x));
        proof {
            assert forall|b1: Seq<bool>| #[trigger] bits_at(w@, p as int, b1) implies b@ == b1.take(i + 1) by {
                assert(w@[p + 1 + i] == bit_word(b1[i as int]));
                assert(b@ =~= b1.take(i + 1));
            }
        }
        i = i + 1;
        assert(w@.subrange(p + 1, p + 1 + i) =~= w@.subrange(p + 1, p + i).push(x));
    }
    assert(w@.subrange(p as int, p + 1 + n) =~= seq![n64] + w@.subrange(p + 1, p + 1 + n));
    proof {
        assert forall|b1: Seq<bool>| #[trigger] bits_at(w@, p as int, b1) implies b@ == b1 by {
            assert(b1.take(i as int) =~= b1);
        }
    }
    Some((b, p + 1 + n))
}

/// The words of a manifest file with the given contents.
pub open spec fn manifest_words(g: u64, d: u64, s: u64, ids: Seq<u64>, ts: Seq<Seq<bool>>) -> Seq<u64> {
    sealed(seq![MANIFEST_TAG, SCHEMA, g, d, s, ids.len() as u64] + enc_entries(ids, ts))
}

proof fn lemma_enc_entries_prefix(ids: Seq<u64>, ts: Seq<Seq<bool>>, i: int)
    requires
        0 <= i <= ids.len(),
        ids.len() == ts.len(),
    ensures
        enc_entries(ids.take(i), ts.take(i)).len() <= enc_entries(ids, ts).len(),
        enc_entries(ids, ts).subrange(0, enc_entries(ids.take(i), ts.take(i)).len() as int) == enc_entries(ids.take(i), ts.take(i)),
        enc_entries(ids, ts).len() >= ids.len(),
    decreases ids.len(),
{
    if ids.len() > 0 {
        if i == ids.len() {
            assert(ids.take(i) =~= ids);
            assert(ts.take(i) =~= ts);
            lemma_enc_entries_prefix(ids.drop_last(), ts.drop_last(), i - 1);
        } else {
            assert(ids.take(i) =~= ids.drop_last().take(i));
            assert(ts.take(i) =~= ts.drop_last().take(i));
            lemma_enc_entries_prefix(ids.drop_last(), ts.drop_last(), i);
        }
        let a = enc_entries(ids.drop_last(), ts.drop_last());
        let e = enc_entries(ids.take(i), ts.take(i));
        let tail = seq![ids.last()] + enc_bits(ts.last());
        assert(enc_entries(ids, ts) == a + tail);
        if i < ids.len() {
            assert((a + tail).subrange(0, e.len() as int) =~= a.subrange(0, e.len() as int));
        } else {
            assert(enc_entries(ids, ts).subrange(0, e.len() as int) =~= enc_entries(ids, ts));
        }
    } else {
        assert(ids.take(i) =~= ids);
        assert(ts.take(i) =~= ts);
    }
}

proof fn lemma_entries_step(w: Seq<u64>, g: u64, d: u64, s: u64, ids: Seq<u64>, ts: Seq<Seq<bool>>, i: int)
    requires
        w == manifest_words(g, d, s, ids, ts),
        ids.len() == ts.len(),
        0 <= i < ids.len(),
    ensures
        ({
            let q: int = 6 + enc_entries(ids.take(i), ts.take(i)).len() as int;
            &&& q < w.len()
            &&& w[q] == ids[i]
            &&& bits_at(w, q + 1, ts[i])
        }),
        enc_entries(ids.take(i + 1), ts.take(i + 1)) == enc_entries(ids.take(i), ts.take(i)) + seq![ids[i]]
            + enc_bits(ts[i]),
{
    assert(ids.take(i + 1).drop_last() =~= ids.take(i));
    assert(ts.take(i + 1).drop_last() =~= ts.take(i));
    lemma_enc_entries_prefix(ids, ts, i + 1);
    let e = enc_entries(ids.take(i), ts.take(i));
    let f = enc_entries(ids.take(i + 1), ts.take(i + 1));
    let body = seq![MANIFEST_TAG, SCHEMA, g, d, s, ids.len() as u64] + enc_entries(ids, ts);
    let q: int = 6 + e.len() as int;
    let t = seq![ids[i]] + enc_bits(ts[i]);
    assert forall|k: int| 0 <= k < t.len() implies w[q + k] == t[k] by {
        assert(w[q + k] == body[q + k]);
        assert(body[q + k] == enc_entries(ids, ts)[e.len() + k]);
        assert(enc_entries(ids, ts).subrange(0, f.len() as int)[e.len() + k] == f[e.len() + k]);
        assert(f[e.len() + k] == t[k]);
    }
    assert(w[q] == t[0]);
    let bt = enc_bits(ts[i]);
    assert forall|k: int| 0 <= k < bt.len() implies w.subrange(q + 1, q + 1 + bt.len())[k] == bt[k] by {
        assert(w[q + 1 + k] == t[1 + k]);
    }
    assert(w.subrange(q + 1, q + 1 + bt.len()) =~= bt);
}

/// Reads a manifest file. It fails with `SchemaMismatch` where a sealed
/// manifest records other field definitions than this library's, and with
/// `CorruptSegment` where the words are not a sealed manifest. Whatever it
/// returns encodes back to exactly `w`, and every sealed manifest of this
/// schema is read back as what it encodes.
#[verifier::rlimit(50)]
pub fn decode_manifest(w: &Vec<u64>) -> (r: Result<Manifest, IndexError>)
    ensures
        r matches Ok(m) ==> m.segment_ids@.len() == m.tombstones@.len() && w@ == sealed(m.body()),
        r == Err::<Manifest, IndexError>(IndexError::SchemaMismatch) <==> (w@.len() > 2 && w@ == sealed(
            w@.drop_last(),
        ) && w@[0] == MANIFEST_TAG && w@[1] != SCHEMA),
        r matches Err(e) ==> e == IndexError::SchemaMismatch || e == IndexError::CorruptSegment,
        forall|g: u64, d: u64, s: u64, ids: Seq<u64>, ts: Seq<Seq<bool>>|
            ids.len() == ts.len() && #[trigger] manifest_words(g, d, s, ids, ts) == w@ ==> (r matches Ok(m)
                && m.generation == g && m.next_doc_id == d && m.next_segment_id == s && m.segment_ids@ == ids
                && m.tombstone_models() == ts),
{
    proof {
        assert forall|g: u64, d: u64, s: u64, ids: Seq<u64>, ts: Seq<Seq<bool>>|
            ids.len() == ts.len() && #[trigger] manifest_words(g, d, s, ids, ts) == w@ implies w@.len() > 6 && w@ == sealed(w@.drop_last())
                && w@[0] == MANIFEST_TAG && w@[1] == SCHEMA && w@[2] == g && w@[3] == d && w@[4] == s
                && w@[5] == ids.len() as u64 && ids.len() < w@.len() && 6 + enc_entries(ids, ts).len() == w@.len() - 1 by {
            let body = seq![MANIFEST_TAG, SCHEMA, g, d, s, ids.len() as u64] + enc_entries(ids, ts);
            assert(body.push(checksum(body)).drop_last() =~= body);
            lemma_enc_entries_prefix(ids, ts, 0);
        }
    }
    if !checksum_holds(w) {
        return Err(IndexError::CorruptSegment);
    }
    let end = w.len() - 1;
    if end < 2 || w[0] != MANIFEST_TAG {
        return Err(IndexError::CorruptSegment);
    }
    if w[1] != SCHEMA {
        return Err(IndexError::SchemaMismatch);
    }
    if end < 6 {
        return Err(IndexError::CorruptSegment);
    }
    let n64 = w[5];
    let mut ids: Vec<u64> = Vec::new();
    let mut tombs: Vec<Vec<bool>> = Vec::new();
    let mut q: usize = 6;
    let mut i: u64 = 0;
    proof {
        assert forall|g: u64, d: u64, s: u64, ids1: Seq<u64>, ts: Seq<Seq<bool>>|
            ids1.len() == ts.len() && #[trigger] manifest_words(g, d, s, ids1, ts) == w@ implies (ids1.len() == n64
                && ids@ == ids1.take(0) && Seq::new(tombs@.len(), |k: int| tombs@[k]@) == ts.take(0)
                && q == 6 + enc_entries(ids1.take(0), ts.take(0)).len()) by {
            assert(ids1.take(0) =~= ids@);
            assert(ts.take(0) =~= Seq::new(tombs@.len(), |k: int| tombs@[k]@));
            assert(w@.len() <= usize::MAX);
        }
    }
    while i < n64
        invariant
            i <= n64,
            n64 == w@[5],
            6 <= q <= w@.len(),
            w@.len() == w.len(),
            w@[1] == SCHEMA,
            ids@.len() == i,
            tombs@.len() == i,
            w@.subrange(6, q as int) == enc_entries(ids@, Seq::new(tombs@.len(), |k: int| tombs@[k]@)),
            forall|g: u64, d: u64, s: u64, ids1: Seq<u64>, ts: Seq<Seq<bool>>|
                ids1.len() == ts.len() && #[trigger] manifest_words(g, d, s, ids1, ts) == w@ ==> (ids1.len() == n64
                    && ids@ == ids1.take(i as int) && Seq::new(tombs@.len(), |k: int| tombs@[k]@) == ts.take(i as int)
                    && q == 6 + enc_entries(ids1.take(i as int), ts.take(i as int)).len()),
        decreases n64 - i,
    {
        proof {
            assert forall|g: u64, d: u64, s: u64, ids1: Seq<u64>, ts: Seq<Seq<bool>>|
                ids1.len() == ts.len() && #[trigger] manifest_words(g, d, s, ids1, ts) == w@ implies (q < w@.len()
                    && w@[q as int] == ids1[i as int] && bits_at(w@, q + 1, ts[i as int])) by {
                lemma_entries_step(w@, g, d, s, ids1, ts, i as int);
            }
        }
        if q >= w.len() {
            return Err(IndexError::CorruptSegment);
        }
        let id = w[q];
        match read_bits(w, q + 1) {
            None => {
                return Err(IndexError::CorruptSegment);
            },
            Some((b, q2)) => {
                let ghost prev_t = Seq::new(tombs@.len(), |k: int| tombs@[k]@);
                let ghost prev_i = ids@;
                let ghost bv = b@;
                ids.push(id);
                tombs.push(b);
                let ghost nt = Seq::new(tombs@.len(), |k: int| tombs@[k]@);
                assert(nt =~= prev_t.push(bv));
                assert(nt.drop_last() =~= prev_t);
                assert(ids@.drop_last() =~= prev_i);
                assert(w@.subrange(6, q2 as int) =~= w@.subrange(6, q as int) + seq![id] + w@.subrange(q + 1, q2 as int));
                proof {
                    assert forall|g: u64, d: u64, s: u64, ids1: Seq<u64>, ts: Seq<Seq<bool>>|
                        ids1.len() == ts.len() && #[trigger] manifest_words(g, d, s, ids1, ts) == w@ implies (ids1.len() == n64
                            && ids@ == ids1.take(i + 1) && nt == ts.take(i + 1)
                            && q2 == 6 + enc_entries(ids1.take(i + 1), ts.take(i + 1)).len()) by {
                        lemma_entries_step(w@, g, d, s, ids1, ts, i as int);
                        assert(bits_at(w@, q + 1, ts[i as int]));
                        assert(ids1.take(i + 1) =~= ids1.take(i as int).push(ids1[i as int]));
                        assert(ts.take(i + 1) =~= ts.take(i as int).push(ts[i as int]));
                    }
                }
                q = q2;
                i = i + 1;
            },
        }
    }
    proof {
        assert forall|g: u64, d: u64, s: u64, ids1: Seq<u64>, ts: Seq<Seq<bool>>|
            ids1.len() == ts.len() && #[trigger] manifest_words(g, d, s, ids1, ts) == w@ implies (q == end
                && ids@ == ids1 && Seq::new(tombs@.len(), |k: int| tombs@[k]@) == ts) by {
            assert(ids1.take(i as int) =~= ids1);
            assert(ts.take(i as int) =~= ts);
        }
    }
    if q != end {
        return Err(IndexError::CorruptSegment);
    }
    let m = Manifest {
        generation: w[2],
        next_doc_id: w[3],
        next_segment_id: w[4],
        segment_ids: ids,
        tombstones: tombs,
    };
    assert(m.tombstone_models() =~= Seq::new(m.tombstones@.len(), |k: int| m.tombstones@[k]@));
    assert(w@.drop_last() =~= seq![w@[0], w@[1], w@[2], w@[3], w@[4], n64] + w@.subrange(6, q as int));
    Ok(m)
}

fn copy_docs(v: &Vec<StoredDoc>) -> (r: Vec<StoredDoc>)
    ensures
        models(r@) == models(v@),
{
    let mut r: Vec<StoredDoc> = Vec::new();
    let mut i: usize = 0;
    while i < v.len()
        invariant
            i <= v.len(),
            models(r@) == models(v@).take(i as int),
        decreases v.len() - i,
    {
        let ghost prev = models(r@);
        r.push(v[i].copy());
        assert(models(r@) =~= prev.push(v@[i as int]@));
        i = i + 1;
        assert(models(r@) =~= models(v@).take(i as int));
    }
    assert(models(v@).take(v.len() as int) =~= models(v@));
    r
}

fn copy_bits(b: &Vec<bool>) -> (r: Vec<bool>)
    ensures
        r@ == b@,
{
    let mut r: Vec<bool> = Vec::new();
    let mut i: usize = 0;
    while i < b.len()
        invariant
            i <= b.len(),
            r@ == b@.take(i as int),
        decreases b.len() - i,
    {
        r.push(b[i]);
        i = i + 1;
        assert(r@ =~= b@.take(i as int));
    }
    assert(b@.take(b.len() as int) =~= b@);
    r
}

/// The file of a listed segment was read, carries the listed id and holds
/// one document per bit of the overlay.
pub open spec fn file_fits(f: Option<(u64, Vec<StoredDoc>)>, id: u64, bits: Seq<bool>) -> bool {
    match f {
        Some(x) => x.0 == id && x.1@.len() == bits.len(),
        None => false,
    }
}

/// The documents a segment file holds.
pub open spec fn file_docs(f: Option<(u64, Vec<StoredDoc>)>) -> Seq<DocModel> {
    match f {
        Some(x) => models(x.1@),
        None => seq![],
    }
}

/// The positions, among the first `n` listed segments, whose files fit.
pub open spec fn kept_positions(
    files: Seq<Option<(u64, Vec<StoredDoc>)>>,
    ids: Seq<u64>,
    tombs: Seq<Seq<bool>>,
    n: int,
) -> Seq<int>
    decreases n,
{
    if n <= 0 {
        seq![]
    } else {
        let p = kept_positions(files, ids, tombs, n - 1);
        if file_fits(files[n - 1], ids[n - 1], tombs[n - 1]) {
            p.push(n - 1)
        } else {
            p
        }
    }
}

proof fn lemma_kept_in_range(
    files: Seq<Option<(u64, Vec<StoredDoc>)>>,
    ids: Seq<u64>,
    tombs: Seq<Seq<bool>>,
    n: int,
)
    ensures
        forall|k: int| 0 <= k < kept_positions(files, ids, tombs, n).len() ==> 0 <= #[trigger] kept_positions(files, ids, tombs, n)[k] < n,
    decreases n,
{
    if n > 0 {
        lemma_kept_in_range(files, ids, tombs, n - 1);
        let p = kept_positions(files, ids, tombs, n - 1);
        let q = kept_positions(files, ids, tombs, n);
        assert forall|k: int| 0 <= k < q.len() implies 0 <= #[trigger] q[k] < n by {
            if k < p.len() {
                assert(q[k] == p[k]);
            }
        }
    }
}

/// The ids, among the first `n` listed segments, whose files do not fit.
pub open spec fn skipped_ids(
    files: Seq<Option<(u64, Vec<StoredDoc>)>>,
    ids: Seq<u64>,
    tombs: Seq<Seq<bool>>,
    n: int,
) -> Seq<u64>
    decreases n,
{
    if n <= 0 {
        seq![]
    } else {
        let p = skipped_ids(files, ids, tombs, n - 1);
        if file_fits(files[n - 1], ids[n - 1], tombs[n - 1]) {
            p
        } else {
            p.push(ids[n - 1])
        }
    }
}

impl Index {
    /// What the index's manifest lists.
    pub fn manifest(&self) -> (m: Manifest)
        requires
            self.wf(),
        ensures
            m.generation == self.generation,
            m.next_doc_id == self.next_doc_id,
            m.next_segment_id == self.next_segment_id,
            m.segment_ids@ == Seq::new(self.segments@.len(), |i: int| self.segments@[i].segment_id),
            m.tombstone_models() == self.tombstone_models(),
            m.segment_ids@.len() == m.tombstones@.len(),
    {
        let mut ids: Vec<u64> = Vec::new();
        let mut tombs: Vec<Vec<bool>> = Vec::new();
        let mut i: usize = 0;
        while i < self.segments.len()
            invariant
                i <= self.segments.len(),
                self.wf(),
                ids@ == Seq::new(i as nat, |k: int| self.segments@[k].segment_id),
                tombs@.len() == i,
                forall|k: int| 0 <= k < i ==> #[trigger] tombs@[k]@ == self.tombstones@[k]@,
            decreases self.segments.len() - i,
        {
            ids.push(self.segments[i].segment_id);
            tombs.push(copy_bits(&self.tombstones[i]));
            i = i + 1;
            assert(ids@ =~= Seq::new(i as nat, |k: int| self.segments@[k].segment_id));
        }
        let m = Manifest {
            generation: self.generation,
            next_doc_id: self.next_doc_id,
            next_segment_id: self.next_segment_id,
            segment_ids: ids,
            tombstones: tombs,
        };
        assert(m.tombstone_models() =~= self.tombstone_models());
        m
    }

    /// The file operations that make the index's current generation durable,
    /// where the manifest on disk lists its first `published` segments: the
    /// newest segment's file when there are more, then the manifest.
    pub fn commit_files(&self, published: usize) -> (r: Vec<FileOp>)
        requires
            self.wf(),
        ensures
            published < self.segments@.len() ==> op_models(r@) == commit_ops(
                self.segments@.last().segment_id,
                sealed(enc_segment_body(self.segments@.last().segment_id, models(self.segments@.last().docs@))),
                sealed(self.manifest_body()),
            ),
            published >= self.segments@.len() ==> op_models(r@) == publish_ops(sealed(self.manifest_body())),
    {
        let m = self.manifest();
        let words = encode_manifest(&m);
        let n = self.segments.len();
        if published < n {
            let s = &self.segments[n - 1];
            let seg = encode_segment(s.segment_id, &s.docs);
            commit_plan(Some((s.segment_id, seg)), words)
        } else {
            commit_plan(None, words)
        }
    }

    /// The words of the index's manifest, checksum excluded.
    pub open spec fn manifest_body(&self) -> Seq<u64> {
        seq![
            MANIFEST_TAG,
            SCHEMA,
            self.generation,
            self.next_doc_id,
            self.next_segment_id,
            self.segments@.len() as u64,
        ] + enc_entries(
            Seq::new(self.segments@.len(), |i: int| self.segments@[i].segment_id),
            self.tombstone_models(),
        )
    }

    /// An index put together from a manifest and the segment files it lists,
    /// in order (`None` for one that could not be read). A segment is kept
    /// exactly when its file was read, carries the listed id and has as many
    /// documents as its overlay; the others are left out and their ids
    /// reported, in order.
    pub fn restore(m: Manifest, files: Vec<Option<(u64, Vec<StoredDoc>)>>) -> (r: (Index, Vec<u64>))
        requires
            m.segment_ids@.len() == m.tombstones@.len(),
            files@.len() == m.segment_ids@.len(),
        ensures
            r.0.wf(),
            r.0.generation == m.generation,
            r.0.next_doc_id == m.next_doc_id,
            r.0.next_segment_id == m.next_segment_id,
            !r.0.writer_held,
            ({
                let kept = kept_positions(files@, m.segment_ids@, m.tombstone_models(), files@.len() as int);
                &&& r.0.segments@.len() == kept.len()
                &&& forall|k: int| 0 <= k < kept.len() ==> {
                    &&& #[trigger] r.0.segments@[k].segment_id == m.segment_ids@[kept[k]]
                    &&& models(r.0.segments@[k].docs@) == file_docs(files@[kept[k]])
                    &&& r.0.tombstone_models()[k] == m.tombstone_models()[kept[k]]
                }
            }),
            r.1@ == skipped_ids(files@, m.segment_ids@, m.tombstone_models(), files@.len() as int),
    {
        let ghost mt = m.tombstone_models();
        let ghost fs = files@;
        let ghost ids = m.segment_ids@;
        let n = files.len();
        let mut segments: Vec<Segment> = Vec::new();
        let mut tombs: Vec<Vec<bool>> = Vec::new();
        let mut skipped: Vec<u64> = Vec::new();
        let ghost mut kept: Seq<int> = seq![];
        let mut i: usize = 0;
        while i < n
            invariant
                i <= n,
                n == files@.len(),
                fs == files@,
                ids == m.segment_ids@,
                m.segment_ids@.len() == n,
                m.tombstones@.len() == n,
                mt == m.tombstone_models(),
                segments@.len() == tombs@.len(),
                forall|k: int| 0 <= k < segments@.len() ==> #[trigger] tombs@[k]@.len()
                    == segments@[k].docs@.len(),
                kept == kept_positions(fs, ids, mt, i as int),
                segments@.len() == kept.len(),
                forall|k: int| 0 <= k < segments@.len() ==> {
                    &&& #[trigger] segments@[k].segment_id == ids[kept[k]]
                    &&& models(segments@[k].docs@) == file_docs(fs[kept[k]])
                    &&& tombs@[k]@ == mt[kept[k]]
                },
                skipped@ == skipped_ids(fs, ids, mt, i as int),
            decreases n - i,
        {
            assert(mt[i as int] == m.tombstones@[i as int]@);
            let fits = match &files[i] {
                Some((id, docs)) => *id == m.segment_ids[i] && docs.len() == m.tombstones[i].len(),
                None => false,
            };
            assert(fits == file_fits(fs[i as int], ids[i as int], mt[i as int]));
            if fits {
                if let Some((id, docs)) = &files[i] {
                    let c = copy_docs(docs);
                    assert(c@.len() == models(c@).len() && docs@.len() == models(docs@).len());
                    assert(file_docs(fs[i as int]) == models(docs@));
                    let ghost os = segments@;
                    let ghost ot = tombs@;
                    segments.push(Segment { segment_id: *id, docs: c });
                    tombs.push(copy_bits(&m.tombstones[i]));
                    proof {
                        let ok = kept;
                        kept = kept.push(i as int);
                        assert forall|k: int| 0 <= k < segments@.len() implies {
                            &&& #[trigger] segments@[k].segment_id == ids[kept[k]]
                            &&& models(segments@[k].docs@) == file_docs(fs[kept[k]])
                            &&& tombs@[k]@ == mt[kept[k]]
                        } by {
                            if k < os.len() {
                                assert(segments@[k] == os[k] && tombs@[k] == ot[k] && kept[k] == ok[k]);
                                assert(os[k].segment_id == ids[ok[k]]);
                            }
                        }
                    }
                }
            } else {
                skipped.push(m.segment_ids[i]);
            }
            i = i + 1;
        }
        proof {
            lemma_kept_in_range(fs, ids, mt, n as int);
        }
        let index = Index {
            generation: m.generation,
            next_doc_id: m.next_doc_id,
            next_segment_id: m.next_segment_id,
            segments,
            tombstones: tombs,
            writer_held: false,
        };
        proof {
            let kept = kept_positions(fs, ids, mt, n as int);
            assert forall|k: int| 0 <= k < kept.len() implies index.tombstone_models()[k] == mt[kept[k]] by {
                assert(index.tombstone_models()[k] == index.tombstones@[k]@);
                assert(index.segments@[k].segment_id == ids[kept[k]]);
            }
        }
        (index, skipped)
    }
}

} // verus!
