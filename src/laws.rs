//! What holds across the writer, the readers and the searcher.
use vstd::prelude::*;
use crate::index::{
    DocModel, committed_overlays, committed_segments, committed_tombstones, lemma_live_in_clear,
    live_docs, live_in, tombstoned,
};
use crate::search::{
    ClauseModel, HitModel, candidates, clause_freq, clause_matches, count_phrase, freq_in,
    group_matches, hit_of, insert_pos, phrase_at, query_matches, rank, ranked, ranks_before, top_k,
};

verus! {

/// The query of one term, searched in both default fields.
pub open spec fn term_query(t: Seq<char>) -> Seq<Seq<ClauseModel>> {
    seq![seq![ClauseModel { field: None, terms: seq![t] }]]
}

/// Some result is for the document with id `id`.
pub open spec fn has_hit(r: Seq<HitModel>, id: u64) -> bool {
    exists|h: int| 0 <= h < r.len() && #[trigger] r[h].doc_id == id
}

/// Each result comes after none of the results that follow it.
pub open spec fn sorted_by_rank(r: Seq<HitModel>) -> bool {
    forall|i: int, j: int| 0 <= i < j < r.len() ==> !ranks_before(#[trigger] r[j], #[trigger] r[i])
}

proof fn lemma_count_phrase_pos(terms: Seq<Seq<char>>, p: Seq<Seq<char>>, i: int, n: int)
    requires
        phrase_at(terms, p, i),
        i < n,
    ensures
        count_phrase(terms, p, n) > 0,
    decreases n,
{
    if n - 1 > i {
        lemma_count_phrase_pos(terms, p, i, n - 1);
    }
}

proof fn lemma_term_occurs(terms: Seq<Seq<char>>, t: Seq<char>)
    requires
        terms.contains(t),
    ensures
        freq_in(terms, seq![t]) > 0,
{
    let i = choose|i: int| 0 <= i < terms.len() && terms[i] == t;
    assert(terms.subrange(i, i + 1) =~= seq![t]);
    lemma_count_phrase_pos(terms, seq![t], i, terms.len() as int);
}

proof fn lemma_term_matches(d: DocModel, t: Seq<char>)
    requires
        d.title_terms.contains(t) || d.body_terms.contains(t),
    ensures
        query_matches(d, term_query(t)),
{
    if d.title_terms.contains(t) {
        lemma_term_occurs(d.title_terms, t);
    } else {
        lemma_term_occurs(d.body_terms, t);
    }
    let q = term_query(t);
    assert(clause_matches(d, q[0][0]));
    assert(group_matches(d, q[0]));
}

proof fn lemma_candidates_hold(all: Seq<DocModel>, docs: Seq<DocModel>, q: Seq<Seq<ClauseModel>>, j: int)
    requires
        0 <= j < docs.len(),
        query_matches(docs[j], q),
    ensures
        candidates(all, docs, q).contains(hit_of(all, docs[j], q)),
    decreases docs.len(),
{
    let p = candidates(all, docs.drop_last(), q);
    if j < docs.len() - 1 {
        lemma_candidates_hold(all, docs.drop_last(), q, j);
        let k = choose|k: int| 0 <= k < p.len() && p[k] == hit_of(all, docs[j], q);
        if query_matches(docs.last(), q) {
            assert(p.push(hit_of(all, docs.last(), q))[k] == p[k]);
        }
    } else {
        assert(p.push(hit_of(all, docs.last(), q))[p.len() as int] == hit_of(all, docs[j], q));
    }
}

proof fn lemma_candidates_from(all: Seq<DocModel>, docs: Seq<DocModel>, q: Seq<Seq<ClauseModel>>)
    ensures
        candidates(all, docs, q).len() <= docs.len(),
        forall|x: HitModel|
            candidates(all, docs, q).contains(x) ==> exists|j: int|
                0 <= j < docs.len() && #[trigger] docs[j].doc_id == x.doc_id,
    decreases docs.len(),
{
    if docs.len() > 0 {
        let p = candidates(all, docs.drop_last(), q);
        lemma_candidates_from(all, docs.drop_last(), q);
        assert forall|x: HitModel| candidates(all, docs, q).contains(x) implies exists|j: int|
            0 <= j < docs.len() && #[trigger] docs[j].doc_id == x.doc_id by {
            if p.contains(x) {
                let j = choose|j: int| 0 <= j < docs.drop_last().len() && docs.drop_last()[j].doc_id == x.doc_id;
                assert(docs[j].doc_id == x.doc_id);
            } else {
                let k = choose|k: int| 0 <= k < candidates(all, docs, q).len() && candidates(all, docs, q)[k] == x;
                assert(k == p.len());
                assert(docs[docs.len() - 1].doc_id == x.doc_id);
            }
        }
    }
}

proof fn lemma_insert_pos_le(s: Seq<HitModel>, x: HitModel)
    ensures
        insert_pos(s, x) <= s.len(),
    decreases s.len(),
{
    if s.len() > 0 && !ranks_before(x, s[0]) {
        lemma_insert_pos_le(s.drop_first(), x);
    }
}

proof fn lemma_insert_pos_bounds(s: Seq<HitModel>, x: HitModel)
    ensures
        forall|i: int| 0 <= i < insert_pos(s, x) ==> !ranks_before(x, #[trigger] s[i]),
        insert_pos(s, x) < s.len() ==> ranks_before(x, s[insert_pos(s, x) as int]),
    decreases s.len(),
{
    lemma_insert_pos_le(s, x);
    if s.len() > 0 && !ranks_before(x, s[0]) {
        lemma_insert_pos_bounds(s.drop_first(), x);
        assert forall|i: int| 0 <= i < insert_pos(s, x) implies !ranks_before(x, #[trigger] s[i]) by {
            if i > 0 {
                assert(s[i] == s.drop_first()[i - 1]);
            }
        }
    }
}

/// Ranking keeps the candidates, puts none before one it ranks after, and
/// adds nothing.
pub proof fn lemma_rank(c: Seq<HitModel>)
    ensures
        rank(c).len() == c.len(),
        forall|x: HitModel| rank(c).contains(x) <==> c.contains(x),
        sorted_by_rank(rank(c)),
    decreases c.len(),
{
    if c.len() > 0 {
        let r = rank(c.drop_last());
        let x = c.last();
        lemma_rank(c.drop_last());
        lemma_insert_pos_bounds(r, x);
        lemma_insert_pos_le(r, x);
        let pos = insert_pos(r, x) as int;
        let n = r.insert(pos, x);
        r.insert_ensures(pos, x);
        assert forall|y: HitModel| n.contains(y) <==> c.contains(y) by {
            if n.contains(y) {
                let k = choose|k: int| 0 <= k < n.len() && n[k] == y;
                if k < pos {
                    assert(r[k] == y);
                    assert(c.drop_last().contains(y));
                    let m = choose|m: int| 0 <= m < c.drop_last().len() && c.drop_last()[m] == y;
                    assert(c[m] == y);
                } else if k > pos {
                    assert(r[k - 1] == y);
                    assert(c.drop_last().contains(y));
                    let m = choose|m: int| 0 <= m < c.drop_last().len() && c.drop_last()[m] == y;
                    assert(c[m] == y);
                } else {
                    assert(c[c.len() - 1] == y);
                }
            }
            if c.contains(y) {
                let m = choose|m: int| 0 <= m < c.len() && c[m] == y;
                if m < c.len() - 1 {
                    assert(c.drop_last()[m] == y);
                    assert(c.drop_last().contains(y));
                    assert(r.contains(y));
                    let k = choose|k: int| 0 <= k < r.len() && r[k] == y;
                    if k < pos {
                        assert(n[k] == y);
                    } else {
                        assert(n[k + 1] == y);
                    }
                } else {
                    assert(n[pos] == y);
                }
            }
        }
        assert forall|i: int, j: int| 0 <= i < j < n.len() implies !ranks_before(
            #[trigger] n[j],
            #[trigger] n[i],
        ) by {
            if j < pos {
                assert(n[i] == r[i] && n[j] == r[j]);
            } else if j == pos {
                assert(n[i] == r[i]);
                assert(!ranks_before(x, r[i]));
            } else if i > pos {
                assert(n[i] == r[i - 1] && n[j] == r[j - 1]);
            } else if i == pos {
                assert(n[j] == r[j - 1]);
                assert(ranks_before(x, r[pos]));
                if j - 1 > pos {
                    assert(!ranks_before(r[j - 1], r[pos]));
                }
            } else {
                assert(n[i] == r[i] && n[j] == r[j - 1]);
            }
        }
    }
}

/// Every result is for one of the searched documents.
proof fn lemma_results_from(docs: Seq<DocModel>, q: Seq<Seq<ClauseModel>>, k: nat, id: u64)
    requires
        forall|j: int| 0 <= j < docs.len() ==> #[trigger] docs[j].doc_id != id,
    ensures
        !has_hit(top_k(docs, q, k), id),
{
    let c = candidates(docs, docs, q);
    lemma_candidates_from(docs, docs, q);
    lemma_rank(c);
    let r = ranked(docs, q);
    if has_hit(top_k(docs, q, k), id) {
        let h = choose|h: int| 0 <= h < top_k(docs, q, k).len() && #[trigger] top_k(docs, q, k)[h].doc_id == id;
        assert(r[h] == top_k(docs, q, k)[h]);
        assert(r.contains(r[h]));
        assert(c.contains(r[h]));
    }
}

/// A searched document that matches a query is among its first `k` results
/// where `k` covers every match.
proof fn lemma_match_found(docs: Seq<DocModel>, j: int, q: Seq<Seq<ClauseModel>>, k: nat)
    requires
        0 <= j < docs.len(),
        query_matches(docs[j], q),
        k >= candidates(docs, docs, q).len(),
    ensures
        has_hit(top_k(docs, q, k), docs[j].doc_id),
{
    lemma_candidates_hold(docs, docs, q, j);
    let c = candidates(docs, docs, q);
    lemma_rank(c);
    let r = ranked(docs, q);
    assert(r.contains(hit_of(docs, docs[j], q)));
    let h = choose|h: int| 0 <= h < r.len() && r[h] == hit_of(docs, docs[j], q);
    assert(top_k(docs, q, k)[h].doc_id == docs[j].doc_id);
}

/// The documents a commit leaves searchable: those live before it, then
/// the committed ones.
proof fn lemma_committed_live(segs: Seq<Seq<DocModel>>, tombs: Seq<Seq<bool>>, dels: Seq<u64>, buffer: Seq<DocModel>)
    requires
        buffer.len() > 0,
    ensures
        live_docs(committed_segments(segs, buffer), committed_overlays(segs, tombs, dels, buffer))
            == live_docs(segs, committed_tombstones(segs, tombs, dels)) + buffer,
{
    let s2 = committed_segments(segs, buffer);
    let t2 = committed_overlays(segs, tombs, dels, buffer);
    assert(s2.drop_last() =~= segs);
    assert(t2.drop_last() =~= committed_tombstones(segs, tombs, dels));
    lemma_live_in_clear(buffer);
}

proof fn lemma_live_in_from(docs: Seq<DocModel>, bits: Seq<bool>, x: DocModel)
    requires
        bits.len() == docs.len(),
        live_in(docs, bits).contains(x),
    ensures
        exists|j: int| 0 <= j < docs.len() && docs[j] == x && !bits[j],
    decreases docs.len(),
{
    let p = live_in(docs.drop_last(), bits.drop_last());
    if p.contains(x) {
        lemma_live_in_from(docs.drop_last(), bits.drop_last(), x);
        let j = choose|j: int| 0 <= j < docs.drop_last().len() && docs.drop_last()[j] == x && !bits.drop_last()[j];
        assert(docs[j] == x && !bits[j]);
    } else {
        let k = choose|k: int| 0 <= k < live_in(docs, bits).len() && live_in(docs, bits)[k] == x;
        assert(!bits.last() && k == p.len());
        assert(docs[docs.len() - 1] == x);
    }
}

proof fn lemma_live_docs_from(segs: Seq<Seq<DocModel>>, tombs: Seq<Seq<bool>>, x: DocModel)
    requires
        segs.len() == tombs.len(),
        forall|i: int| 0 <= i < segs.len() ==> #[trigger] tombs[i].len() == segs[i].len(),
        live_docs(segs, tombs).contains(x),
    ensures
        exists|i: int, j: int| 0 <= i < segs.len() && 0 <= j < segs[i].len() && segs[i][j] == x && !tombs[i][j],
    decreases segs.len(),
{
    let a = live_docs(segs.drop_last(), tombs.drop_last());
    let b = live_in(segs.last(), tombs.last());
    let k = choose|k: int| 0 <= k < (a + b).len() && (a + b)[k] == x;
    if k < a.len() {
        assert(a[k] == x);
        assert forall|i: int| 0 <= i < segs.drop_last().len() implies #[trigger] tombs.drop_last()[i].len() == segs.drop_last()[i].len() by {
            assert(tombs[i].len() == segs[i].len());
        }
        lemma_live_docs_from(segs.drop_last(), tombs.drop_last(), x);
        let (i, j) = choose|i: int, j: int| 0 <= i < segs.drop_last().len() && 0 <= j < segs.drop_last()[i].len()
            && segs.drop_last()[i][j] == x && !tombs.drop_last()[i][j];
        assert(segs[i][j] == x && !tombs[i][j]);
    } else {
        assert(b[k - a.len()] == x);
        assert(tombs[segs.len() - 1].len() == segs[segs.len() - 1].len());
        lemma_live_in_from(segs.last(), tombs.last(), x);
    }
}

/// A document committed with a term is found by that term's query in every
/// searcher on the committed generation, where `k` covers every document
/// that holds the term.
pub proof fn law_committed_term_found(
    segs: Seq<Seq<DocModel>>,
    tombs: Seq<Seq<bool>>,
    dels: Seq<u64>,
    buffer: Seq<DocModel>,
    j: int,
    t: Seq<char>,
    k: nat,
)
    requires
        0 <= j < buffer.len(),
        buffer[j].title_terms.contains(t) || buffer[j].body_terms.contains(t),
        k >= candidates(
            live_docs(committed_segments(segs, buffer), committed_overlays(segs, tombs, dels, buffer)),
            live_docs(committed_segments(segs, buffer), committed_overlays(segs, tombs, dels, buffer)),
            term_query(t),
        ).len(),
    ensures
        has_hit(
            top_k(
                live_docs(committed_segments(segs, buffer), committed_overlays(segs, tombs, dels, buffer)),
                term_query(t),
                k,
            ),
            buffer[j].doc_id,
        ),
{
    lemma_term_matches(buffer[j], t);
    law_committed_match_found(segs, tombs, dels, buffer, j, term_query(t), k);
}

/// A committed document is found by every query it matches in every
/// searcher on the committed generation, where `k` covers every match.
pub proof fn law_committed_match_found(
    segs: Seq<Seq<DocModel>>,
    tombs: Seq<Seq<bool>>,
    dels: Seq<u64>,
    buffer: Seq<DocModel>,
    j: int,
    q: Seq<Seq<ClauseModel>>,
    k: nat,
)
    requires
        0 <= j < buffer.len(),
        query_matches(buffer[j], q),
        k >= candidates(
            live_docs(committed_segments(segs, buffer), committed_overlays(segs, tombs, dels, buffer)),
            live_docs(committed_segments(segs, buffer), committed_overlays(segs, tombs, dels, buffer)),
            q,
        ).len(),
    ensures
        has_hit(
            top_k(live_docs(committed_segments(segs, buffer), committed_overlays(segs, tombs, dels, buffer)), q, k),
            buffer[j].doc_id,
        ),
{
    let before = live_docs(segs, committed_tombstones(segs, tombs, dels));
    lemma_committed_live(segs, tombs, dels, buffer);
    let docs = live_docs(committed_segments(segs, buffer), committed_overlays(segs, tombs, dels, buffer));
    assert(docs[before.len() + j] == buffer[j]);
    lemma_match_found(docs, before.len() + j, q, k);
}

/// After `delete(id)` and a commit, no query returns the document: `id` is
/// among the pending deletes and not among the documents still buffered.
pub proof fn law_deleted_not_found(
    segs: Seq<Seq<DocModel>>,
    tombs: Seq<Seq<bool>>,
    dels: Seq<u64>,
    buffer: Seq<DocModel>,
    id: u64,
    q: Seq<Seq<ClauseModel>>,
    k: nat,
)
    requires
        segs.len() == tombs.len(),
        forall|i: int| 0 <= i < segs.len() ==> #[trigger] tombs[i].len() == segs[i].len(),
        dels.contains(id),
        forall|m: int| 0 <= m < buffer.len() ==> #[trigger] buffer[m].doc_id != id,
    ensures
        !has_hit(
            top_k(
                live_docs(committed_segments(segs, buffer), committed_overlays(segs, tombs, dels, buffer)),
                q,
                k,
            ),
            id,
        ),
{
    let s2 = committed_segments(segs, buffer);
    let t2 = committed_overlays(segs, tombs, dels, buffer);
    let docs = live_docs(s2, t2);
    assert forall|i: int| 0 <= i < s2.len() implies #[trigger] t2[i].len() == s2[i].len() by {
        if i < segs.len() {
            assert(tombs[i].len() == segs[i].len());
        }
    }
    assert forall|j: int| 0 <= j < docs.len() implies #[trigger] docs[j].doc_id != id by {
        assert(docs.contains(docs[j]));
        lemma_live_docs_from(s2, t2, docs[j]);
        let (a, b) = choose|a: int, b: int| 0 <= a < s2.len() && 0 <= b < s2[a].len() && s2[a][b] == docs[j] && !t2[a][b];
        if a < segs.len() {
            assert(t2[a] == tombstoned(segs[a], tombs[a], dels));
            assert(tombs[a].len() == segs[a].len());
        } else {
            assert(s2[a] == buffer);
        }
    }
    lemma_results_from(docs, q, k, id);
}

/// For one index and query, the first `k1` results are the first `k1` of the
/// first `k2` for any `k2 >= k1`, and each list runs by descending score,
/// then ascending id.
pub proof fn law_top_k_prefix(docs: Seq<DocModel>, q: Seq<Seq<ClauseModel>>, k1: nat, k2: nat)
    requires
        k1 <= k2,
    ensures
        top_k(docs, q, k1) == (if k1 < top_k(docs, q, k2).len() {
            top_k(docs, q, k2).take(k1 as int)
        } else {
            top_k(docs, q, k2)
        }),
        sorted_by_rank(top_k(docs, q, k1)),
        sorted_by_rank(top_k(docs, q, k2)),
{
    lemma_rank(candidates(docs, docs, q));
    let r = ranked(docs, q);
    if k2 < r.len() {
        assert(r.take(k2 as int).take(k1 as int) =~= r.take(k1 as int));
    }
    assert forall|i: int, j: int| 0 <= i < j < top_k(docs, q, k1).len() implies !ranks_before(
        #[trigger] top_k(docs, q, k1)[j],
        #[trigger] top_k(docs, q, k1)[i],
    ) by {
        assert(top_k(docs, q, k1)[j] == r[j] && top_k(docs, q, k1)[i] == r[i]);
    }
    assert forall|i: int, j: int| 0 <= i < j < top_k(docs, q, k2).len() implies !ranks_before(
        #[trigger] top_k(docs, q, k2)[j],
        #[trigger] top_k(docs, q, k2)[i],
    ) by {
        assert(top_k(docs, q, k2)[j] == r[j] && top_k(docs, q, k2)[i] == r[i]);
    }
}

/// A searcher taken before a commit does not see a document that the commit
/// adds under a new id; one taken after the commit finds it by every query
/// it matches, where `k` covers every match.
pub proof fn law_snapshot_isolation(
    segs: Seq<Seq<DocModel>>,
    tombs: Seq<Seq<bool>>,
    dels: Seq<u64>,
    buffer: Seq<DocModel>,
    j: int,
    q: Seq<Seq<ClauseModel>>,
    k: nat,
)
    requires
        0 <= j < buffer.len(),
        query_matches(buffer[j], q),
        forall|m: int| 0 <= m < live_docs(segs, tombs).len()
            ==> #[trigger] live_docs(segs, tombs)[m].doc_id != buffer[j].doc_id,
        k >= candidates(
            live_docs(committed_segments(segs, buffer), committed_overlays(segs, tombs, dels, buffer)),
            live_docs(committed_segments(segs, buffer), committed_overlays(segs, tombs, dels, buffer)),
            q,
        ).len(),
    ensures
        !has_hit(top_k(live_docs(segs, tombs), q, k), buffer[j].doc_id),
        has_hit(
            top_k(live_docs(committed_segments(segs, buffer), committed_overlays(segs, tombs, dels, buffer)), q, k),
            buffer[j].doc_id,
        ),
{
    lemma_results_from(live_docs(segs, tombs), q, k, buffer[j].doc_id);
    law_committed_match_found(segs, tombs, dels, buffer, j, q, k);
}

} // verus!
