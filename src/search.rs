//! Queries, scoring and ranked retrieval over a point-in-time set of
//! documents.
use vstd::prelude::*;
use crate::index::{DocModel, StoredDoc, Reader, models};
use crate::laws::{lemma_rank, sorted_by_rank};

verus! {

/// The fields a clause can be restricted to.
#[derive(Debug, PartialEq, Eq, Structural, Clone, Copy)]
pub enum FieldName {
    Title,
    Body,
}

/// What a clause is: a phrase of one or more analyzed terms (a single term
/// being a phrase of one), in one field or in both default fields.
pub ghost struct ClauseModel {
    pub field: Option<FieldName>,
    pub terms: Seq<Seq<char>>,
}

/// A clause of a query.
pub struct Clause {
    pub field: Option<FieldName>,
    pub terms: Vec<Vec<char>>,
}

impl View for Clause {
    type V = ClauseModel;

    open spec fn view(&self) -> ClauseModel {
        ClauseModel { field: self.field, terms: self.terms.deep_view() }
    }
}

/// The clauses of one group, as models.
pub open spec fn group_model(g: Seq<Clause>) -> Seq<ClauseModel> {
    g.map_values(|c: Clause| c@)
}

/// A compiled query: a document matches when every clause of some group
/// matches it.
pub struct Query {
    pub groups: Vec<Vec<Clause>>,
}

impl View for Query {
    type V = Seq<Seq<ClauseModel>>;

    open spec fn view(&self) -> Seq<Seq<ClauseModel>> {
        Seq::new(self.groups@.len(), |i: int| group_model(self.groups@[i]@))
    }
}

/// The phrase `p` starts at position `i` of `terms`.
pub open spec fn phrase_at(terms: Seq<Seq<char>>, p: Seq<Seq<char>>, i: int) -> bool {
    &&& 0 <= i
    &&& i + p.len() <= terms.len()
    &&& terms.subrange(i, i + p.len()) == p
}

/// How many occurrences of `p` start before position `n`.
pub open spec fn count_phrase(terms: Seq<Seq<char>>, p: Seq<Seq<char>>, n: int) -> nat
    decreases n,
{
    if n <= 0 {
        0
    } else {
        count_phrase(terms, p, n - 1) + if phrase_at(terms, p, n - 1) {
            1nat
        } else {
            0nat
        }
    }
}

/// How often a non-empty phrase occurs in a field's terms.
pub open spec fn freq_in(terms: Seq<Seq<char>>, p: Seq<Seq<char>>) -> nat {
    if p.len() == 0 {
        0
    } else {
        count_phrase(terms, p, terms.len() as int)
    }
}

/// How often a clause occurs in a document.
pub open spec fn clause_freq(d: DocModel, c: ClauseModel) -> nat {
    match c.field {
        Some(FieldName::Title) => freq_in(d.title_terms, c.terms),
        Some(FieldName::Body) => freq_in(d.body_terms, c.terms),
        None => freq_in(d.title_terms, c.terms) + freq_in(d.body_terms, c.terms),
    }
}

/// A clause matches a document where it occurs at least once.
pub open spec fn clause_matches(d: DocModel, c: ClauseModel) -> bool {
    clause_freq(d, c) > 0
}

/// Every clause of a group matches the document.
pub open spec fn group_matches(d: DocModel, g: Seq<ClauseModel>) -> bool {
    forall|c: int| 0 <= c < g.len() ==> #[trigger] clause_matches(d, g[c])
}

/// A document matches a query where some group matches it.
pub open spec fn query_matches(d: DocModel, q: Seq<Seq<ClauseModel>>) -> bool {
    exists|g: int| 0 <= g < q.len() && #[trigger] group_matches(d, q[g])
}

fn same_term(a: &Vec<char>, b: &Vec<char>) -> (r: bool)
    ensures
        r == (a@ == b@),
{
    if a.len() != b.len() {
        return false;
    }
    let mut i: usize = 0;
    while i < a.len()
        invariant
            i <= a.len(),
            a@.len() == b@.len(),
            forall|k: int| 0 <= k < i ==> a@[k] == b@[k],
        decreases a.len() - i,
    {
        if a[i] != b[i] {
            return false;
        }
        i = i + 1;
    }
    assert(a@ =~= b@);
    true
}

fn phrase_starts(terms: &Vec<Vec<char>>, p: &Vec<Vec<char>>, i: usize) -> (r: bool)
    requires
        i < terms@.len(),
    ensures
        r == phrase_at(terms.deep_view(), p.deep_view(), i as int),
{
    if p.len() > terms.len() - i {
        return false;
    }
    let mut k: usize = 0;
    while k < p.len()
        invariant
            k <= p.len(),
            i < terms@.len(),
            i + p@.len() <= terms@.len(),
            forall|m: int| 0 <= m < k ==> terms.deep_view()[i + m] == p.deep_view()[m],
        decreases p.len() - k,
    {
        assert(k < p@.len());
        assert(i + k < terms@.len());
        assert(terms@.len() == terms.len());
        let ik: usize = i + k;
        if !same_term(&terms[ik], &p[k]) {
            assert(terms.deep_view()[ik as int] == terms@[ik as int]@);
            assert(p.deep_view()[k as int] == p@[k as int]@);
            assert(terms.deep_view().subrange(i as int, i + p@.len())[k as int]
                != p.deep_view()[k as int]);
            return false;
        }
        k = k + 1;
    }
    assert(terms.deep_view().subrange(i as int, i + p@.len()) =~= p.deep_view());
    true
}

/// How often a phrase occurs in a field's terms; zero for an empty phrase.
pub fn phrase_freq(terms: &Vec<Vec<char>>, p: &Vec<Vec<char>>) -> (r: usize)
    ensures
        r == freq_in(terms.deep_view(), p.deep_view()),
{
    if p.len() == 0 {
        return 0;
    }
    let mut r: usize = 0;
    let mut i: usize = 0;
    while i < terms.len()
        invariant
            i <= terms.len(),
            p@.len() > 0,
            r == count_phrase(terms.deep_view(), p.deep_view(), i as int),
            r <= i,
        decreases terms.len() - i,
    {
        if phrase_starts(terms, p, i) {
            r = r + 1;
        }
        i = i + 1;
    }
    r
}

/// How often a clause occurs in a document.
pub fn clause_frequency(d: &StoredDoc, c: &Clause) -> (r: u128)
    ensures
        r == clause_freq(d@, c@),
{
    match c.field {
        Some(FieldName::Title) => phrase_freq(&d.title_terms, &c.terms) as u128,
        Some(FieldName::Body) => phrase_freq(&d.body_terms, &c.terms) as u128,
        None => phrase_freq(&d.title_terms, &c.terms) as u128 + phrase_freq(&d.body_terms, &c.terms) as u128,
    }
}

/// The floor of the base-two logarithm; zero below two.
pub open spec fn log2_floor(x: nat) -> nat
    decreases x,
{
    if x < 2 {
        0
    } else {
        1 + log2_floor(x / 2)
    }
}

/// Integer inverse document frequency: `floor(log2(n / df))` for the `df`
/// of `n` documents that hold a clause, an integer stand-in for
/// `log(n / df)`; a clause that every document holds weighs nothing.
pub open spec fn idf(n: nat, df: nat) -> nat {
    if df == 0 {
        0
    } else {
        log2_floor(n / df)
    }
}

/// A value capped at the largest score.
pub open spec fn cap(x: nat) -> nat {
    if x > u64::MAX {
        u64::MAX as nat
    } else {
        x
    }
}

/// How many of the documents a clause matches.
pub open spec fn doc_freq(docs: Seq<DocModel>, c: ClauseModel) -> nat
    decreases docs.len(),
{
    if docs.len() == 0 {
        0
    } else {
        doc_freq(docs.drop_last(), c) + if clause_matches(docs.last(), c) {
            1nat
        } else {
            0nat
        }
    }
}

/// A clause's weight in a document: its frequency there times its inverse
/// document frequency among all the documents.
pub open spec fn clause_weight(all: Seq<DocModel>, d: DocModel, c: ClauseModel) -> nat {
    cap(clause_freq(d, c) * idf(all.len(), doc_freq(all, c)))
}

/// The capped sum of the weights of a group's clauses.
pub open spec fn group_score(all: Seq<DocModel>, d: DocModel, g: Seq<ClauseModel>) -> nat
    decreases g.len(),
{
    if g.len() == 0 {
        0
    } else {
        cap(group_score(all, d, g.drop_last()) + clause_weight(all, d, g.last()))
    }
}

/// A document's score: the capped sum of the weights of all the clauses of
/// the query that it holds.
pub open spec fn query_score(all: Seq<DocModel>, d: DocModel, q: Seq<Seq<ClauseModel>>) -> nat
    decreases q.len(),
{
    if q.len() == 0 {
        0
    } else {
        cap(query_score(all, d, q.drop_last()) + group_score(all, d, q.last()))
    }
}

proof fn lemma_log2_floor_le(x: nat)
    ensures
        log2_floor(x) <= x,
    decreases x,
{
    if x >= 2 {
        lemma_log2_floor_le(x / 2);
    }
}

fn ilog2(x: usize) -> (r: u64)
    ensures
        r == log2_floor(x as nat),
{
    proof {
        lemma_log2_floor_le(x as nat);
    }
    let mut y: usize = x;
    let mut r: u64 = 0;
    while y >= 2
        invariant
            r + log2_floor(y as nat) == log2_floor(x as nat),
            log2_floor(x as nat) <= x,
        decreases y,
    {
        y = y / 2;
        r = r + 1;
    }
    r
}

fn count_matching(docs: &Vec<StoredDoc>, c: &Clause) -> (r: usize)
    ensures
        r == doc_freq(models(docs@), c@),
{
    let ghost all = models(docs@);
    let mut r: usize = 0;
    let mut i: usize = 0;
    while i < docs.len()
        invariant
            i <= docs.len(),
            all == models(docs@),
            r == doc_freq(all.take(i as int), c@),
            r <= i,
        decreases docs.len() - i,
    {
        assert(all.take(i + 1).drop_last() =~= all.take(i as int));
        if clause_frequency(&docs[i], c) > 0 {
            r = r + 1;
        }
        i = i + 1;
    }
    assert(all.take(docs@.len() as int) =~= all);
    r
}

/// How many documents each clause of the query matches, group by group.
fn doc_freq_table(docs: &Vec<StoredDoc>, q: &Query) -> (t: Vec<Vec<usize>>)
    ensures
        t@.len() == q@.len(),
        forall|g: int| 0 <= g < q@.len() ==> #[trigger] t@[g]@.len() == q@[g].len(),
        forall|g: int, c: int|
            0 <= g < q@.len() && 0 <= c < q@[g].len() ==> #[trigger] t@[g]@[c] == doc_freq(
                models(docs@),
                q@[g][c],
            ),
{
    let mut t: Vec<Vec<usize>> = Vec::new();
    let mut g: usize = 0;
    while g < q.groups.len()
        invariant
            g <= q.groups.len(),
            t@.len() == g,
            forall|h: int| 0 <= h < g ==> #[trigger] t@[h]@.len() == q@[h].len(),
            forall|h: int, c: int|
                0 <= h < g && 0 <= c < q@[h].len() ==> #[trigger] t@[h]@[c] == doc_freq(
                    models(docs@),
                    q@[h][c],
                ),
        decreases q.groups.len() - g,
    {
        let group = &q.groups[g];
        let mut row: Vec<usize> = Vec::new();
        let mut c: usize = 0;
        while c < group.len()
            invariant
                c <= group.len(),
                g < q@.len(),
                group@ == q.groups@[g as int]@,
                row@.len() == c,
                forall|m: int| 0 <= m < c ==> #[trigger] row@[m] == doc_freq(models(docs@), q@[g as int][m]),
            decreases group.len() - c,
        {
            row.push(count_matching(docs, &group[c]));
            c = c + 1;
        }
        t.push(row);
        g = g + 1;
    }
    t
}

/// The weight of one clause in one document.
fn weight(n: usize, df: usize, d: &StoredDoc, c: &Clause, all: Ghost<Seq<DocModel>>) -> (r: u64)
    requires
        n == all@.len(),
        df == doc_freq(all@, c@),
    ensures
        r == clause_weight(all@, d@, c@),
{
    let f = clause_frequency(d, c);
    if f == 0 || df == 0 {
        assert(f * idf(n as nat, df as nat) == 0) by (nonlinear_arith)
            requires
                f == 0 || idf(n as nat, df as nat) == 0;
        return 0;
    }
    let w: u128 = ilog2(n / df) as u128;
    proof {
        lemma_log2_floor_le((n / df) as nat);
    }
    assert(w <= 0x1_0000_0000_0000_0000);
    if f > (u64::MAX as u128) {
        if w == 0 {
            assert(f * w == 0) by (nonlinear_arith)
                requires
                    w == 0;
            return 0;
        }
        assert(f * w >= f) by (nonlinear_arith)
            requires
                w >= 1;
        return u64::MAX;
    }
    assert(f * w <= u64::MAX * 0x1_0000_0000_0000_0000) by (nonlinear_arith)
        requires
            f <= u64::MAX,
            w <= 0x1_0000_0000_0000_0000;
    let p = f * w;
    if p > (u64::MAX as u128) {
        u64::MAX
    } else {
        p as u64
    }
}

/// A document's score under the query.
fn score(
    n: usize,
    t: &Vec<Vec<usize>>,
    d: &StoredDoc,
    q: &Query,
    all: Ghost<Seq<DocModel>>,
) -> (r: u64)
    requires
        n == all@.len(),
        t@.len() == q@.len(),
        forall|g: int| 0 <= g < q@.len() ==> #[trigger] t@[g]@.len() == q@[g].len(),
        forall|g: int, c: int|
            0 <= g < q@.len() && 0 <= c < q@[g].len() ==> #[trigger] t@[g]@[c] == doc_freq(
                all@,
                q@[g][c],
            ),
    ensures
        r == query_score(all@, d@, q@),
{
    let mut total: u64 = 0;
    let mut g: usize = 0;
    while g < q.groups.len()
        invariant
            g <= q.groups.len(),
            n == all@.len(),
            t@.len() == q@.len(),
            forall|h: int| 0 <= h < q@.len() ==> #[trigger] t@[h]@.len() == q@[h].len(),
            forall|h: int, c: int|
                0 <= h < q@.len() && 0 <= c < q@[h].len() ==> #[trigger] t@[h]@[c] == doc_freq(
                    all@,
                    q@[h][c],
                ),
            total == query_score(all@, d@, q@.take(g as int)),
        decreases q.groups.len() - g,
    {
        let group = &q.groups[g];
        let row = &t[g];
        let mut gs: u64 = 0;
        let mut c: usize = 0;
        while c < group.len()
            invariant
                c <= group.len(),
                g < q@.len(),
                n == all@.len(),
                group@ == q.groups@[g as int]@,
                row@ == t@[g as int]@,
                row@.len() == group@.len(),
                forall|m: int| 0 <= m < group@.len() ==> #[trigger] row@[m] == doc_freq(all@, q@[g as int][m]),
                gs == group_score(all@, d@, group_model(group@).take(c as int)),
            decreases group.len() - c,
        {
            assert(q@[g as int][c as int] == group[c as int]@);
            let w = weight(n, row[c], d, &group[c], all);
            assert(group_model(group@).take(c + 1).drop_last() =~= group_model(group@).take(c as int));
            gs = if w > u64::MAX - gs { u64::MAX } else { gs + w };
            c = c + 1;
        }
        assert(group_model(group@).take(group@.len() as int) =~= q@[g as int]);
        assert(q@.take(g + 1).drop_last() =~= q@.take(g as int));
        total = if gs > u64::MAX - total { u64::MAX } else { total + gs };
        g = g + 1;
    }
    assert(q@.take(q@.len() as int) =~= q@);
    total
}

/// One ranked result: its score, the document's id and its stored title.
pub struct Hit {
    pub score: u64,
    pub doc_id: u64,
    pub title: String,
}

/// What a result is.
pub ghost struct HitModel {
    pub score: nat,
    pub doc_id: u64,
    pub title: Seq<char>,
}

impl View for Hit {
    type V = HitModel;

    open spec fn view(&self) -> HitModel {
        HitModel { score: self.score as nat, doc_id: self.doc_id, title: self.title@ }
    }
}

/// The models of a sequence of results.
pub open spec fn hit_models(v: Seq<Hit>) -> Seq<HitModel> {
    v.map_values(|h: Hit| h@)
}

/// `a` ranks before `b`: a higher score, or an equal score and a lower id.
pub open spec fn ranks_before(a: HitModel, b: HitModel) -> bool {
    a.score > b.score || (a.score == b.score && a.doc_id < b.doc_id)
}

/// Where a result goes in a ranked list: before the first entry it ranks
/// before, or at the end.
pub open spec fn insert_pos(s: Seq<HitModel>, x: HitModel) -> nat
    decreases s.len(),
{
    if s.len() == 0 {
        0
    } else if ranks_before(x, s[0]) {
        0
    } else {
        1 + insert_pos(s.drop_first(), x)
    }
}

/// The candidates in ranked order: each inserted in turn at its place.
pub open spec fn rank(c: Seq<HitModel>) -> Seq<HitModel>
    decreases c.len(),
{
    if c.len() == 0 {
        seq![]
    } else {
        let r = rank(c.drop_last());
        r.insert(insert_pos(r, c.last()) as int, c.last())
    }
}

/// The result for a matching document.
pub open spec fn hit_of(all: Seq<DocModel>, d: DocModel, q: Seq<Seq<ClauseModel>>) -> HitModel {
    HitModel { score: query_score(all, d, q), doc_id: d.doc_id, title: d.title }
}

/// The results for the documents of `docs` that match, in document order,
/// scored among `all`.
pub open spec fn candidates(
    all: Seq<DocModel>,
    docs: Seq<DocModel>,
    q: Seq<Seq<ClauseModel>>,
) -> Seq<HitModel>
    decreases docs.len(),
{
    if docs.len() == 0 {
        seq![]
    } else {
        let p = candidates(all, docs.drop_last(), q);
        if query_matches(docs.last(), q) {
            p.push(hit_of(all, docs.last(), q))
        } else {
            p
        }
    }
}

/// Every matching document, ranked by descending score and then ascending id.
pub open spec fn ranked(docs: Seq<DocModel>, q: Seq<Seq<ClauseModel>>) -> Seq<HitModel> {
    rank(candidates(docs, docs, q))
}

/// The first `k` of the ranked results (all of them where there are fewer).
pub open spec fn top_k(docs: Seq<DocModel>, q: Seq<Seq<ClauseModel>>, k: nat) -> Seq<HitModel> {
    let r = ranked(docs, q);
    if k < r.len() {
        r.take(k as int)
    } else {
        r
    }
}

fn before(a: &Hit, b: &Hit) -> (r: bool)
    ensures
        r == ranks_before(a@, b@),
{
    a.score > b.score || (a.score == b.score && a.doc_id < b.doc_id)
}

fn insert_ranked(v: &mut Vec<Hit>, h: Hit)
    ensures
        hit_models(final(v)@) == hit_models(old(v)@).insert(
            insert_pos(hit_models(old(v)@), h@) as int,
            h@,
        ),
{
    let ghost s = hit_models(v@);
    assert(s.skip(0) =~= s);
    let mut i: usize = 0;
    while i < v.len() && !before(&h, &v[i])
        invariant
            i <= v.len(),
            s == hit_models(v@),
            v@ == old(v)@,
            insert_pos(s, h@) == i + insert_pos(s.skip(i as int), h@),
        decreases v.len() - i,
    {
        assert(s.skip(i as int).drop_first() =~= s.skip(i + 1));
        i = i + 1;
    }
    assert(insert_pos(s, h@) == i);
    v.insert(i, h);
    assert(hit_models(v@) =~= s.insert(i as int, h@));
}

/// A point-in-time view that answers queries: the live documents of one
/// generation.
pub struct Searcher {
    pub docs: Vec<StoredDoc>,
}

impl Reader {
    /// A searcher on this reader's generation; later commits and reloads
    /// leave it as it is.
    pub fn searcher(&self) -> (s: Searcher)
        ensures
            s.live() == self.live(),
    {
        let mut docs: Vec<StoredDoc> = Vec::new();
        let mut i: usize = 0;
        while i < self.docs.len()
            invariant
                i <= self.docs.len(),
                models(docs@) == models(self.docs@).take(i as int),
            decreases self.docs.len() - i,
        {
            let ghost prev = models(docs@);
            docs.push(self.docs[i].copy());
            assert(models(docs@) =~= prev.push(self.docs@[i as int]@));
            i = i + 1;
            assert(models(docs@) =~= models(self.docs@).take(i as int));
        }
        assert(models(self.docs@).take(self.docs@.len() as int) =~= models(self.docs@));
        Searcher { docs }
    }
}

impl Searcher {
    /// The documents this searcher sees.
    pub open spec fn live(&self) -> Seq<DocModel> {
        models(self.docs@)
    }

    /// Whether a document matches the query.
    pub fn matches(d: &StoredDoc, q: &Query) -> (r: bool)
        ensures
            r == query_matches(d@, q@),
    {
        let mut g: usize = 0;
        while g < q.groups.len()
            invariant
                g <= q.groups.len(),
                forall|h: int| 0 <= h < g ==> !#[trigger] group_matches(d@, q@[h]),
            decreases q.groups.len() - g,
        {
            let group = &q.groups[g];
            let mut all: bool = true;
            let mut c: usize = 0;
            while c < group.len()
                invariant
                    c <= group.len(),
                    g < q@.len(),
                    group@ == q.groups@[g as int]@,
                    all ==> forall|m: int| 0 <= m < c ==> #[trigger] clause_matches(d@, q@[g as int][m]),
                    !all ==> exists|m: int| 0 <= m < c && !#[trigger] clause_matches(d@, q@[g as int][m]),
                decreases group.len() - c,
            {
                assert(q@[g as int][c as int] == group[c as int]@);
                if clause_frequency(&d, &group[c]) == 0 {
                    assert(!clause_matches(d@, q@[g as int][c as int]));
                    all = false;
                }
                c = c + 1;
            }
            if all {
                assert(group_matches(d@, q@[g as int]));
                return true;
            }
            assert(!group_matches(d@, q@[g as int]));
            g = g + 1;
        }
        false
    }

    /// The best `k` matches of the query, by descending score and then
    /// ascending document id.
    pub fn search(&self, q: &Query, k: usize) -> (r: Vec<Hit>)
        ensures
            hit_models(r@) == top_k(self.live(), q@, k as nat),
            sorted_by_rank(hit_models(r@)),
    {
        let ghost all = self.live();
        let n = self.docs.len();
        let t = doc_freq_table(&self.docs, q);
        let mut out: Vec<Hit> = Vec::new();
        let mut i: usize = 0;
        while i < n
            invariant
                i <= n,
                n == self.docs@.len(),
                all == self.live(),
                t@.len() == q@.len(),
                forall|g: int| 0 <= g < q@.len() ==> #[trigger] t@[g]@.len() == q@[g].len(),
                forall|g: int, c: int|
                    0 <= g < q@.len() && 0 <= c < q@[g].len() ==> #[trigger] t@[g]@[c] == doc_freq(
                        all,
                        q@[g][c],
                    ),
                hit_models(out@) == rank(candidates(all, all.take(i as int), q@)),
            decreases n - i,
        {
            let d = &self.docs[i];
            assert(all.take(i + 1).drop_last() =~= all.take(i as int));
            let ghost prev = candidates(all, all.take(i as int), q@);
            assert(all.take(i + 1).last() == d@);
            if Searcher::matches(d, q) {
                let sc = score(n, &t, d, q, Ghost(all));
                let h = Hit { score: sc, doc_id: d.doc_id, title: d.title.clone() };
                assert(h@ == hit_of(all, d@, q@));
                insert_ranked(&mut out, h);
                assert(candidates(all, all.take(i + 1), q@) == prev.push(h@));
                assert(prev.push(h@).drop_last() =~= prev);
            }
            i = i + 1;
        }
        assert(all.take(n as int) =~= all);
        out.truncate(k);
        proof {
            let r = ranked(all, q@);
            lemma_rank(candidates(all, all, q@));
            if k < r.len() {
                assert(hit_models(out@) =~= r.take(k as int));
                let t = hit_models(out@);
                assert forall|i: int, j: int| 0 <= i < j < t.len() implies !ranks_before(
                    #[trigger] t[j],
                    #[trigger] t[i],
                ) by {
                    assert(t[i] == r[i] && t[j] == r[j]);
                }
            }
        }
        out
    }
}

} // verus!
