//! Segments, the manifest that publishes them, the single writer and the
//! point-in-time readers.
use vstd::prelude::*;
use crate::analyzer::{analyze, analyze_spec};

verus! {

/// A document as the caller hands it in: a title (indexed and stored) and a
/// body (indexed only).
pub struct Document {
    pub title: String,
    pub body: String,
}

/// What an indexed document is: its id, its stored title and the terms of
/// each field, the term at index `i` standing at position `i`.
pub ghost struct DocModel {
    pub doc_id: u64,
    pub title: Seq<char>,
    pub title_terms: Seq<Seq<char>>,
    pub body_terms: Seq<Seq<char>>,
}

/// An analyzed document as a segment holds it.
pub struct StoredDoc {
    pub doc_id: u64,
    pub title: String,
    pub title_terms: Vec<Vec<char>>,
    pub body_terms: Vec<Vec<char>>,
}

impl View for StoredDoc {
    type V = DocModel;

    open spec fn view(&self) -> DocModel {
        DocModel {
            doc_id: self.doc_id,
            title: self.title@,
            title_terms: self.title_terms.deep_view(),
            body_terms: self.body_terms.deep_view(),
        }
    }
}

/// The model of a document with the given id, title and body.
pub open spec fn analyzed_doc(doc_id: u64, title: Seq<char>, body: Seq<char>) -> DocModel {
    DocModel {
        doc_id,
        title,
        title_terms: analyze_spec(title),
        body_terms: analyze_spec(body),
    }
}

/// The models of a sequence of stored documents.
pub open spec fn models(v: Seq<StoredDoc>) -> Seq<DocModel> {
    v.map_values(|d: StoredDoc| d@)
}

fn copy_chars(v: &Vec<char>) -> (r: Vec<char>)
    ensures
        r@ == v@,
{
    let mut r: Vec<char> = Vec::new();
    let mut i: usize = 0;
    while i < v.len()
        invariant
            i <= v.len(),
            r@ == v@.take(i as int),
        decreases v.len() - i,
    {
        r.push(v[i]);
        i = i + 1;
        assert(r@ =~= v@.take(i as int));
    }
    assert(v@.take(v.len() as int) =~= v@);
    r
}

fn copy_terms(v: &Vec<Vec<char>>) -> (r: Vec<Vec<char>>)
    ensures
        r.deep_view() == v.deep_view(),
{
    let mut r: Vec<Vec<char>> = Vec::new();
    let mut i: usize = 0;
    while i < v.len()
        invariant
            i <= v.len(),
            r.deep_view() == v.deep_view().take(i as int),
        decreases v.len() - i,
    {
        let ghost prev = r.deep_view();
        let c = copy_chars(&v[i]);
        assert(c.deep_view() =~= c@);
        assert(v[i as int].deep_view() =~= v[i as int]@);
        r.push(c);
        assert(r.deep_view() =~= prev.push(v[i as int]@));
        i = i + 1;
        assert(r.deep_view() =~= v.deep_view().take(i as int));
    }
    assert(v.deep_view().take(v.len() as int) =~= v.deep_view());
    r
}

impl StoredDoc {
    /// Analyzes a document's fields under the given id.
    pub fn from_document(doc_id: u64, doc: &Document) -> (r: StoredDoc)
        ensures
            r@ == analyzed_doc(doc_id, doc.title@, doc.body@),
    {
        StoredDoc {
            doc_id,
            title: doc.title.clone(),
            title_terms: analyze(doc.title.as_str()),
            body_terms: analyze(doc.body.as_str()),
        }
    }

    /// A copy of the document.
    pub fn copy(&self) -> (r: StoredDoc)
        ensures
            r@ == self@,
    {
        StoredDoc {
            doc_id: self.doc_id,
            title: self.title.clone(),
            title_terms: copy_terms(&self.title_terms),
            body_terms: copy_terms(&self.body_terms),
        }
    }
}

/// An immutable batch of documents, published by one commit.
pub struct Segment {
    pub segment_id: u64,
    pub docs: Vec<StoredDoc>,
}

/// The documents of `docs` whose tombstone bit is clear, in order.
pub open spec fn live_in(docs: Seq<DocModel>, bits: Seq<bool>) -> Seq<DocModel>
    decreases docs.len(),
{
    if docs.len() == 0 {
        seq![]
    } else {
        let p = live_in(docs.drop_last(), bits.drop_last());
        if bits.last() {
            p
        } else {
            p.push(docs.last())
        }
    }
}

/// The live documents of a sequence of segments with their tombstones,
/// segment by segment.
pub open spec fn live_docs(segs: Seq<Seq<DocModel>>, tombs: Seq<Seq<bool>>) -> Seq<DocModel>
    decreases segs.len(),
{
    if segs.len() == 0 {
        seq![]
    } else {
        live_docs(segs.drop_last(), tombs.drop_last()) + live_in(segs.last(), tombs.last())
    }
}

/// A tombstone overlay after the ids in `dels` are deleted.
pub open spec fn tombstoned(docs: Seq<DocModel>, bits: Seq<bool>, dels: Seq<u64>) -> Seq<bool> {
    Seq::new(bits.len(), |j: int| bits[j] || dels.contains(docs[j].doc_id))
}

/// The errors of the index.
#[derive(Debug, PartialEq, Eq, Structural, Clone, Copy)]
pub enum IndexError {
    /// A second writer was asked for while one is open.
    LockHeld,
    /// The index was opened with field definitions other than its own.
    SchemaMismatch,
    /// A segment's checksum does not match its contents.
    CorruptSegment,
    /// A query could not be parsed.
    SyntaxError,
    /// The underlying storage failed.
    IoFailure,
}

/// The published state of an index: the live segments in order, a tombstone
/// overlay for each, and the generation of the manifest that lists them.
pub struct Index {
    pub generation: u64,
    pub segments: Vec<Segment>,
    pub tombstones: Vec<Vec<bool>>,
    pub next_doc_id: u64,
    pub next_segment_id: u64,
    pub writer_held: bool,
}

impl Index {
    /// The documents of each segment.
    pub open spec fn segment_models(&self) -> Seq<Seq<DocModel>> {
        Seq::new(self.segments@.len(), |i: int| models(self.segments@[i].docs@))
    }

    /// The tombstone bits of each segment.
    pub open spec fn tombstone_models(&self) -> Seq<Seq<bool>> {
        Seq::new(self.tombstones@.len(), |i: int| self.tombstones@[i]@)
    }

    /// One overlay per segment, one bit per document.
    pub open spec fn wf(&self) -> bool {
        &&& self.segments@.len() == self.tombstones@.len()
        &&& forall|i: int|
            0 <= i < self.segments@.len() ==> #[trigger] self.tombstones@[i]@.len()
                == self.segments@[i].docs@.len()
    }

    /// What the index's searchers see: every document not tombstoned.
    pub open spec fn live(&self) -> Seq<DocModel> {
        live_docs(self.segment_models(), self.tombstone_models())
    }

    /// An empty index at generation zero.
    pub fn new() -> (r: Index)
        ensures
            r.wf(),
            r.generation == 0,
            r.segments@.len() == 0,
            r.live() == Seq::<DocModel>::empty(),
            !r.writer_held,
    {
        Index {
            generation: 0,
            segments: Vec::new(),
            tombstones: Vec::new(),
            next_doc_id: 0,
            next_segment_id: 0,
            writer_held: false,
        }
    }
}

/// Whether `v` holds `x`.
pub fn contains_id(v: &Vec<u64>, x: u64) -> (r: bool)
    ensures
        r == v@.contains(x),
{
    let mut i: usize = 0;
    while i < v.len()
        invariant
            i <= v.len(),
            forall|k: int| 0 <= k < i ==> v@[k] != x,
        decreases v.len() - i,
    {
        if v[i] == x {
            return true;
        }
        i = i + 1;
    }
    false
}

/// The tombstone overlay of one segment after the ids in `dels` are deleted.
fn apply_deletes(docs: &Vec<StoredDoc>, bits: &Vec<bool>, dels: &Vec<u64>) -> (r: Vec<bool>)
    requires
        bits@.len() == docs@.len(),
    ensures
        r@ == tombstoned(models(docs@), bits@, dels@),
{
    let mut r: Vec<bool> = Vec::new();
    let mut j: usize = 0;
    while j < bits.len()
        invariant
            j <= bits.len(),
            bits@.len() == docs@.len(),
            r@ == tombstoned(models(docs@), bits@, dels@).take(j as int),
        decreases bits.len() - j,
    {
        let gone = contains_id(dels, docs[j].doc_id);
        r.push(bits[j] || gone);
        j = j + 1;
        assert(r@ =~= tombstoned(models(docs@), bits@, dels@).take(j as int));
    }
    assert(r@ =~= tombstoned(models(docs@), bits@, dels@));
    r
}

fn all_clear(n: usize) -> (r: Vec<bool>)
    ensures
        r@ == Seq::new(n as nat, |j: int| false),
{
    let mut r: Vec<bool> = Vec::new();
    let mut j: usize = 0;
    while j < n
        invariant
            j <= n,
            r@ == Seq::new(j as nat, |k: int| false),
        decreases n - j,
    {
        r.push(false);
        j = j + 1;
        assert(r@ =~= Seq::new(j as nat, |k: int| false));
    }
    r
}

/// Buffered documents in ascending id order, all below `bound`.
pub open spec fn ids_below(s: Seq<DocModel>, bound: u64) -> bool {
    &&& forall|i: int, j: int| 0 <= i < j < s.len() ==> s[i].doc_id < s[j].doc_id
    &&& forall|i: int| 0 <= i < s.len() ==> s[i].doc_id < bound
}

/// The first index of a document with the given id, if any.
pub open spec fn is_first_with_id(s: Seq<DocModel>, id: u64, k: int) -> bool {
    &&& 0 <= k < s.len()
    &&& s[k].doc_id == id
    &&& forall|m: int| 0 <= m < k ==> s[m].doc_id != id
}

/// The single writer of an index: documents added since the last commit,
/// and the ids to tombstone at the next commit.
pub struct IndexWriter {
    pub buffer: Vec<StoredDoc>,
    pub deletes: Vec<u64>,
    pub next_doc_id: u64,
}

impl IndexWriter {
    /// The documents added and not yet committed.
    pub open spec fn buffered(&self) -> Seq<DocModel> {
        models(self.buffer@)
    }

    /// Buffered ids ascend and were all handed out.
    pub open spec fn wf(&self) -> bool {
        ids_below(self.buffered(), self.next_doc_id)
    }

    /// Takes the index's single writer; fails with `LockHeld` while another
    /// one is open.
    pub fn open(index: &mut Index) -> (r: Result<IndexWriter, IndexError>)
        ensures
            old(index).writer_held ==> r == Err::<IndexWriter, IndexError>(IndexError::LockHeld)
                && *final(index) == *old(index),
            !old(index).writer_held ==> r is Ok && final(index).writer_held
                && final(index).generation == old(index).generation
                && final(index).segments == old(index).segments
                && final(index).tombstones == old(index).tombstones
                && final(index).next_doc_id == old(index).next_doc_id
                && final(index).next_segment_id == old(index).next_segment_id,
            r matches Ok(w) ==> w.wf() && w.buffered().len() == 0 && w.deletes@.len() == 0
                && w.next_doc_id == old(index).next_doc_id,
    {
        if index.writer_held {
            return Err(IndexError::LockHeld);
        }
        index.writer_held = true;
        Ok(IndexWriter { buffer: Vec::new(), deletes: Vec::new(), next_doc_id: index.next_doc_id })
    }

    /// Gives the index's writer back, dropping what was not committed.
    pub fn close(self, index: &mut Index)
        ensures
            !final(index).writer_held,
            final(index).generation == old(index).generation,
            final(index).segments == old(index).segments,
            final(index).tombstones == old(index).tombstones,
            final(index).next_doc_id == old(index).next_doc_id,
            final(index).next_segment_id == old(index).next_segment_id,
    {
        index.writer_held = false;
    }

    /// Buffers a document under the next id, and returns that id.
    pub fn add(&mut self, doc: &Document) -> (id: u64)
        requires
            old(self).wf(),
            old(self).next_doc_id < u64::MAX,
        ensures
            final(self).wf(),
            id == old(self).next_doc_id,
            final(self).next_doc_id == id + 1,
            final(self).buffered() == old(self).buffered().push(
                analyzed_doc(id, doc.title@, doc.body@),
            ),
            final(self).deletes == old(self).deletes,
    {
        let id = self.next_doc_id;
        let d = StoredDoc::from_document(id, doc);
        self.buffer.push(d);
        self.next_doc_id = id + 1;
        assert(self.buffered() =~= old(self).buffered().push(analyzed_doc(id, doc.title@, doc.body@)));
        id
    }

    /// Deletes a document: one still buffered leaves the buffer; any other id
    /// is tombstoned at the next commit.
    pub fn delete(&mut self, doc_id: u64)
        requires
            old(self).wf(),
        ensures
            final(self).wf(),
            final(self).next_doc_id == old(self).next_doc_id,
            (forall|k: int| 0 <= k < old(self).buffered().len()
                ==> old(self).buffered()[k].doc_id != doc_id) ==> final(self).buffered()
                == old(self).buffered() && final(self).deletes@ == old(self).deletes@.push(doc_id),
            forall|k: int| is_first_with_id(old(self).buffered(), doc_id, k)
                ==> final(self).buffered() == old(self).buffered().remove(k)
                && final(self).deletes == old(self).deletes,
    {
        let mut k: usize = 0;
        while k < self.buffer.len()
            invariant
                k <= self.buffer.len(),
                *self == *old(self),
                old(self).wf(),
                forall|m: int| 0 <= m < k ==> self.buffered()[m].doc_id != doc_id,
            decreases self.buffer.len() - k,
        {
            if self.buffer[k].doc_id == doc_id {
                let ghost b = self.buffered();
                assert(b[k as int].doc_id == doc_id);
                self.buffer.remove(k);
                assert(self.buffered() =~= b.remove(k as int));
                let ghost nb = self.buffered();
                assert forall|i: int, j: int| 0 <= i < j < nb.len() implies nb[i].doc_id
                    < nb[j].doc_id by {
                    let i2 = if i < k { i } else { i + 1 };
                    let j2 = if j < k { j } else { j + 1 };
                    assert(nb[i] == b[i2]);
                    assert(nb[j] == b[j2]);
                }
                assert forall|i: int| 0 <= i < nb.len() implies nb[i].doc_id < self.next_doc_id by {
                    let i2 = if i < k { i } else { i + 1 };
                    assert(nb[i] == b[i2]);
                }
                assert forall|m: int| is_first_with_id(b, doc_id, m) implies m == k by {
                    if m < k {
                    } else if m > k {
                        assert(b[k as int].doc_id == doc_id);
                    }
                }
                return;
            }
            k = k + 1;
        }
        self.deletes.push(doc_id);
    }

    /// Publishes the buffered documents as a new segment (none when the buffer
    /// is empty), tombstones the pending deletes in the published segments,
    /// and returns the new generation.
    pub fn commit(&mut self, index: &mut Index) -> (generation: u64)
        requires
            old(self).wf(),
            old(index).wf(),
            old(index).generation < u64::MAX,
            old(index).next_segment_id < u64::MAX,
        ensures
            final(index).wf(),
            final(self).wf(),
            generation == old(index).generation + 1,
            final(index).generation == generation,
            final(index).writer_held == old(index).writer_held,
            final(index).next_doc_id == old(self).next_doc_id,
            final(self).next_doc_id == old(self).next_doc_id,
            forall|i: int| 0 <= i < old(index).segments@.len() ==> #[trigger] final(index).segments@[i].segment_id
                == old(index).segments@[i].segment_id,
            old(self).buffered().len() == 0 ==> final(index).next_segment_id == old(index).next_segment_id,
            old(self).buffered().len() > 0 ==> final(index).next_segment_id == old(index).next_segment_id + 1
                && final(index).segments@.last().segment_id == old(index).next_segment_id,
            final(self).buffered().len() == 0,
            final(self).deletes@.len() == 0,
            final(index).segment_models() == committed_segments(
                old(index).segment_models(),
                old(self).buffered(),
            ),
            final(index).tombstone_models() == committed_overlays(
                old(index).segment_models(),
                old(index).tombstone_models(),
                old(self).deletes@,
                old(self).buffered(),
            ),
    {
        let mut tombs: Vec<Vec<bool>> = Vec::new();
        let mut i: usize = 0;
        while i < index.segments.len()
            invariant
                i <= index.segments.len(),
                index.wf(),
                tombs@.len() == i,
                forall|m: int| 0 <= m < i ==> #[trigger] tombs@[m]@ == tombstoned(
                    index.segment_models()[m], index.tombstone_models()[m], self.deletes@),
            decreases index.segments.len() - i,
        {
            let bits = apply_deletes(&index.segments[i].docs, &index.tombstones[i], &self.deletes);
            tombs.push(bits);
            i = i + 1;
        }
        let ghost old_segs = index.segment_models();
        let ghost olds = index.tombstone_models();
        let ghost tv = Seq::new(tombs@.len(), |m: int| tombs@[m]@);
        assert(tv =~= committed_tombstones(old_segs, olds, self.deletes@));
        if self.buffer.len() > 0 {
            let n = self.buffer.len();
            let mut docs: Vec<StoredDoc> = Vec::new();
            std::mem::swap(&mut docs, &mut self.buffer);
            tombs.push(all_clear(n));
            index.segments.push(Segment { segment_id: index.next_segment_id, docs });
            index.next_segment_id = index.next_segment_id + 1;
            assert(index.segment_models() =~= old_segs.push(old(self).buffered()));
            assert(Seq::new(tombs@.len(), |m: int| tombs@[m]@) =~= tv.push(Seq::new(n as nat, |j: int| false)));
        } else {
            assert(index.segment_models() =~= old_segs);
        }
        index.tombstones = tombs;
        self.deletes = Vec::new();
        index.generation = index.generation + 1;
        index.next_doc_id = self.next_doc_id;
        assert(self.buffered() =~= Seq::<DocModel>::empty());
        index.generation
    }
}

impl IndexWriter {
    /// Merges the published segments into one that holds just their live
    /// documents, in order, and publishes it as a new generation: tombstoned
    /// documents are dropped and searchers see the same documents as before.
    pub fn merge(&self, index: &mut Index) -> (generation: u64)
        requires
            old(index).wf(),
            old(index).generation < u64::MAX,
            old(index).next_segment_id < u64::MAX,
        ensures
            final(index).wf(),
            final(index).live() == old(index).live(),
            final(index).segments@.len() <= 1,
            forall|i: int| 0 <= i < final(index).tombstones@.len() ==> !#[trigger] final(index).tombstone_models()[i].contains(true),
            generation == old(index).generation + 1,
            final(index).generation == generation,
            final(index).next_doc_id == old(index).next_doc_id,
            final(index).writer_held == old(index).writer_held,
    {
        let docs = collect_live(index);
        let ghost live = models(docs@);
        let n = docs.len();
        let mut segments: Vec<Segment> = Vec::new();
        let mut tombs: Vec<Vec<bool>> = Vec::new();
        if n > 0 {
            tombs.push(all_clear(n));
            segments.push(Segment { segment_id: index.next_segment_id, docs });
            index.next_segment_id = index.next_segment_id + 1;
        }
        index.segments = segments;
        index.tombstones = tombs;
        index.generation = index.generation + 1;
        proof {
            lemma_live_in_clear(live);
            let sm = index.segment_models();
            let tm = index.tombstone_models();
            if n > 0 {
                assert(sm.drop_last() =~= Seq::<Seq<DocModel>>::empty());
                assert(tm.drop_last() =~= Seq::<Seq<bool>>::empty());
                assert(sm.last() == live);
                assert(tm.last() =~= Seq::new(live.len(), |j: int| false));
                assert(tm.last() == Seq::new(live.len(), |j: int| false));
                assert(live_docs(sm.drop_last(), tm.drop_last()) == Seq::<DocModel>::empty());
                assert(live_in(sm.last(), tm.last()) == live);
                assert(index.live() == Seq::<DocModel>::empty() + live);
                assert(index.live() =~= live);
                assert forall|i: int| 0 <= i < index.tombstones@.len() implies !#[trigger] index.tombstone_models()[i].contains(true) by {
                    if tm[i].contains(true) {
                        let j = choose|j: int| 0 <= j < tm[i].len() && tm[i][j] == true;
                    }
                }
            } else {
                assert(live =~= Seq::<DocModel>::empty());
            }
        }
        index.generation
    }
}

/// The segments after a commit of the buffered documents `buffer`.
pub open spec fn committed_segments(segs: Seq<Seq<DocModel>>, buffer: Seq<DocModel>) -> Seq<Seq<DocModel>> {
    if buffer.len() == 0 {
        segs
    } else {
        segs.push(buffer)
    }
}

/// The overlays after a commit of `buffer` with pending deletes `dels`: the
/// new segment, if any, starts with no tombstone.
pub open spec fn committed_overlays(
    segs: Seq<Seq<DocModel>>,
    tombs: Seq<Seq<bool>>,
    dels: Seq<u64>,
    buffer: Seq<DocModel>,
) -> Seq<Seq<bool>> {
    let t = committed_tombstones(segs, tombs, dels);
    if buffer.len() == 0 {
        t
    } else {
        t.push(Seq::new(buffer.len(), |j: int| false))
    }
}

/// The overlays of published segments after a commit with pending deletes `dels`.
pub open spec fn committed_tombstones(segs: Seq<Seq<DocModel>>, tombs: Seq<Seq<bool>>, dels: Seq<u64>) -> Seq<Seq<bool>> {
    Seq::new(segs.len(), |i: int| tombstoned(segs[i], tombs[i], dels))
}

/// Where no tombstone is set every document is live.
pub proof fn lemma_live_in_clear(docs: Seq<DocModel>)
    ensures
        live_in(docs, Seq::new(docs.len(), |j: int| false)) == docs,
    decreases docs.len(),
{
    if docs.len() > 0 {
        assert(Seq::new(docs.len(), |j: int| false).drop_last() =~= Seq::new(docs.drop_last().len(), |j: int| false));
        lemma_live_in_clear(docs.drop_last());
        assert(docs.drop_last().push(docs.last()) =~= docs);
    }
}

/// Copies of the documents that the index's searchers see.
fn collect_live(index: &Index) -> (r: Vec<StoredDoc>)
    requires
        index.wf(),
    ensures
        models(r@) == index.live(),
{
    let ghost segs = index.segment_models();
    let ghost tombs = index.tombstone_models();
    let mut r: Vec<StoredDoc> = Vec::new();
    let mut i: usize = 0;
    while i < index.segments.len()
        invariant
            i <= index.segments.len(),
            index.wf(),
            segs == index.segment_models(),
            tombs == index.tombstone_models(),
            models(r@) == live_docs(segs.take(i as int), tombs.take(i as int)),
        decreases index.segments.len() - i,
    {
        let docs = &index.segments[i].docs;
        let bits = &index.tombstones[i];
        let ghost before = models(r@);
        let mut j: usize = 0;
        while j < docs.len()
            invariant
                j <= docs.len(),
                bits@.len() == docs@.len(),
                segs[i as int] == models(docs@),
                tombs[i as int] == bits@,
                models(r@) == before + live_in(models(docs@).take(j as int), bits@.take(j as int)),
            decreases docs.len() - j,
        {
            let ghost pre = models(r@);
            assert(models(docs@).take(j + 1).drop_last() =~= models(docs@).take(j as int));
            assert(bits@.take(j + 1).drop_last() =~= bits@.take(j as int));
            if !bits[j] {
                r.push(docs[j].copy());
                assert(models(r@) =~= pre.push(docs@[j as int]@));
            }
            j = j + 1;
        }
        assert(models(docs@).take(docs@.len() as int) =~= models(docs@));
        assert(bits@.take(bits@.len() as int) =~= bits@);
        assert(segs.take(i + 1).drop_last() =~= segs.take(i as int));
        assert(tombs.take(i + 1).drop_last() =~= tombs.take(i as int));
        i = i + 1;
    }
    assert(segs.take(segs.len() as int) =~= segs);
    assert(tombs.take(tombs.len() as int) =~= tombs);
    r
}

/// A point-in-time view of an index: the generation it was opened at and
/// the documents live in that generation.
pub struct Reader {
    pub generation: u64,
    pub docs: Vec<StoredDoc>,
}

impl Reader {
    /// The documents this reader's searchers see.
    pub open spec fn live(&self) -> Seq<DocModel> {
        models(self.docs@)
    }

    /// Opens a reader on the index's current generation.
    pub fn open(index: &Index) -> (r: Reader)
        requires
            index.wf(),
        ensures
            r.generation == index.generation,
            r.live() == index.live(),
    {
        Reader { generation: index.generation, docs: collect_live(index) }
    }

    /// Adopts the index's current generation for searchers obtained from now on.
    pub fn reload(&mut self, index: &Index)
        requires
            index.wf(),
        ensures
            final(self).generation == index.generation,
            final(self).live() == index.live(),
    {
        self.generation = index.generation;
        self.docs = collect_live(index);
    }
}

} // verus!
