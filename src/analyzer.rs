//! Text analysis: lower-casing, then splitting on runs of characters that
//! are not alphanumeric. The position of a term is its index in the result.
use vstd::prelude::*;

verus! {

/// What `char::is_alphanumeric` answers for a character.
pub uninterp spec fn alnum_of(c: char) -> bool;

/// What `char::to_lowercase` yields for a character.
pub uninterp spec fn lower_of(c: char) -> Seq<char>;

/// Relies on `char::is_alphanumeric`: the answer depends on the character alone.
#[verifier::external_body]
fn is_alnum(c: char) -> (r: bool)
    ensures
        r == alnum_of(c),
{
    c.is_alphanumeric()
}

/// Relies on `char::to_lowercase`: the characters it yields depend on the
/// character alone.
#[verifier::external_body]
fn lower_char(c: char) -> (r: Vec<char>)
    ensures
        r@ == lower_of(c),
{
    c.to_lowercase().collect()
}

/// Relies on `String`'s `FromIterator<char>`: the string holds exactly the
/// characters, in order.
#[verifier::external_body]
pub(crate) fn string_of(cs: &Vec<char>) -> (r: String)
    ensures
        r@ == cs@,
{
    cs.iter().collect()
}

/// The text with every character replaced by its lower-case form.
pub open spec fn lower_text(s: Seq<char>) -> Seq<char>
    decreases s.len(),
{
    if s.len() == 0 {
        seq![]
    } else {
        lower_text(s.drop_last()) + lower_of(s.last())
    }
}

/// Scanning state after reading `s`: the finished terms, and the term being
/// read (empty between terms).
pub open spec fn scan(s: Seq<char>) -> (Seq<Seq<char>>, Seq<char>)
    decreases s.len(),
{
    if s.len() == 0 {
        (seq![], seq![])
    } else {
        let prev = scan(s.drop_last());
        let c = s.last();
        if alnum_of(c) {
            (prev.0, prev.1.push(c))
        } else if prev.1.len() > 0 {
            (prev.0.push(prev.1), seq![])
        } else {
            (prev.0, seq![])
        }
    }
}

/// The maximal runs of alphanumeric characters of `s`, in order.
pub open spec fn split_terms(s: Seq<char>) -> Seq<Seq<char>> {
    let st = scan(s);
    if st.1.len() > 0 {
        st.0.push(st.1)
    } else {
        st.0
    }
}

/// The terms of a text: the term at index `i` stands at position `i`.
pub open spec fn analyze_spec(s: Seq<char>) -> Seq<Seq<char>> {
    split_terms(lower_text(s))
}

/// The characters of a string, in order.
pub fn chars_of(s: &str) -> (r: Vec<char>)
    ensures
        r@ == s@,
{
    let mut r: Vec<char> = Vec::new();
    for c in it: s.chars()
        invariant
            r@ == it.seq().take(it.index() as int),
    {
        r.push(c);
    }
    r
}

/// The lower-case form of a sequence of characters.
pub fn lowercase(s: &Vec<char>) -> (r: Vec<char>)
    ensures
        r@ == lower_text(s@),
{
    let mut r: Vec<char> = Vec::new();
    let mut i: usize = 0;
    while i < s.len()
        invariant
            i <= s.len(),
            r@ == lower_text(s@.take(i as int)),
        decreases s.len() - i,
    {
        let mut l = lower_char(s[i]);
        assert(s@.take(i + 1).drop_last() == s@.take(i as int));
        r.append(&mut l);
        i = i + 1;
    }
    assert(s@.take(s.len() as int) == s@);
    r
}

/// The maximal runs of alphanumeric characters, in order.
pub fn split_alnum(s: &Vec<char>) -> (r: Vec<Vec<char>>)
    ensures
        r.deep_view() == split_terms(s@),
{
    let mut done: Vec<Vec<char>> = Vec::new();
    let mut cur: Vec<char> = Vec::new();
    let mut i: usize = 0;
    while i < s.len()
        invariant
            i <= s.len(),
            (done.deep_view(), cur@) == scan(s@.take(i as int)),
        decreases s.len() - i,
    {
        let c = s[i];
        assert(s@.take(i + 1).drop_last() == s@.take(i as int));
        if is_alnum(c) {
            cur.push(c);
        } else if cur.len() > 0 {
            let ghost prev = done.deep_view();
            let ghost cv = cur@;
        assert(cur.deep_view() =~= cur@);
            done.push(cur);
            cur = Vec::new();
            assert(done.deep_view() =~= prev.push(cv));
        } else {
            cur = Vec::new();
        }
        i = i + 1;
    }
    assert(s@.take(s.len() as int) == s@);
    if cur.len() > 0 {
        let ghost prev = done.deep_view();
        let ghost cv = cur@;
        assert(cur.deep_view() =~= cur@);
        done.push(cur);
        assert(done.deep_view() =~= prev.push(cv));
    }
    done
}

/// Analyzes a text into its terms; the term at index `i` has position `i`.
/// The same text always gives the same terms.
pub fn analyze(text: &str) -> (r: Vec<Vec<char>>)
    ensures
        r.deep_view() == analyze_spec(text@),
{
    let cs = chars_of(text);
    analyze_chars(&cs)
}

/// Analyzes a sequence of characters into its terms.
pub fn analyze_chars(cs: &Vec<char>) -> (r: Vec<Vec<char>>)
    ensures
        r.deep_view() == analyze_spec(cs@),
{
    let low = lowercase(cs);
    split_alnum(&low)
}

} // verus!
