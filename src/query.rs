//! The query language: clauses separated by white space are all required,
//! `OR` between clauses starts an alternative; a clause is `field:term`, a
//! bare term (searched in both fields), or a quoted phrase. Query text goes
//! through the same analyzer as indexed text.
use vstd::prelude::*;
use crate::analyzer::{analyze_chars, analyze_spec, chars_of};
use crate::index::IndexError;
use crate::search::{Clause, ClauseModel, FieldName, Hit, Query, Searcher, group_model, hit_models, top_k};

verus! {

/// The characters that separate clauses.
pub open spec fn is_space(c: char) -> bool {
    c == ' ' || c == '\t' || c == '\n' || c == '\r'
}

/// Lexing state after reading `s`: the finished lexemes (quoted or not, and
/// their text), the text being read, and whether a quote is open.
pub open spec fn lex_scan(s: Seq<char>) -> (Seq<(bool, Seq<char>)>, Seq<char>, bool)
    decreases s.len(),
{
    if s.len() == 0 {
        (seq![], seq![], false)
    } else {
        let st = lex_scan(s.drop_last());
        let c = s.last();
        if st.2 {
            if c == '"' {
                (st.0.push((true, st.1)), seq![], false)
            } else {
                (st.0, st.1.push(c), true)
            }
        } else if c == '"' || is_space(c) {
            let done = if st.1.len() > 0 {
                st.0.push((false, st.1))
            } else {
                st.0
            };
            (done, seq![], c == '"')
        } else {
            (st.0, st.1.push(c), false)
        }
    }
}

/// The lexemes of a query text; none where a quote is left open.
pub open spec fn lex(s: Seq<char>) -> Option<Seq<(bool, Seq<char>)>> {
    let st = lex_scan(s);
    if st.2 {
        None
    } else if st.1.len() > 0 {
        Some(st.0.push((false, st.1)))
    } else {
        Some(st.0)
    }
}

/// The index of the first `:` of a word, or -1.
pub open spec fn colon_index(w: Seq<char>) -> int
    decreases w.len(),
{
    if w.len() == 0 {
        -1
    } else if w[0] == ':' {
        0
    } else {
        let r = colon_index(w.drop_first());
        if r < 0 {
            -1
        } else {
            r + 1
        }
    }
}

/// The field a name stands for.
pub open spec fn field_of(name: Seq<char>) -> Option<FieldName> {
    if name == seq!['t', 'i', 't', 'l', 'e'] {
        Some(FieldName::Title)
    } else if name == seq!['b', 'o', 'd', 'y'] {
        Some(FieldName::Body)
    } else {
        None
    }
}

/// The clause of a lexeme; none where a word names an unknown field.
pub open spec fn clause_of(t: (bool, Seq<char>)) -> Option<ClauseModel> {
    let i = colon_index(t.1);
    if t.0 || i < 0 {
        Some(ClauseModel { field: None, terms: analyze_spec(t.1) })
    } else {
        match field_of(t.1.take(i)) {
            Some(f) => Some(ClauseModel { field: Some(f), terms: analyze_spec(t.1.skip(i + 1)) }),
            None => None,
        }
    }
}

/// An unquoted `OR`.
pub open spec fn is_or(t: (bool, Seq<char>)) -> bool {
    !t.0 && t.1 == seq!['O', 'R']
}

/// Building state after the lexemes `ts`: the finished groups and the group
/// being read; none after an error. A clause without terms is left out.
pub open spec fn build(ts: Seq<(bool, Seq<char>)>) -> Option<(Seq<Seq<ClauseModel>>, Seq<ClauseModel>)>
    decreases ts.len(),
{
    if ts.len() == 0 {
        Some((seq![], seq![]))
    } else {
        match build(ts.drop_last()) {
            None => None,
            Some(st) => {
                let t = ts.last();
                if is_or(t) {
                    if st.1.len() == 0 {
                        None
                    } else {
                        Some((st.0.push(st.1), seq![]))
                    }
                } else {
                    match clause_of(t) {
                        None => None,
                        Some(c) => if c.terms.len() == 0 {
                            Some(st)
                        } else {
                            Some((st.0, st.1.push(c)))
                        },
                    }
                }
            },
        }
    }
}

/// The query a text stands for; none where it is malformed: an open quote,
/// an unknown field, or an `OR` without a clause on each side.
pub open spec fn parse_spec(s: Seq<char>) -> Option<Seq<Seq<ClauseModel>>> {
    match lex(s) {
        None => None,
        Some(ts) => match build(ts) {
            None => None,
            Some(st) => if st.1.len() > 0 {
                Some(st.0.push(st.1))
            } else if st.0.len() > 0 {
                None
            } else {
                Some(seq![])
            },
        },
    }
}

/// A lexeme: quoted or not, and its text.
pub struct Lexeme {
    pub quoted: bool,
    pub text: Vec<char>,
}

impl View for Lexeme {
    type V = (bool, Seq<char>);

    open spec fn view(&self) -> (bool, Seq<char>) {
        (self.quoted, self.text@)
    }
}

/// The models of a sequence of lexemes.
pub open spec fn lexeme_models(v: Seq<Lexeme>) -> Seq<(bool, Seq<char>)> {
    v.map_values(|l: Lexeme| l@)
}

fn is_space_char(c: char) -> (r: bool)
    ensures
        r == is_space(c),
{
    c == ' ' || c == '\t' || c == '\n' || c == '\r'
}

/// Splits query text into lexemes; `None` where a quote is left open.
pub fn lex_query(s: &Vec<char>) -> (r: Option<Vec<Lexeme>>)
    ensures
        match r {
            Some(v) => lex(s@) == Some(lexeme_models(v@)),
            None => lex(s@) is None,
        },
{
    let mut done: Vec<Lexeme> = Vec::new();
    let mut cur: Vec<char> = Vec::new();
    let mut quoted: bool = false;
    let mut i: usize = 0;
    while i < s.len()
        invariant
            i <= s.len(),
            (lexeme_models(done@), cur@, quoted) == lex_scan(s@.take(i as int)),
        decreases s.len() - i,
    {
        let c = s[i];
        assert(s@.take(i + 1).drop_last() =~= s@.take(i as int));
        let ghost prev = lexeme_models(done@);
        if quoted {
            if c == '"' {
                let ghost cv = cur@;
                done.push(Lexeme { quoted: true, text: cur });
                assert(lexeme_models(done@) =~= prev.push((true, cv)));
                cur = Vec::new();
                quoted = false;
            } else {
                cur.push(c);
            }
        } else if c == '"' || is_space_char(c) {
            if cur.len() > 0 {
                let ghost cv = cur@;
                done.push(Lexeme { quoted: false, text: cur });
                assert(lexeme_models(done@) =~= prev.push((false, cv)));
            }
            cur = Vec::new();
            quoted = c == '"';
        } else {
            cur.push(c);
        }
        i = i + 1;
    }
    assert(s@.take(s.len() as int) =~= s@);
    if quoted {
        return None;
    }
    if cur.len() > 0 {
        let ghost prev = lexeme_models(done@);
        let ghost cv = cur@;
        done.push(Lexeme { quoted: false, text: cur });
        assert(lexeme_models(done@) =~= prev.push((false, cv)));
    }
    Some(done)
}

fn first_colon(w: &Vec<char>) -> (r: Option<usize>)
    ensures
        match r {
            Some(i) => colon_index(w@) == i as int && i < w@.len(),
            None => colon_index(w@) == -1,
        },
{
    let mut i: usize = 0;
    assert(w@.skip(0) =~= w@);
    while i < w.len()
        invariant
            i <= w.len(),
            colon_index(w@) == if colon_index(w@.skip(i as int)) < 0 {
                -1
            } else {
                i + colon_index(w@.skip(i as int))
            },
        decreases w.len() - i,
    {
        if w[i] == ':' {
            return Some(i);
        }
        assert(w@.skip(i as int).drop_first() =~= w@.skip(i + 1));
        i = i + 1;
    }
    None
}

fn slice_chars(w: &Vec<char>, from: usize, to: usize) -> (r: Vec<char>)
    requires
        from <= to <= w@.len(),
    ensures
        r@ == w@.subrange(from as int, to as int),
{
    let mut r: Vec<char> = Vec::new();
    let mut i: usize = from;
    while i < to
        invariant
            from <= i <= to,
            to <= w@.len(),
            r@ == w@.subrange(from as int, i as int),
        decreases to - i,
    {
        r.push(w[i]);
        i = i + 1;
        assert(r@ =~= w@.subrange(from as int, i as int));
    }
    r
}

fn field_named(name: &Vec<char>) -> (r: Option<FieldName>)
    ensures
        r == field_of(name@),
{
    if name.len() == 5 && name[0] == 't' && name[1] == 'i' && name[2] == 't' && name[3] == 'l'
        && name[4] == 'e' {
        assert(name@ =~= seq!['t', 'i', 't', 'l', 'e']);
        Some(FieldName::Title)
    } else if name.len() == 4 && name[0] == 'b' && name[1] == 'o' && name[2] == 'd' && name[3]
        == 'y' {
        assert(name@ =~= seq!['b', 'o', 'd', 'y']);
        Some(FieldName::Body)
    } else {
        proof {
            if name@ == seq!['t', 'i', 't', 'l', 'e'] {
                assert(name@.len() == 5);
            }
            if name@ == seq!['b', 'o', 'd', 'y'] {
                assert(name@.len() == 4);
            }
        }
        None
    }
}

/// The clause of one lexeme; `None` where a word names an unknown field.
pub fn lexeme_clause(t: &Lexeme) -> (r: Option<Clause>)
    ensures
        match r {
            Some(c) => clause_of(t@) == Some(c@),
            None => clause_of(t@) is None,
        },
{
    if t.quoted {
        return Some(Clause { field: None, terms: analyze_chars(&t.text) });
    }
    match first_colon(&t.text) {
        None => Some(Clause { field: None, terms: analyze_chars(&t.text) }),
        Some(i) => {
            assert(i < t.text.len());
            let name = slice_chars(&t.text, 0, i);
            let rest = slice_chars(&t.text, i + 1, t.text.len());
            assert(name@ =~= t.text@.take(i as int));
            assert(rest@ =~= t.text@.skip(i + 1));
            match field_named(&name) {
                Some(f) => Some(Clause { field: Some(f), terms: analyze_chars(&rest) }),
                None => None,
            }
        },
    }
}

fn is_or_word(t: &Lexeme) -> (r: bool)
    ensures
        r == is_or(t@),
{
    if !t.quoted && t.text.len() == 2 && t.text[0] == 'O' && t.text[1] == 'R' {
        assert(t.text@ =~= seq!['O', 'R']);
        true
    } else {
        proof {
            if t.text@ == seq!['O', 'R'] {
                assert(t.text@.len() == 2);
            }
        }
        false
    }
}

/// The models of a sequence of groups.
pub open spec fn groups_model(v: Seq<Vec<Clause>>) -> Seq<Seq<ClauseModel>> {
    Seq::new(v.len(), |i: int| group_model(v[i]@))
}

proof fn lemma_build_fails_on(ts: Seq<(bool, Seq<char>)>, n: int, m: int)
    requires
        0 <= n <= m <= ts.len(),
        build(ts.take(n)) is None,
    ensures
        build(ts.take(m)) is None,
    decreases m - n,
{
    if n < m {
        assert(ts.take(n + 1).drop_last() =~= ts.take(n));
        lemma_build_fails_on(ts, n + 1, m);
    }
}

/// Compiles query text into a query; fails with `SyntaxError` exactly where
/// the text is malformed.
pub fn parse(text: &str) -> (r: Result<Query, IndexError>)
    ensures
        match r {
            Ok(q) => parse_spec(text@) == Some(q@),
            Err(e) => e == IndexError::SyntaxError && parse_spec(text@) is None,
        },
{
    let cs = chars_of(text);
    let lexemes = match lex_query(&cs) {
        None => {
            return Err(IndexError::SyntaxError);
        },
        Some(v) => v,
    };
    let ghost ts = lexeme_models(lexemes@);
    let mut groups: Vec<Vec<Clause>> = Vec::new();
    let mut cur: Vec<Clause> = Vec::new();
    let mut i: usize = 0;
    while i < lexemes.len()
        invariant
            i <= lexemes.len(),
            ts == lexeme_models(lexemes@),
            lex(cs@) == Some(ts),
            cs@ == text@,
            build(ts.take(i as int)) == Some((groups_model(groups@), group_model(cur@))),
        decreases lexemes.len() - i,
    {
        let t = &lexemes[i];
        assert(ts.take(i + 1).drop_last() =~= ts.take(i as int));
        assert(ts.take(i + 1).last() == t@);
        let ghost gm = groups_model(groups@);
        let ghost cm = group_model(cur@);
        if is_or_word(t) {
            if cur.len() == 0 {
                proof {
                    lemma_build_fails_on(ts, i + 1, ts.len() as int);
                    assert(ts.take(ts.len() as int) =~= ts);
                }
                return Err(IndexError::SyntaxError);
            }
            groups.push(cur);
            cur = Vec::new();
            assert(groups_model(groups@) =~= gm.push(cm));
            assert(group_model(cur@) =~= Seq::<ClauseModel>::empty());
        } else {
            match lexeme_clause(t) {
                None => {
                    proof {
                        lemma_build_fails_on(ts, i + 1, ts.len() as int);
                        assert(ts.take(ts.len() as int) =~= ts);
                    }
                    return Err(IndexError::SyntaxError);
                },
                Some(c) => {
                    if c.terms.len() > 0 {
                        let ghost cv = c@;
                        cur.push(c);
                        assert(group_model(cur@) =~= cm.push(cv));
                    }
                },
            }
        }
        i = i + 1;
    }
    assert(ts.take(ts.len() as int) =~= ts);
    if cur.len() > 0 {
        let ghost gm = groups_model(groups@);
        let ghost cm = group_model(cur@);
        groups.push(cur);
        let q = Query { groups };
        assert(q@ =~= gm.push(cm));
        Ok(q)
    } else if groups.len() > 0 {
        Err(IndexError::SyntaxError)
    } else {
        let q = Query { groups };
        assert(q@ =~= Seq::<Seq<ClauseModel>>::empty());
        Ok(q)
    }
}

impl Searcher {
    /// Parses query text and returns its best `k` results; fails with
    /// `SyntaxError` exactly where the text is malformed. The searcher stays
    /// usable either way.
    pub fn query(&self, text: &str, k: usize) -> (r: Result<Vec<Hit>, IndexError>)
        ensures
            match r {
                Ok(hits) => exists|q: Seq<Seq<ClauseModel>>|
                    parse_spec(text@) == Some(q) && hit_models(hits@) == #[trigger] top_k(
                        self.live(),
                        q,
                        k as nat,
                    ),
                Err(e) => e == IndexError::SyntaxError && parse_spec(text@) is None,
            },
    {
        let q = parse(text)?;
        let hits = self.search(&q, k);
        assert(parse_spec(text@) == Some(q@));
        Ok(hits)
    }
}

} // verus!
