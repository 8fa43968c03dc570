//! The corpus index: fits an IDF table from a corpus, scores documents
//! against it, and searches scored documents by keyword.

use vstd::prelude::*;

use crate::document::{
    distinct_keys, find_key, has_key, is_scoring_of, Document, Idf, Score,
};
use crate::tokenizer::{token_set, views_of, Tokenizer};

verus! {

/// In how many of the texts the term occurs; one text counts once however
/// often it repeats the term.
pub open spec fn df_of(docs: Seq<&str>, t: Seq<char>) -> nat
    decreases docs.len(),
{
    if docs.len() == 0 {
        0
    } else {
        df_of(docs.drop_last(), t) + if token_set(docs.last()@).contains(t) {
            1nat
        } else {
            0nat
        }
    }
}

/// The term occurs in at least one of the texts.
pub open spec fn in_corpus(docs: Seq<&str>, t: Seq<char>) -> bool {
    exists|i: int| 0 <= i < docs.len() && token_set(docs[i]@).contains(t)
}

/// A document frequency never exceeds the corpus size, and is positive
/// exactly for the terms the corpus contains.
pub proof fn lemma_df_of(docs: Seq<&str>, t: Seq<char>)
    ensures
        df_of(docs, t) <= docs.len(),
        df_of(docs, t) > 0 <==> in_corpus(docs, t),
    decreases docs.len(),
{
    if docs.len() == 0 {
    } else {
        let head = docs.drop_last();
        lemma_df_of(head, t);
        if df_of(docs, t) > 0 {
            if token_set(docs.last()@).contains(t) {
                assert(token_set(docs[docs.len() - 1]@).contains(t));
            } else {
                let i = choose|i: int|
                    0 <= i < head.len() && #[trigger] token_set(head[i]@).contains(t);
                assert(token_set(docs[i]@).contains(t));
            }
        }
        if in_corpus(docs, t) {
            let i = choose|i: int|
                0 <= i < docs.len() && #[trigger] token_set(docs[i]@).contains(t);
            if i < docs.len() - 1 {
                assert(token_set(head[i]@).contains(t));
                assert(in_corpus(head, t));
            }
        }
    }
}

/// Extending a prefix of the corpus by one text adds that text's terms to
/// the counts.
proof fn lemma_df_step(docs: Seq<&str>, i: int, t: Seq<char>)
    requires
        0 <= i < docs.len(),
    ensures
        df_of(docs.take(i + 1), t) == df_of(docs.take(i), t) + if token_set(
            docs[i]@,
        ).contains(t) {
            1nat
        } else {
            0nat
        },
        in_corpus(docs.take(i + 1), t) <==> in_corpus(docs.take(i), t) || token_set(
            docs[i]@,
        ).contains(t),
{
    assert(docs.take(i + 1).drop_last() =~= docs.take(i));
    assert(docs.take(i + 1).last() == docs[i]);
    if in_corpus(docs.take(i + 1), t) {
        let w = choose|w: int|
            0 <= w < docs.take(i + 1).len() && #[trigger] token_set(
                docs.take(i + 1)[w]@,
            ).contains(t);
        if w < i {
            assert(token_set(docs.take(i)[w]@).contains(t));
        }
    }
    if in_corpus(docs.take(i), t) {
        let w = choose|w: int|
            0 <= w < docs.take(i).len() && #[trigger] token_set(docs.take(i)[w]@).contains(t);
        assert(token_set(docs.take(i + 1)[w]@).contains(t));
    }
    if token_set(docs[i]@).contains(t) {
        assert(token_set(docs.take(i + 1)[i]@).contains(t));
    }
}

/// The subsequence of `docs` whose score maps contain the keyword, in order.
pub open spec fn matching_docs(docs: Seq<Document>, kw: Seq<char>) -> Seq<Document>
    decreases docs.len(),
{
    if docs.len() == 0 {
        Seq::empty()
    } else {
        let rest = matching_docs(docs.drop_last(), kw);
        if has_key(docs.last().tfidf_scores@, kw) {
            rest.push(docs.last())
        } else {
            rest
        }
    }
}

/// A keyword search returns a document exactly when its score map holds the
/// keyword; over documents none of which was scored with the keyword in
/// vocabulary it returns nothing.
pub proof fn lemma_matching_docs(docs: Seq<Document>, kw: Seq<char>)
    ensures
        forall|d: Document| #[trigger]
            matching_docs(docs, kw).contains(d) ==> docs.contains(d) && has_key(
                d.tfidf_scores@,
                kw,
            ),
        forall|i: int|
            0 <= i < docs.len() && has_key((#[trigger] docs[i]).tfidf_scores@, kw)
                ==> matching_docs(docs, kw).contains(docs[i]),
        (forall|i: int|
            0 <= i < docs.len() ==> !has_key((#[trigger] docs[i]).tfidf_scores@, kw))
            ==> matching_docs(docs, kw).len() == 0,
    decreases docs.len(),
{
    if docs.len() == 0 {
    } else {
        let head = docs.drop_last();
        lemma_matching_docs(head, kw);
        let m = matching_docs(docs, kw);
        let mh = matching_docs(head, kw);
        assert forall|d: Document| #[trigger] m.contains(d) implies docs.contains(d) && has_key(
            d.tfidf_scores@,
            kw,
        ) by {
            let w = choose|w: int| 0 <= w < m.len() && m[w] == d;
            if w < mh.len() {
                assert(mh.contains(d));
                let w2 = choose|w2: int| 0 <= w2 < head.len() && head[w2] == d;
                assert(docs[w2] == d);
            } else {
                assert(d == docs.last());
                assert(docs[docs.len() - 1] == d);
            }
        }
        assert forall|i: int|
            0 <= i < docs.len() && has_key(
                (#[trigger] docs[i]).tfidf_scores@,
                kw,
            ) implies m.contains(docs[i]) by {
            if i < docs.len() - 1 {
                assert(head[i] == docs[i]);
                assert(mh.contains(docs[i]));
                let w = choose|w: int| 0 <= w < mh.len() && mh[w] == docs[i];
                assert(m[w] == docs[i]);
            } else {
                assert(m.last() == docs[i]);
            }
        }
        if forall|i: int|
            0 <= i < docs.len() ==> !has_key((#[trigger] docs[i]).tfidf_scores@, kw) {
            assert(forall|i: int|
                0 <= i < head.len() ==> !has_key((#[trigger] head[i]).tfidf_scores@, kw));
            assert(!has_key(docs[docs.len() - 1].tfidf_scores@, kw));
        }
    }
}

/// Scoring against an empty idf table retains nothing: an unfitted index
/// gives every document an empty score map, so a later keyword search over
/// such documents can match nothing.
pub proof fn lemma_unfitted_scores_empty(
    scores: Seq<(String, Score)>,
    text: Seq<char>,
    table: Seq<(String, Idf)>,
)
    requires
        is_scoring_of(scores, text, table),
        table.len() == 0,
    ensures
        scores.len() == 0,
{
    if scores.len() > 0 {
        assert(has_key(table, scores[0].0@));
    }
}

/// The table a fit over `docs` produces: one entry per distinct corpus
/// term, holding the term's document frequency and the corpus size, the
/// exact form of the weight `ln(corpus_size/(doc_freq+1)+1)`.
pub open spec fn is_fit_of(table: Seq<(String, Idf)>, docs: Seq<&str>) -> bool {
    &&& distinct_keys(table)
    &&& forall|t: Seq<char>| #[trigger] has_key(table, t) <==> in_corpus(docs, t)
    &&& forall|i: int|
        0 <= i < table.len() ==> {
            &&& (#[trigger] table[i]).1.doc_freq == df_of(docs, table[i].0@)
            &&& table[i].1.corpus_size == docs.len()
        }
}

/// The corpus index: owns the fitted IDF table.  It is unfitted (the table
/// empty) until `fit` runs, and `fit` rebuilds the table from scratch.
pub struct TFIDF {
    /// Term to exact idf weight for every term of the fitted corpus.
    pub idf_scores: Vec<(String, Idf)>,
}

impl TFIDF {
    /// The idf table is a map: its keys are distinct.
    pub open spec fn wf(self) -> bool {
        distinct_keys(self.idf_scores@)
    }

    /// An unfitted index: the table is empty, so every transform yields an
    /// empty score map.
    pub fn new() -> (engine: TFIDF)
        ensures
            engine.idf_scores@.len() == 0,
            engine.wf(),
    {
        TFIDF { idf_scores: Vec::new() }
    }

    /// Fits the IDF table over the corpus: every distinct term of every
    /// text gets one entry, whose weight is `ln(N/(df+1)+1)` in exact form
    /// with `N` the corpus size and `df` the number of texts containing the
    /// term.  A term occurring several times in one text counts once for
    /// that text.  Any earlier table is overwritten entirely.
    pub fn fit(&mut self, documents: &[&str])
        ensures
            final(self).wf(),
            is_fit_of(final(self).idf_scores@, documents@),
    {
        let n_docs = documents.len();
        let mut df: Vec<(String, usize)> = Vec::new();
        let mut i: usize = 0;
        proof {
            assert(documents@.take(0) =~= Seq::<&str>::empty());
        }
        while i < documents.len()
            invariant
                i <= documents@.len(),
                n_docs == documents@.len(),
                distinct_keys(df@),
                forall|t: Seq<char>| #[trigger]
                    has_key(df@, t) <==> in_corpus(documents@.take(i as int), t),
                forall|e: int|
                    0 <= e < df@.len() ==> (#[trigger] df@[e]).1 == df_of(
                        documents@.take(i as int),
                        df@[e].0@,
                    ),
            decreases documents@.len() - i,
        {
            let ghost base = documents@.take(i as int);
            let tokens = Tokenizer::tokenize(documents[i]);
            let mut j: usize = 0;
            while j < tokens.len()
                invariant
                    j <= tokens@.len(),
                    i < documents@.len(),
                    n_docs == documents@.len(),
                    views_of(tokens@).no_duplicates(),
                    views_of(tokens@).to_set() == token_set(documents@[i as int]@),
                    base == documents@.take(i as int),
                    distinct_keys(df@),
                    forall|t: Seq<char>| #[trigger]
                        has_key(df@, t) <==> in_corpus(base, t) || exists|jj: int|
                            0 <= jj < j && views_of(tokens@)[jj] == t,
                    forall|e: int|
                        0 <= e < df@.len() ==> (#[trigger] df@[e]).1 == df_of(base, df@[e].0@)
                            + if exists|jj: int| 0 <= jj < j && views_of(tokens@)[jj]
                            == df@[e].0@ {
                            1nat
                        } else {
                            0nat
                        },
            decreases tokens@.len() - j,
            {
                let token = &tokens[j];
                proof {
                    assert(views_of(tokens@)[j as int] == token@);
                }
                match find_key(&df, token) {
                    Some(e) => {
                        let ghost pre = df@;
                        proof {
                            lemma_df_of(base, token@);
                            assert(!(exists|jj: int|
                                0 <= jj < j && views_of(tokens@)[jj] == pre[e as int].0@));
                            assert(pre[e as int].1 == df_of(base, token@));
                        }
                        let entry = df.remove(e);
                        proof {
                            assert(base.len() == i as int);
                            assert(entry.1 < n_docs);
                        }
                        let newc = entry.1 + 1;
                        df.insert(e, (entry.0, newc));
                        proof {
                            pre.remove_ensures(e as int);
                            pre.remove(e as int).insert_ensures(e as int, (entry.0, newc));
                            assert(df@ =~= pre.update(e as int, (entry.0, newc)));
                            assert(forall|x: int|
                                0 <= x < df@.len() && x != e ==> df@[x] == pre[x]);
                            assert(forall|x: int|
                                0 <= x < df@.len() ==> (#[trigger] df@[x]).0@ == pre[x].0@);
                            assert forall|t: Seq<char>| #[trigger]
                                has_key(df@, t) <==> in_corpus(base, t) || exists|jj: int|
                                    0 <= jj < j + 1 && views_of(tokens@)[jj] == t by {
                                if has_key(df@, t) {
                                    let x = choose|x: int|
                                        0 <= x < df@.len() && df@[x].0@ == t;
                                    assert(pre[x].0@ == t);
                                    assert(has_key(pre, t));
                                }
                                if in_corpus(base, t) || (exists|jj: int|
                                    0 <= jj < j + 1 && views_of(tokens@)[jj] == t) {
                                    if in_corpus(base, t) || (exists|jj: int|
                                        0 <= jj < j && views_of(tokens@)[jj] == t) {
                                        assert(has_key(pre, t));
                                        let x = choose|x: int|
                                            0 <= x < pre.len() && pre[x].0@ == t;
                                        assert(df@[x].0@ == t);
                                    } else {
                                        assert(t == token@);
                                        assert(df@[e as int].0@ == t);
                                    }
                                }
                            }
                            assert forall|x: int| 0 <= x < df@.len() implies (#[trigger]
                            df@[x]).1 == df_of(base, df@[x].0@) + (if exists|jj: int|
                                0 <= jj < j + 1 && views_of(tokens@)[jj] == df@[x].0@ {
                                1nat
                            } else {
                                0nat
                            }) by {
                                if x == e {
                                    assert(df@[x].0@ == token@);
                                    assert(views_of(tokens@)[j as int] == df@[x].0@);
                                } else {
                                    assert(df@[x] == pre[x]);
                                    if exists|jj: int|
                                        0 <= jj < j + 1 && views_of(tokens@)[jj]
                                            == df@[x].0@ {
                                        let jj = choose|jj: int|
                                            0 <= jj < j + 1 && views_of(tokens@)[jj]
                                                == df@[x].0@;
                                        assert(jj != j);
                                    }
                                }
                            }
                        }
                    },
                    None => {
                        let ghost pre = df@;
                        proof {
                            assert(!has_key(pre, token@));
                            assert(!in_corpus(base, token@));
                            lemma_df_of(base, token@);
                            assert(df_of(base, token@) == 0);
                        }
                        df.push((token.clone(), 1));
                        proof {
                            assert(df@ =~= pre.push((df@[pre.len() as int].0, 1usize)));
                            assert(df@[pre.len() as int].0@ == token@);
                            assert forall|t: Seq<char>| #[trigger]
                                has_key(df@, t) <==> in_corpus(base, t) || exists|jj: int|
                                    0 <= jj < j + 1 && views_of(tokens@)[jj] == t by {
                                if has_key(df@, t) {
                                    let x = choose|x: int|
                                        0 <= x < df@.len() && df@[x].0@ == t;
                                    if x < pre.len() {
                                        assert(has_key(pre, t));
                                    } else {
                                        assert(t == token@);
                                        assert(views_of(tokens@)[j as int] == t);
                                    }
                                }
                                if in_corpus(base, t) || (exists|jj: int|
                                    0 <= jj < j + 1 && views_of(tokens@)[jj] == t) {
                                    if in_corpus(base, t) || (exists|jj: int|
                                        0 <= jj < j && views_of(tokens@)[jj] == t) {
                                        assert(has_key(pre, t));
                                        let x = choose|x: int|
                                            0 <= x < pre.len() && pre[x].0@ == t;
                                        assert(df@[x].0@ == t);
                                    } else {
                                        assert(t == token@);
                                        assert(df@[pre.len() as int].0@ == t);
                                    }
                                }
                            }
                            assert forall|x: int| 0 <= x < df@.len() implies (#[trigger]
                            df@[x]).1 == df_of(base, df@[x].0@) + (if exists|jj: int|
                                0 <= jj < j + 1 && views_of(tokens@)[jj] == df@[x].0@ {
                                1nat
                            } else {
                                0nat
                            }) by {
                                if x == pre.len() {
                                    assert(df@[x].0@ == token@);
                                    assert(views_of(tokens@)[j as int] == df@[x].0@);
                                } else {
                                    assert(df@[x] == pre[x]);
                                    if exists|jj: int|
                                        0 <= jj < j + 1 && views_of(tokens@)[jj]
                                            == df@[x].0@ {
                                        let jj = choose|jj: int|
                                            0 <= jj < j + 1 && views_of(tokens@)[jj]
                                                == df@[x].0@;
                                        assert(jj != j);
                                    }
                                }
                            }
                            assert(distinct_keys(df@));
                        }
                    },
                }
                j = j + 1;
            }
            proof {
                assert forall|t: Seq<char>| #[trigger]
                    has_key(df@, t) <==> in_corpus(documents@.take(i as int + 1), t) by {
                    lemma_df_step(documents@, i as int, t);
                    if has_key(df@, t) {
                        if !in_corpus(base, t) {
                            let jj = choose|jj: int|
                                0 <= jj < j && views_of(tokens@)[jj] == t;
                            assert(views_of(tokens@).to_set().contains(t));
                        }
                    }
                    if in_corpus(documents@.take(i as int + 1), t) && !in_corpus(base, t) {
                        assert(token_set(documents@[i as int]@).contains(t));
                        assert(views_of(tokens@).to_set().contains(t));
                        let jj = choose|jj: int|
                            0 <= jj < views_of(tokens@).len() && views_of(tokens@)[jj] == t;
                    }
                }
                assert forall|e: int| 0 <= e < df@.len() implies (#[trigger] df@[e]).1
                    == df_of(documents@.take(i as int + 1), df@[e].0@) by {
                    lemma_df_step(documents@, i as int, df@[e].0@);
                    if token_set(documents@[i as int]@).contains(df@[e].0@) {
                        assert(views_of(tokens@).to_set().contains(df@[e].0@));
                        let jj = choose|jj: int|
                            0 <= jj < views_of(tokens@).len() && views_of(tokens@)[jj]
                                == df@[e].0@;
                    } else {
                        if exists|jj: int|
                            0 <= jj < j && views_of(tokens@)[jj] == df@[e].0@ {
                            let jj = choose|jj: int|
                                0 <= jj < j && views_of(tokens@)[jj] == df@[e].0@;
                            assert(views_of(tokens@).to_set().contains(df@[e].0@));
                        }
                    }
                }
            }
            i = i + 1;
        }
        proof {
            assert(documents@.take(documents@.len() as int) =~= documents@);
        }
        let mut table: Vec<(String, Idf)> = Vec::new();
        let mut e: usize = 0;
        while e < df.len()
            invariant
                e <= df@.len(),
                n_docs == documents@.len(),
                distinct_keys(df@),
                forall|t: Seq<char>| #[trigger] has_key(df@, t) <==> in_corpus(documents@, t),
                forall|x: int|
                    0 <= x < df@.len() ==> (#[trigger] df@[x]).1 == df_of(
                        documents@,
                        df@[x].0@,
                    ),
                table@.len() == e,
                forall|x: int|
                    0 <= x < e ==> (#[trigger] table@[x]).0@ == df@[x].0@ && table@[x].1
                        == (Idf { doc_freq: df@[x].1, corpus_size: n_docs }),
            decreases df@.len() - e,
        {
            let ent = &df[e];
            table.push((ent.0.clone(), Idf { doc_freq: ent.1, corpus_size: n_docs }));
            e = e + 1;
        }
        proof {
            assert(distinct_keys(table@));
            assert forall|t: Seq<char>| #[trigger]
                has_key(table@, t) <==> in_corpus(documents@, t) by {
                if has_key(table@, t) {
                    let x = choose|x: int| 0 <= x < table@.len() && table@[x].0@ == t;
                    assert(df@[x].0@ == t);
                    assert(has_key(df@, t));
                }
                if in_corpus(documents@, t) {
                    assert(has_key(df@, t));
                    let x = choose|x: int| 0 <= x < df@.len() && df@[x].0@ == t;
                    assert(table@[x].0@ == t);
                }
            }
        }
        self.idf_scores = table;
    }

    /// Builds a document over `document` and scores it against the current
    /// table; the scores are not normalized.
    pub fn transform(&self, document: &str) -> (doc: Document)
        requires
            self.wf(),
        ensures
            doc.content@ == document@,
            doc.normalized == false,
            is_scoring_of(doc.tfidf_scores@, document@, self.idf_scores@),
            doc.wf(),
    {
        let mut doc = Document::new(document);
        doc.compute_tfidf(&self.idf_scores);
        doc
    }

    /// Element-wise `transform`.
    pub fn transform_all(&self, documents: &[&str]) -> (docs: Vec<Document>)
        requires
            self.wf(),
        ensures
            docs@.len() == documents@.len(),
            forall|i: int|
                0 <= i < docs@.len() ==> {
                    &&& (#[trigger] docs@[i]).content@ == documents@[i]@
                    &&& docs@[i].normalized == false
                    &&& is_scoring_of(docs@[i].tfidf_scores@, documents@[i]@, self.idf_scores@)
                    &&& docs@[i].wf()
                },
    {
        let mut docs: Vec<Document> = Vec::new();
        let mut i: usize = 0;
        while i < documents.len()
            invariant
                self.wf(),
                i <= documents@.len(),
                docs@.len() == i,
                forall|x: int|
                    0 <= x < i ==> {
                        &&& (#[trigger] docs@[x]).content@ == documents@[x]@
                        &&& docs@[x].normalized == false
                        &&& is_scoring_of(
                            docs@[x].tfidf_scores@,
                            documents@[x]@,
                            self.idf_scores@,
                        )
                        &&& docs@[x].wf()
                    },
            decreases documents@.len() - i,
        {
            let doc = self.transform(documents[i]);
            docs.push(doc);
            i = i + 1;
        }
        docs
    }

    /// Every document whose score map contains `keyword` as a key, by
    /// reference and in order.  Membership of the key decides, not the
    /// weight under it; against an unfitted index nothing matches, since
    /// every score map is empty.
    pub fn search_by_keyword<'a>(
        &'a self,
        keyword: &str,
        documents: &'a [Document],
    ) -> (r: Vec<&'a Document>)
        ensures
            r@.map_values(|d: &Document| *d) == matching_docs(documents@, keyword@),
    {
        let kw = keyword.to_owned();
        let mut r: Vec<&'a Document> = Vec::new();
        let mut i: usize = 0;
        proof {
            assert(documents@.take(0) =~= Seq::<Document>::empty());
            assert(r@.map_values(|d: &Document| *d) =~= matching_docs(
                documents@.take(0),
                keyword@,
            ));
        }
        while i < documents.len()
            invariant
                i <= documents@.len(),
                kw@ == keyword@,
                r@.map_values(|d: &Document| *d) == matching_docs(
                    documents@.take(i as int),
                    keyword@,
                ),
            decreases documents@.len() - i,
        {
            let ghost prefix = documents@.take(i as int);
            proof {
                assert(documents@.take(i as int + 1).drop_last() =~= prefix);
                assert(documents@.take(i as int + 1).last() == documents@[i as int]);
            }
            let d = &documents[i];
            match find_key(&d.tfidf_scores, &kw) {
                Some(_) => {
                    let ghost pre = r@;
                    r.push(d);
                    proof {
                        assert(has_key(documents@[i as int].tfidf_scores@, keyword@));
                        assert(r@.map_values(|d: &Document| *d) =~= pre.map_values(
                            |d: &Document| *d,
                        ).push(documents@[i as int]));
                    }
                },
                None => {
                    proof {
                        assert(!has_key(documents@[i as int].tfidf_scores@, keyword@));
                    }
                },
            }
            i = i + 1;
        }
        proof {
            assert(documents@.take(documents@.len() as int) =~= documents@);
        }
        r
    }
}

} // verus!
