//! Documents and their TF-IDF score maps.
//!
//! A score is kept in exact closed form.  The numeric weight of a term is
//! `ln(N/(df+1)+1) / n`, where `N` is the corpus size, `df` the term's
//! document frequency, and `n` the number of distinct terms of the document;
//! a `Score` stores those three integers, which determine the weight
//! exactly.  Normalization divides every weight of a document by the
//! document's Euclidean norm; since the stored integers still determine the
//! normalized values, it is recorded as a flag rather than by rewriting the
//! entries.  Numeric evaluation of the logarithm is left to callers.

use vstd::arithmetic::mul::lemma_mul_upper_bound;
use vstd::prelude::*;

use crate::tokenizer::{token_set, views_of, Tokenizer};

verus! {

/// One fitted inverse-document-frequency weight, in exact form: the weight
/// is `ln(corpus_size / (doc_freq + 1) + 1)`.
#[derive(Clone, Copy, Debug, PartialEq, Eq, Structural)]
pub struct Idf {
    /// In how many corpus documents the term occurs.
    pub doc_freq: usize,
    /// How many documents the corpus has.
    pub corpus_size: usize,
}

/// One TF-IDF weight, in exact form: the weight is the idf weight times the
/// term frequency `1 / num_terms`.
#[derive(Clone, Copy, Debug, PartialEq, Eq, Structural)]
pub struct Score {
    /// The fitted idf weight of the term.
    pub idf: Idf,
    /// The number of distinct terms of the scored document.
    pub num_terms: usize,
}

/// The keys of an association list are pairwise distinct.
pub open spec fn distinct_keys<V>(entries: Seq<(String, V)>) -> bool {
    forall|i: int, j: int|
        0 <= i < j < entries.len() ==> entries[i].0@ != entries[j].0@
}

/// Some entry of the association list has the given key.
pub open spec fn has_key<V>(entries: Seq<(String, V)>, t: Seq<char>) -> bool {
    exists|i: int| 0 <= i < entries.len() && entries[i].0@ == t
}

/// The value stored under a key; meaningful when the key is present and the
/// keys are distinct.
pub open spec fn val_of<V>(entries: Seq<(String, V)>, t: Seq<char>) -> V {
    entries[choose|i: int| 0 <= i < entries.len() && entries[i].0@ == t].1
}

/// Under distinct keys, the value looked up for the key of entry `i` is that
/// entry's value.
pub proof fn lemma_val_at<V>(entries: Seq<(String, V)>, i: int)
    requires
        distinct_keys(entries),
        0 <= i < entries.len(),
    ensures
        has_key(entries, entries[i].0@),
        val_of(entries, entries[i].0@) == entries[i].1,
{
    let t = entries[i].0@;
    assert(has_key(entries, t));
    let i0 = choose|j: int| 0 <= j < entries.len() && entries[j].0@ == t;
    assert(i0 == i);
}

/// Finds the position of the first entry with the given key.
pub(crate) fn find_key<V>(entries: &Vec<(String, V)>, key: &String) -> (r: Option<usize>)
    ensures
        r matches Some(i) ==> i < entries@.len() && entries@[i as int].0@ == key@,
        r is None ==> !has_key(entries@, key@),
{
    let mut i: usize = 0;
    while i < entries.len()
        invariant
            i <= entries@.len(),
            forall|k: int| 0 <= k < i ==> entries@[k].0@ != key@,
        decreases entries@.len() - i,
    {
        if entries[i].0.eq(key) {
            return Some(i);
        }
        i = i + 1;
    }
    None
}

/// The numeric idf weight of `a` is at least that of `b`.  The weights are
/// `ln(N/(df+1)+1)` and `ln` is strictly increasing, so they compare as the
/// rationals `N/(df+1)` do, here written by cross multiplication.
pub open spec fn idf_ge(a: Idf, b: Idf) -> bool {
    a.corpus_size * (b.doc_freq + 1) >= b.corpus_size * (a.doc_freq + 1)
}

/// The numeric TF-IDF weight of `a` is at least that of `b`: within one
/// document all scores share `num_terms`, so the weights compare as their
/// idf parts do.
pub open spec fn score_ge(a: Score, b: Score) -> bool {
    a.num_terms == b.num_terms && idf_ge(a.idf, b.idf)
}

/// The idf comparison is transitive.
pub proof fn lemma_idf_ge_trans(a: Idf, b: Idf, c: Idf)
    requires
        idf_ge(a, b),
        idf_ge(b, c),
    ensures
        idf_ge(a, c),
{
    assert(a.corpus_size * (c.doc_freq + 1) >= c.corpus_size * (a.doc_freq + 1))
        by (nonlinear_arith)
        requires
            a.corpus_size * (b.doc_freq + 1) >= b.corpus_size * (a.doc_freq + 1),
            b.corpus_size * (c.doc_freq + 1) >= c.corpus_size * (b.doc_freq + 1),
            a.doc_freq >= 0,
            b.doc_freq >= 0,
            c.doc_freq >= 0,
            a.corpus_size >= 0,
            b.corpus_size >= 0,
            c.corpus_size >= 0,
    ;
}

/// Compares two idf weights numerically.
fn idf_at_least(a: &Idf, b: &Idf) -> (r: bool)
    ensures
        r == idf_ge(*a, *b),
{
    proof {
        lemma_mul_upper_bound(
            a.corpus_size as int,
            0xFFFF_FFFF_FFFF_FFFF,
            b.doc_freq as int + 1,
            0x1_0000_0000_0000_0000,
        );
        lemma_mul_upper_bound(
            b.corpus_size as int,
            0xFFFF_FFFF_FFFF_FFFF,
            a.doc_freq as int + 1,
            0x1_0000_0000_0000_0000,
        );
    }
    let left = (a.corpus_size as u128) * ((b.doc_freq as u128) + 1);
    let right = (b.corpus_size as u128) * ((a.doc_freq as u128) + 1);
    left >= right
}

/// The score map a scoring pass produces: exactly the terms of `text` that
/// the idf table knows, each with the table's idf weight and the document's
/// distinct-term count.
pub open spec fn is_scoring_of(
    scores: Seq<(String, Score)>,
    text: Seq<char>,
    table: Seq<(String, Idf)>,
) -> bool {
    &&& distinct_keys(scores)
    &&& forall|t: Seq<char>|
        #[trigger] has_key(scores, t) <==> token_set(text).contains(t) && has_key(table, t)
    &&& forall|i: int|
        0 <= i < scores.len() ==> {
            &&& token_set(text).contains((#[trigger] scores[i]).0@)
            &&& has_key(table, scores[i].0@)
            &&& scores[i].1 == (Score {
                idf: val_of(table, scores[i].0@),
                num_terms: token_set(text).len() as usize,
            })
        }
}

/// Whether some stored weight is numerically positive: `ln(N/(df+1)+1)` is
/// positive exactly when `N` is, and the term frequency factor always is.
pub open spec fn has_positive_weight(scores: Seq<(String, Score)>) -> bool {
    exists|i: int| 0 <= i < scores.len() && scores[i].1.idf.corpus_size > 0
}

/// The `normalized` flag after one normalization pass: dividing by the norm
/// changes the map exactly when the norm is positive; a zero norm (an empty
/// map, or all weights zero) leaves the map as it is.
pub open spec fn normalize_flag(scores: Seq<(String, Score)>, normalized: bool) -> bool {
    normalized || has_positive_weight(scores)
}

/// Normalization is idempotent: once the flag of a document is set by a
/// first pass, a second pass over the unchanged entries changes nothing.
pub proof fn lemma_normalize_idempotent(scores: Seq<(String, Score)>, normalized: bool)
    ensures
        normalize_flag(scores, normalize_flag(scores, normalized)) == normalize_flag(
            scores,
            normalized,
        ),
{
}

/// A text together with its TF-IDF score map.
#[derive(Debug, Clone)]
pub struct Document {
    /// The raw text.
    pub content: String,
    /// Term to exact TF-IDF weight; populated by a scoring pass, only for
    /// terms the idf table knows.
    pub tfidf_scores: Vec<(String, Score)>,
    /// Whether the weights are to be read as divided by the document's
    /// Euclidean norm.
    pub normalized: bool,
}

impl Document {
    /// The score map is a map: keys are distinct; and every score carries
    /// the document's own distinct-term count.
    pub open spec fn wf(self) -> bool {
        &&& distinct_keys(self.tfidf_scores@)
        &&& forall|i: int|
            0 <= i < self.tfidf_scores@.len()
                ==> (#[trigger] self.tfidf_scores@[i]).1.num_terms == token_set(
                self.content@,
            ).len() as usize
    }

    /// A document over the given text, with no scores yet.
    pub fn new(content: &str) -> (d: Document)
        ensures
            d.content@ == content@,
            d.tfidf_scores@.len() == 0,
            d.normalized == false,
            d.wf(),
    {
        Document { content: content.to_owned(), tfidf_scores: Vec::new(), normalized: false }
    }

    /// Scores the document against an idf table.  The distinct terms of the
    /// content are counted as `n`; every term the table knows gets the exact
    /// weight `idf * 1/n`; terms outside the table are dropped.  A document
    /// with no terms gets an empty map.  Earlier scores and the normalized
    /// flag are reset.
    pub fn compute_tfidf(&mut self, idf_scores: &Vec<(String, Idf)>)
        requires
            distinct_keys(idf_scores@),
        ensures
            final(self).content == old(self).content,
            final(self).normalized == false,
            is_scoring_of(final(self).tfidf_scores@, old(self).content@, idf_scores@),
            final(self).wf(),
    {
        let tokens = Tokenizer::tokenize(self.content.as_str());
        let n = tokens.len();
        proof {
            views_of(tokens@).unique_seq_to_set();
        }
        let ghost text = self.content@;
        let mut scores: Vec<(String, Score)> = Vec::new();
        let mut j: usize = 0;
        while j < tokens.len()
            invariant
                n == tokens@.len(),
                j <= n,
                views_of(tokens@).no_duplicates(),
                views_of(tokens@).to_set() == token_set(text),
                n == token_set(text).len(),
                distinct_keys(idf_scores@),
                distinct_keys(scores@),
                forall|t: Seq<char>|
                    #[trigger] has_key(scores@, t) <==> exists|jj: int|
                        0 <= jj < j && views_of(tokens@)[jj] == t && has_key(idf_scores@, t),
                forall|i: int|
                    0 <= i < scores@.len() ==> {
                        &&& token_set(text).contains((#[trigger] scores@[i]).0@)
                        &&& has_key(idf_scores@, scores@[i].0@)
                        &&& scores@[i].1 == (Score {
                            idf: val_of(idf_scores@, scores@[i].0@),
                            num_terms: n,
                        })
                    },
            decreases tokens@.len() - j,
        {
            let token = &tokens[j];
            match find_key(idf_scores, token) {
                Some(ti) => {
                    let idf = idf_scores[ti].1;
                    proof {
                        lemma_val_at(idf_scores@, ti as int);
                        assert(views_of(tokens@)[j as int] == token@);
                        assert(views_of(tokens@).to_set().contains(token@));
                        assert(!has_key(scores@, token@));
                    }
                    let ghost pre = scores@;
                    scores.push((token.clone(), Score { idf, num_terms: n }));
                    proof {
                        assert forall|t: Seq<char>| #[trigger]
                            has_key(scores@, t) implies exists|jj: int|
                            0 <= jj < j + 1 && views_of(tokens@)[jj] == t && has_key(
                                idf_scores@,
                                t,
                            ) by {
                            let i = choose|i: int|
                                0 <= i < scores@.len() && scores@[i].0@ == t;
                            if i < pre.len() {
                                assert(has_key(pre, t));
                            } else {
                                assert(views_of(tokens@)[j as int] == t);
                            }
                        }
                        assert forall|t: Seq<char>|
                            (exists|jj: int|
                                0 <= jj < j + 1 && views_of(tokens@)[jj] == t && has_key(
                                    idf_scores@,
                                    t,
                                )) implies #[trigger] has_key(scores@, t) by {
                            let jj = choose|jj: int|
                                0 <= jj < j + 1 && views_of(tokens@)[jj] == t && has_key(
                                    idf_scores@,
                                    t,
                                );
                            if jj < j {
                                assert(has_key(pre, t));
                                let i = choose|i: int| 0 <= i < pre.len() && pre[i].0@ == t;
                                assert(scores@[i].0@ == t);
                            } else {
                                assert(scores@[pre.len() as int].0@ == t);
                            }
                        }
                    }
                },
                None => {
                    proof {
                        assert forall|t: Seq<char>| #[trigger]
                            has_key(scores@, t) implies exists|jj: int|
                            0 <= jj < j + 1 && views_of(tokens@)[jj] == t && has_key(
                                idf_scores@,
                                t,
                            ) by {}
                        assert forall|t: Seq<char>|
                            (exists|jj: int|
                                0 <= jj < j + 1 && views_of(tokens@)[jj] == t && has_key(
                                    idf_scores@,
                                    t,
                                )) implies #[trigger] has_key(scores@, t) by {
                            let jj = choose|jj: int|
                                0 <= jj < j + 1 && views_of(tokens@)[jj] == t && has_key(
                                    idf_scores@,
                                    t,
                                );
                            assert(jj < j || t == token@);
                        }
                    }
                },
            }
            j = j + 1;
        }
        proof {
            assert forall|t: Seq<char>| #[trigger]
                has_key(scores@, t) <==> token_set(text).contains(t) && has_key(
                idf_scores@,
                t,
            ) by {
                if token_set(text).contains(t) && has_key(idf_scores@, t) {
                    assert(views_of(tokens@).to_set().contains(t));
                    let jj = choose|jj: int|
                        0 <= jj < views_of(tokens@).len() && views_of(tokens@)[jj] == t;
                    assert(0 <= jj < j && views_of(tokens@)[jj] == t && has_key(idf_scores@, t));
                }
            }
        }
        self.tfidf_scores = scores;
        self.normalized = false;
    }

    /// The `k` highest-weighted terms, highest first.  Returns all terms
    /// when fewer than `k` are scored.  Exact ties in weight are returned in
    /// an unspecified order (the order the score map happens to hold them).
    pub fn get_top_keywords(&self, k: usize) -> (r: Vec<String>)
        requires
            self.wf(),
        ensures
            r@.len() == (if (k as int) < self.tfidf_scores@.len() {
                k as int
            } else {
                self.tfidf_scores@.len() as int
            }),
            views_of(r@).no_duplicates(),
            forall|i: int| 0 <= i < r@.len() ==> has_key(self.tfidf_scores@, (#[trigger] r@[i])@),
            forall|i: int, j: int|
                0 <= i < j < r@.len() ==> score_ge(
                    val_of(self.tfidf_scores@, r@[i]@),
                    val_of(self.tfidf_scores@, r@[j]@),
                ),
            forall|t: Seq<char>, i: int|
                #![trigger views_of(r@).contains(t), r@[i]]
                has_key(self.tfidf_scores@, t) && !views_of(r@).contains(t) && 0 <= i < r@.len()
                    ==> score_ge(
                    val_of(self.tfidf_scores@, r@[i]@),
                    val_of(self.tfidf_scores@, t),
                ),
    {
        let ghost sc = self.tfidf_scores@;
        let ghost nterms = token_set(self.content@).len() as usize;
        proof {
            assert forall|t: Seq<char>| #[trigger]
                has_key(sc, t) implies val_of(sc, t).num_terms == nterms by {
                let i = choose|i: int| 0 <= i < sc.len() && sc[i].0@ == t;
                assert(sc[i].1.num_terms == nterms);
            }
        }
        let mut rest: Vec<(String, Score)> = Vec::new();
        let mut i: usize = 0;
        while i < self.tfidf_scores.len()
            invariant
                i <= self.tfidf_scores@.len(),
                rest@ == self.tfidf_scores@.subrange(0, i as int),
            decreases self.tfidf_scores@.len() - i,
        {
            let e = &self.tfidf_scores[i];
            rest.push((e.0.clone(), e.1));
            proof {
                assert(rest@ =~= self.tfidf_scores@.subrange(0, i as int + 1));
            }
            i = i + 1;
        }
        proof {
            assert(rest@ =~= sc);
            assert forall|p: int| 0 <= p < rest@.len() implies #[trigger] has_key(
                sc,
                rest@[p].0@,
            ) && val_of(sc, rest@[p].0@) == rest@[p].1 by {
                lemma_val_at(sc, p);
            }
            assert forall|t: Seq<char>| #[trigger] has_key(sc, t) implies has_key(rest@, t) by {}
        }
        let kk = if k < rest.len() {
            k
        } else {
            rest.len()
        };
        let mut out: Vec<String> = Vec::new();
        while out.len() < kk
            invariant
                kk <= sc.len(),
                kk == (if (k as int) < sc.len() {
                    k as int
                } else {
                    sc.len() as int
                }),
                out@.len() <= kk,
                out@.len() + rest@.len() == sc.len(),
                distinct_keys(rest@),
                views_of(out@).no_duplicates(),
                forall|p: int|
                    0 <= p < rest@.len() ==> #[trigger] has_key(sc, rest@[p].0@) && val_of(
                        sc,
                        rest@[p].0@,
                    ) == rest@[p].1,
                forall|i: int| 0 <= i < out@.len() ==> has_key(sc, (#[trigger] out@[i])@),
                forall|i: int, p: int|
                    0 <= i < out@.len() && 0 <= p < rest@.len() ==> (#[trigger] out@[i])@ != (
                    #[trigger] rest@[p]).0@,
                forall|i: int, j: int|
                    0 <= i < j < out@.len() ==> score_ge(
                        val_of(sc, out@[i]@),
                        val_of(sc, out@[j]@),
                    ),
                forall|i: int, p: int|
                    0 <= i < out@.len() && 0 <= p < rest@.len() ==> score_ge(
                        val_of(sc, (#[trigger] out@[i])@),
                        (#[trigger] rest@[p]).1,
                    ),
                forall|t: Seq<char>|
                    #[trigger] has_key(sc, t) ==> views_of(out@).contains(t) || has_key(rest@, t),
                forall|t: Seq<char>| #[trigger] has_key(sc, t) ==> val_of(sc, t).num_terms
                    == nterms,
            decreases kk - out@.len(),
        {
            let mut m: usize = 0;
            let mut q: usize = 1;
            while q < rest.len()
                invariant
                    rest@.len() > 0,
                    m < rest@.len(),
                    q <= rest@.len(),
                    forall|p: int|
                        0 <= p < q ==> idf_ge(rest@[m as int].1.idf, (#[trigger] rest@[p]).1.idf),
                decreases rest@.len() - q,
            {
                if idf_at_least(&rest[q].1.idf, &rest[m].1.idf) {
                    proof {
                        assert forall|p: int| 0 <= p < q implies idf_ge(
                            rest@[q as int].1.idf,
                            (#[trigger] rest@[p]).1.idf,
                        ) by {
                            lemma_idf_ge_trans(
                                rest@[q as int].1.idf,
                                rest@[m as int].1.idf,
                                rest@[p].1.idf,
                            );
                        }
                    }
                    m = q;
                }
                q = q + 1;
            }
            let ghost pr = rest@;
            let ghost po = out@;
            let pair = rest.remove(m);
            out.push(pair.0);
            proof {
                pr.remove_ensures(m as int);
                assert forall|p0: int| 0 <= p0 < pr.len() implies #[trigger] has_key(
                    sc,
                    pr[p0].0@,
                ) && val_of(sc, pr[p0].0@) == pr[p0].1 by {}
                assert forall|p: int| 0 <= p < rest@.len() implies #[trigger] has_key(
                    sc,
                    rest@[p].0@,
                ) && val_of(sc, rest@[p].0@) == rest@[p].1 by {
                    let p0 = if p < m { p } else { p + 1 };
                    assert(rest@[p] == pr[p0]);
                    assert(has_key(sc, pr[p0].0@) && val_of(sc, pr[p0].0@) == pr[p0].1);
                }
                let ghost ov = views_of(out@);
                assert(ov =~= views_of(po).push(pair.0@));
                assert(pair == pr[m as int]);
                assert(has_key(sc, pr[m as int].0@));
                assert(val_of(sc, pr[m as int].0@) == pr[m as int].1);
                assert(val_of(sc, pr[m as int].0@).num_terms == nterms);
                assert(val_of(sc, pair.0@) == pr[m as int].1);
                // keys of the new out stay distinct: the taken key was in rest
                assert(forall|i: int|
                    0 <= i < po.len() ==> (#[trigger] po[i])@ != pr[m as int].0@);
                assert forall|i: int, j: int| 0 <= i < j < ov.len() implies ov[i] != ov[j] by {
                    if j < po.len() {
                        assert(views_of(po)[i] != views_of(po)[j]);
                    } else {
                        assert(ov[j] == pair.0@);
                        assert(ov[i] == po[i]@);
                    }
                }
                assert(views_of(out@).no_duplicates());
                // the new rest keeps distinct keys and value agreement
                assert forall|i: int, j: int| 0 <= i < j < rest@.len() implies (#[trigger]
                rest@[i]).0@ != (#[trigger] rest@[j]).0@ by {
                    let i0 = if i < m { i } else { i + 1 };
                    let j0 = if j < m { j } else { j + 1 };
                    assert(rest@[i] == pr[i0] && rest@[j] == pr[j0]);
                }
                // sortedness: the appended term is dominated by every earlier one
                assert forall|i: int, j: int| 0 <= i < j < out@.len() implies score_ge(
                    val_of(sc, out@[i]@),
                    val_of(sc, out@[j]@),
                ) by {
                    if j == po.len() {
                        assert(out@[j]@ == pair.0@);
                        assert(score_ge(val_of(sc, po[i]@), pr[m as int].1));
                    } else {
                        assert(score_ge(val_of(sc, po[i]@), val_of(sc, po[j]@)));
                    }
                }
                // domination of the new rest by the new out
                assert forall|i: int, p: int|
                    0 <= i < out@.len() && 0 <= p < rest@.len() implies score_ge(
                    val_of(sc, (#[trigger] out@[i])@),
                    (#[trigger] rest@[p]).1,
                ) by {
                    let p0 = if p < m { p } else { p + 1 };
                    assert(rest@[p] == pr[p0]);
                    if i < po.len() {
                        assert(score_ge(val_of(sc, po[i]@), pr[p0].1));
                    } else {
                        assert(out@[i]@ == pair.0@);
                        assert(has_key(sc, rest@[p].0@));
                        assert(val_of(sc, rest@[p].0@) == rest@[p].1);
                        assert(val_of(sc, rest@[p].0@).num_terms == nterms);
                        assert(idf_ge(pr[m as int].1.idf, pr[p0].1.idf));
                        assert(rest@[p].1 == pr[p0].1);
                        assert(val_of(sc, pair.0@) == pr[m as int].1);
                        assert(val_of(sc, pair.0@).num_terms == nterms);
                    }
                }
                // coverage: every scored term is still in out or in rest
                assert forall|t: Seq<char>| #[trigger] has_key(sc, t) implies views_of(
                    out@,
                ).contains(t) || has_key(rest@, t) by {
                    if views_of(po).contains(t) {
                        let i = choose|i: int|
                            0 <= i < views_of(po).len() && views_of(po)[i] == t;
                        assert(views_of(out@)[i] == t);
                    } else if has_key(pr, t) {
                        let p0 = choose|p0: int| 0 <= p0 < pr.len() && pr[p0].0@ == t;
                        if p0 == m {
                            assert(views_of(out@)[po.len() as int] == t);
                        } else {
                            let p1 = if p0 < m { p0 } else { p0 - 1 };
                            assert(rest@[p1] == pr[p0]);
                            assert(has_key(rest@, t));
                        }
                    }
                }
            }
        }
        proof {
            assert forall|t: Seq<char>, i: int|
                #![trigger views_of(out@).contains(t), out@[i]]
                has_key(sc, t) && !views_of(out@).contains(t) && 0 <= i
                    < out@.len() implies score_ge(
                val_of(sc, out@[i]@),
                val_of(sc, t),
            ) by {
                assert(has_key(rest@, t));
                let p = choose|p: int| 0 <= p < rest@.len() && rest@[p].0@ == t;
                assert(val_of(sc, rest@[p].0@) == rest@[p].1);
                assert(score_ge(val_of(sc, out@[i]@), rest@[p].1));
            }
        }
        out
    }

    /// Divides every weight by the document's Euclidean norm, as recorded by
    /// the `normalized` flag; when the norm is zero (no scores, or all
    /// weights zero) the document is left unchanged.
    pub fn normalize_tfidf_scores(&mut self)
        ensures
            final(self).content == old(self).content,
            final(self).tfidf_scores == old(self).tfidf_scores,
            final(self).normalized == normalize_flag(
                old(self).tfidf_scores@,
                old(self).normalized,
            ),
    {
        let mut i: usize = 0;
        while i < self.tfidf_scores.len()
            invariant
                *self == *old(self),
                i <= self.tfidf_scores@.len(),
                forall|k: int|
                    0 <= k < i ==> (#[trigger] self.tfidf_scores@[k]).1.idf.corpus_size == 0,
            decreases self.tfidf_scores@.len() - i,
        {
            if self.tfidf_scores[i].1.idf.corpus_size > 0 {
                self.normalized = true;
                return;
            }
            i = i + 1;
        }
    }
}

} // verus!
