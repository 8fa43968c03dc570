//! Tokenization: text to the set of its distinct normalized terms.
//!
//! A term is a lower-cased word, stripped of leading and trailing
//! non-alphanumeric characters, and non-empty.  Terms are compared by exact
//! string equality, and duplicate occurrences collapse to one.

use vstd::prelude::*;

verus! {

/// What `str::to_lowercase` returns for a given character sequence.
/// The mapping follows the Unicode lowercase mappings, which are too large
/// to restate here; it depends on the input characters alone.
pub uninterp spec fn lower_of(s: Seq<char>) -> Seq<char>;

/// Whether `char::is_alphanumeric` accepts the character.  The Unicode
/// Alphabetic and Number categories are too large to restate here; the
/// answer depends on the character alone.
pub uninterp spec fn alnum_char(c: char) -> bool;

/// The Unicode White_Space code points, the exact set on which
/// `char::is_whitespace` returns true.
pub open spec fn space_char(c: char) -> bool {
    ||| c == ' '
    ||| c == '\u{9}'
    ||| c == '\u{A}'
    ||| c == '\u{B}'
    ||| c == '\u{C}'
    ||| c == '\u{D}'
    ||| c == '\u{85}'
    ||| c == '\u{A0}'
    ||| c == '\u{1680}'
    ||| c == '\u{2000}'
    ||| c == '\u{2001}'
    ||| c == '\u{2002}'
    ||| c == '\u{2003}'
    ||| c == '\u{2004}'
    ||| c == '\u{2005}'
    ||| c == '\u{2006}'
    ||| c == '\u{2007}'
    ||| c == '\u{2008}'
    ||| c == '\u{2009}'
    ||| c == '\u{200A}'
    ||| c == '\u{2028}'
    ||| c == '\u{2029}'
    ||| c == '\u{202F}'
    ||| c == '\u{205F}'
    ||| c == '\u{3000}'
}

/// Relies on `str::to_lowercase`: the result is a pure function of the
/// characters of the string, named `lower_of`; an empty string stays empty.
#[verifier::external_body]
fn lowercase(s: &str) -> (r: String)
    ensures
        r@ == lower_of(s@),
        s@.len() == 0 ==> r@.len() == 0,
{
    s.to_lowercase()
}

/// Relies on `char::is_whitespace`: true exactly on the Unicode White_Space
/// property, the code points listed by `space_char`.
#[verifier::external_body]
fn is_space(c: char) -> (r: bool)
    ensures
        r == space_char(c),
{
    c.is_whitespace()
}

/// Relies on `char::is_alphanumeric`: the answer is a pure function of the
/// character, named `alnum_char`.
#[verifier::external_body]
fn is_alnum(c: char) -> (r: bool)
    ensures
        r == alnum_char(c),
{
    c.is_alphanumeric()
}

/// Relies on `str::chars`: it yields exactly the characters of the string,
/// in order, which are the string's view.
#[verifier::external_body]
fn chars_of(s: &str) -> (r: Vec<char>)
    ensures
        r@ == s@,
{
    s.chars().collect()
}

/// Relies on `String`'s `FromIterator<char>` impl: collecting characters
/// builds exactly the string of those characters.
#[verifier::external_body]
fn string_of(chars: &Vec<char>) -> (r: String)
    ensures
        r@ == chars@,
{
    chars.iter().collect()
}

/// The piece with its leading non-alphanumeric characters removed.
pub open spec fn trim_start(s: Seq<char>) -> Seq<char>
    decreases s.len(),
{
    if s.len() == 0 {
        s
    } else if alnum_char(s[0]) {
        s
    } else {
        trim_start(s.drop_first())
    }
}

/// The piece with its trailing non-alphanumeric characters removed.
pub open spec fn trim_end(s: Seq<char>) -> Seq<char>
    decreases s.len(),
{
    if s.len() == 0 {
        s
    } else if alnum_char(s[s.len() - 1]) {
        s
    } else {
        trim_end(s.drop_last())
    }
}

/// A whitespace-delimited piece normalized into a term candidate: both ends
/// stripped of non-alphanumeric characters.
pub open spec fn trim_term(s: Seq<char>) -> Seq<char> {
    trim_end(trim_start(s))
}

/// The terms contributed by one whitespace-delimited piece: its trimmed form
/// if that is non-empty, and nothing otherwise.
pub open spec fn end_piece(cur: Seq<char>) -> Set<Seq<char>> {
    if trim_term(cur).len() > 0 {
        set![trim_term(cur)]
    } else {
        Set::empty()
    }
}

/// The terms of `s` when scanned left to right, with `cur` the piece
/// accumulated so far: whitespace ends a piece, any other character extends
/// it, and the end of input ends the last piece.
pub open spec fn token_set_from(s: Seq<char>, cur: Seq<char>) -> Set<Seq<char>>
    decreases s.len(),
{
    if s.len() == 0 {
        end_piece(cur)
    } else if space_char(s[0]) {
        end_piece(cur).union(token_set_from(s.drop_first(), Seq::empty()))
    } else {
        token_set_from(s.drop_first(), cur.push(s[0]))
    }
}

/// The set of distinct normalized terms of a text: lower-case it, split on
/// whitespace, strip each piece of leading and trailing non-alphanumeric
/// characters, and keep the distinct non-empty survivors.
pub open spec fn token_set(text: Seq<char>) -> Set<Seq<char>> {
    token_set_from(lower_of(text), Seq::empty())
}

/// The character sequences of a sequence of strings.
pub open spec fn views_of(ss: Seq<String>) -> Seq<Seq<char>> {
    ss.map_values(|s: String| s@)
}

proof fn lemma_trim_start_skip(s: Seq<char>, i: int)
    requires
        0 <= i <= s.len(),
        forall|k: int| 0 <= k < i ==> !alnum_char(s[k]),
        i < s.len() ==> alnum_char(s[i]),
    ensures
        trim_start(s) == s.skip(i),
    decreases i,
{
    if i == 0 {
        assert(s.skip(0) =~= s);
    } else {
        assert(!alnum_char(s[0]));
        assert(s.len() > 0);
        let t = s.drop_first();
        assert(forall|k: int| 0 <= k < i - 1 ==> !alnum_char(t[k]));
        lemma_trim_start_skip(t, i - 1);
        assert(t.skip(i - 1) =~= s.skip(i));
    }
}

proof fn lemma_trim_end_take(s: Seq<char>, j: int)
    requires
        0 <= j <= s.len(),
        forall|k: int| j <= k < s.len() ==> !alnum_char(s[k]),
        j > 0 ==> alnum_char(s[j - 1]),
    ensures
        trim_end(s) == s.take(j),
    decreases s.len() - j,
{
    if j == s.len() {
        if s.len() == 0 {
            assert(s.take(j) =~= s);
        } else {
            assert(alnum_char(s[s.len() - 1]));
            assert(s.take(j) =~= s);
        }
    } else {
        assert(!alnum_char(s[s.len() - 1]));
        let t = s.drop_last();
        assert(forall|k: int| j <= k < t.len() ==> !alnum_char(t[k]));
        lemma_trim_end_take(t, j);
        assert(t.take(j) =~= s.take(j));
    }
}

/// Finds the index of the first alphanumeric character, or the length if
/// there is none.
fn first_alnum(piece: &Vec<char>) -> (i: usize)
    ensures
        i <= piece@.len(),
        forall|k: int| 0 <= k < i ==> !alnum_char(piece@[k]),
        i < piece@.len() ==> alnum_char(piece@[i as int]),
{
    let mut i: usize = 0;
    while i < piece.len()
        invariant
            i <= piece@.len(),
            forall|k: int| 0 <= k < i ==> !alnum_char(piece@[k]),
        decreases piece@.len() - i,
    {
        if is_alnum(piece[i]) {
            return i;
        }
        i = i + 1;
    }
    i
}

/// Finds the cut just after the last alphanumeric character, or zero if
/// there is none.
fn last_alnum(piece: &Vec<char>) -> (j: usize)
    ensures
        j <= piece@.len(),
        forall|k: int| j <= k < piece@.len() ==> !alnum_char(piece@[k]),
        j > 0 ==> alnum_char(piece@[j - 1]),
{
    let mut j: usize = piece.len();
    while j > 0
        invariant
            j <= piece@.len(),
            forall|k: int| j <= k < piece@.len() ==> !alnum_char(piece@[k]),
        decreases j,
    {
        if is_alnum(piece[j - 1]) {
            return j;
        }
        j = j - 1;
    }
    j
}

/// Strips leading and trailing non-alphanumeric characters from a piece.
fn trim_chars(piece: &Vec<char>) -> (r: Vec<char>)
    ensures
        r@ == trim_term(piece@),
{
    let i = first_alnum(piece);
    let mut r: Vec<char> = Vec::new();
    if i == piece.len() {
        proof {
            lemma_trim_start_skip(piece@, i as int);
            assert(piece@.skip(i as int) =~= Seq::<char>::empty());
            lemma_trim_end_take(Seq::<char>::empty(), 0);
            assert(r@ =~= trim_term(piece@));
        }
        return r;
    }
    let j = last_alnum(piece);
    assert(i < j);
    let mut k = i;
    while k < j
        invariant
            i <= k <= j <= piece@.len(),
            r@ == piece@.subrange(i as int, k as int),
        decreases j - k,
    {
        let c = piece[k];
        r.push(c);
        proof {
            assert(r@ =~= piece@.subrange(i as int, k + 1));
        }
        k = k + 1;
    }
    proof {
        lemma_trim_start_skip(piece@, i as int);
        let t = piece@.skip(i as int);
        assert(forall|k2: int| j - i <= k2 < t.len() ==> !alnum_char(t[k2]));
        lemma_trim_end_take(t, j - i);
        assert(t.take(j - i) =~= piece@.subrange(i as int, j as int));
    }
    r
}

/// Tests whether some string in the vector has the given characters.
fn contains_string(v: &Vec<String>, s: &String) -> (r: bool)
    ensures
        r == views_of(v@).contains(s@),
{
    let mut i: usize = 0;
    while i < v.len()
        invariant
            i <= v@.len(),
            forall|k: int| 0 <= k < i ==> v@[k]@ != s@,
        decreases v@.len() - i,
    {
        if v[i].eq(s) {
            assert(views_of(v@)[i as int] == s@);
            return true;
        }
        i = i + 1;
    }
    assert(forall|k: int| 0 <= k < views_of(v@).len() ==> views_of(v@)[k] != s@);
    false
}

/// Splits texts into their distinct normalized terms.
pub struct Tokenizer;

impl Tokenizer {
    /// The distinct normalized terms of `text`: lower-cased, whitespace
    /// split, stripped of leading and trailing non-alphanumeric characters,
    /// non-empty, each listed once.  Empty input yields no terms.
    pub fn tokenize(text: &str) -> (tokens: Vec<String>)
        ensures
            views_of(tokens@).no_duplicates(),
            views_of(tokens@).to_set() == token_set(text@),
    {
        let lowered = lowercase(text);
        let chars = chars_of(lowered.as_str());
        let mut tokens: Vec<String> = Vec::new();
        let mut cur: Vec<char> = Vec::new();
        let n = chars.len();
        let mut idx: usize = 0;
        proof {
            assert(chars@.skip(0) =~= chars@);
            assert(views_of(tokens@).to_set() =~= Set::<Seq<char>>::empty());
            assert(Set::<Seq<char>>::empty().union(token_set_from(chars@, cur@)) =~= token_set_from(
                chars@,
                cur@,
            ));
        }
        while idx < n
            invariant
                n == chars@.len(),
                chars@ == lower_of(text@),
                idx <= n,
                views_of(tokens@).no_duplicates(),
                token_set(text@) == views_of(tokens@).to_set().union(
                    token_set_from(chars@.skip(idx as int), cur@),
                ),
            decreases n - idx,
        {
            let c = chars[idx];
            proof {
                assert(chars@.skip(idx as int)[0] == c);
                assert(chars@.skip(idx as int).drop_first() =~= chars@.skip(idx as int + 1));
            }
            if is_space(c) {
                Self::flush(&mut tokens, &cur);
                cur = Vec::new();
                proof {
                    assert(token_set(text@) =~= views_of(tokens@).to_set().union(
                        token_set_from(chars@.skip(idx as int + 1), cur@),
                    ));
                }
            } else {
                cur.push(c);
            }
            idx = idx + 1;
        }
        proof {
            assert(chars@.skip(n as int) =~= Seq::<char>::empty());
        }
        Self::flush(&mut tokens, &cur);
        proof {
            assert(views_of(tokens@).to_set() =~= token_set(text@));
        }
        tokens
    }

    /// Appends the term of the piece `cur`, if it has one that is not
    /// already present.
    fn flush(tokens: &mut Vec<String>, cur: &Vec<char>)
        requires
            views_of(old(tokens)@).no_duplicates(),
        ensures
            views_of(final(tokens)@).no_duplicates(),
            views_of(final(tokens)@).to_set() == views_of(old(tokens)@).to_set().union(
                end_piece(cur@),
            ),
    {
        let trimmed = trim_chars(cur);
        if trimmed.len() == 0 {
            proof {
                assert(views_of(tokens@).to_set().union(end_piece(cur@)) =~= views_of(
                    tokens@,
                ).to_set());
            }
            return;
        }
        let term = string_of(&trimmed);
        if !contains_string(tokens, &term) {
            let ghost pre = tokens@;
            tokens.push(term);
            proof {
                let vs = views_of(pre);
                assert(views_of(tokens@) =~= vs.push(trimmed@));
                assert forall|x: Seq<char>| vs.push(trimmed@).contains(x) implies vs.to_set().union(
                    end_piece(cur@),
                ).contains(x) by {
                    let i = choose|i: int|
                        0 <= i < vs.push(trimmed@).len() && vs.push(trimmed@)[i] == x;
                    if i < vs.len() {
                        assert(vs[i] == x);
                    } else {
                        assert(x == trimmed@);
                    }
                }
                assert forall|x: Seq<char>|
                    vs.to_set().union(end_piece(cur@)).contains(x) implies vs.push(
                    trimmed@,
                ).contains(x) by {
                    if vs.to_set().contains(x) {
                        let i = choose|i: int| 0 <= i < vs.len() && vs[i] == x;
                        assert(vs.push(trimmed@)[i] == x);
                    } else {
                        assert(x == trimmed@);
                        assert(vs.push(trimmed@)[vs.len() as int] == x);
                    }
                }
                assert(views_of(tokens@).to_set() =~= vs.to_set().union(end_piece(cur@)));
            }
        } else {
            proof {
                assert(views_of(tokens@).to_set().union(end_piece(cur@)) =~= views_of(
                    tokens@,
                ).to_set());
            }
        }
    }
}

} // verus!
