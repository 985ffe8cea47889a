//! The mathematical model of a vocabulary: a set of words, each a sequence of
//! characters, and the answers that lookups and suggestions owe over it.

use vstd::prelude::*;

verus! {

/// Some word of `words` begins with `p`.
pub open spec fn is_known_prefix(words: Set<Seq<char>>, p: Seq<char>) -> bool {
    exists|w: Seq<char>| #[trigger] words.contains(w) && p.is_prefix_of(w)
}

/// The words of `words` that begin with `p`.
pub open spec fn completions(words: Set<Seq<char>>, p: Seq<char>) -> Set<Seq<char>> {
    words.filter(|w: Seq<char>| p.is_prefix_of(w))
}

/// The longest leading part of `q` with which some word of `words` begins
/// (empty when no word shares even the first character).
pub open spec fn longest_known_prefix(words: Set<Seq<char>>, q: Seq<char>) -> Seq<char>
    decreases q.len(),
{
    if q.len() == 0 || is_known_prefix(words, q) {
        q
    } else {
        longest_known_prefix(words, q.drop_last())
    }
}

/// What a prefix lookup answers: every word that begins with `p`, or nothing
/// when no word does.
pub open spec fn lookup_answer(words: Set<Seq<char>>, p: Seq<char>) -> Option<Set<Seq<char>>> {
    if is_known_prefix(words, p) {
        Some(completions(words, p))
    } else {
        None
    }
}

/// What a suggestion answers: every word that begins with the longest known
/// leading part of `q`, or nothing when that part is empty.
pub open spec fn suggestion_answer(words: Set<Seq<char>>, q: Seq<char>) -> Option<
    Set<Seq<char>>,
> {
    let m = longest_known_prefix(words, q);
    if m.len() == 0 {
        None
    } else {
        Some(completions(words, m))
    }
}

/// The character sequences of a sequence of strings.
pub open spec fn strings_view(v: Seq<String>) -> Seq<Seq<char>> {
    v.map_values(|s: String| s@)
}

/// An answer as a set of character sequences.
pub open spec fn answer_view(r: Option<Vec<String>>) -> Option<Set<Seq<char>>> {
    match r {
        Some(v) => Some(strings_view(v@).to_set()),
        None => None,
    }
}

/// An answer lists no word twice.
pub open spec fn answer_has_no_repeats(r: Option<Vec<String>>) -> bool {
    match r {
        Some(v) => strings_view(v@).no_duplicates(),
        None => true,
    }
}

/// The vocabulary after `w` has been inserted `n` times.
pub open spec fn insert_repeatedly(words: Set<Seq<char>>, w: Seq<char>, n: nat) -> Set<Seq<char>>
    decreases n,
{
    if n == 0 {
        words
    } else {
        insert_repeatedly(words, w, (n - 1) as nat).insert(w)
    }
}

/// A word that begins with a longer leading part of `q` begins with every
/// shorter one too.
pub proof fn lemma_known_prefix_shortens(words: Set<Seq<char>>, q: Seq<char>, i: int, j: int)
    requires
        0 <= i <= j <= q.len(),
        is_known_prefix(words, q.take(j)),
    ensures
        is_known_prefix(words, q.take(i)),
{
    let w = choose|w: Seq<char>| #[trigger] words.contains(w) && q.take(j).is_prefix_of(w);
    assert(q.take(i).is_prefix_of(w)) by {
        assert forall|k: int| 0 <= k < i implies q.take(i)[k] == w[k] by {
            assert(q.take(j)[k] == w[k]);
        }
    }
}

/// `longest_known_prefix` is the leading part of `q` of length `m` exactly when
/// that part is known (or empty) and the one a character longer is not.
pub proof fn lemma_longest_known_prefix_is(words: Set<Seq<char>>, q: Seq<char>, m: int)
    requires
        0 <= m <= q.len(),
        m > 0 ==> is_known_prefix(words, q.take(m)),
        m < q.len() ==> !is_known_prefix(words, q.take(m + 1)),
    ensures
        longest_known_prefix(words, q) == q.take(m),
    decreases q.len(),
{
    if q.len() == m {
        assert(q.take(m) =~= q);
    } else {
        assert(q.take(q.len() as int) =~= q);
        if is_known_prefix(words, q) {
            lemma_known_prefix_shortens(words, q, m + 1, q.len() as int);
        }
        let r = q.drop_last();
        assert(r.take(m) =~= q.take(m));
        if m < r.len() {
            assert(r.take(m + 1) =~= q.take(m + 1));
        }
        lemma_longest_known_prefix_is(words, r, m);
    }
}

/// `longest_known_prefix` is a leading part of `q` that some word begins with,
/// unless it is empty.
pub proof fn lemma_longest_known_prefix_facts(words: Set<Seq<char>>, q: Seq<char>)
    ensures
        longest_known_prefix(words, q).is_prefix_of(q),
        longest_known_prefix(words, q).len() > 0 ==> is_known_prefix(
            words,
            longest_known_prefix(words, q),
        ),
        longest_known_prefix(words, q).len() == 0 <==> (q.len() == 0 || !is_known_prefix(
            words,
            q.take(1),
        )),
    decreases q.len(),
{
    if q.len() == 0 || is_known_prefix(words, q) {
        if q.len() > 0 {
            assert(q.take(q.len() as int) =~= q);
            lemma_known_prefix_shortens(words, q, 1, q.len() as int);
        }
    } else {
        let r = q.drop_last();
        lemma_longest_known_prefix_facts(words, r);
        if r.len() > 0 {
            assert(r.take(1) =~= q.take(1));
        } else {
            assert(q.take(1) =~= q);
        }
    }
}

/// A stored word `w` begins some stored word: its own lookup is present and
/// lists it.
pub proof fn lemma_stored_word_is_found(words: Set<Seq<char>>, w: Seq<char>)
    requires
        words.contains(w),
    ensures
        lookup_answer(words, w) is Some,
        lookup_answer(words, w)->0.contains(w),
{
    assert(w.is_prefix_of(w));
}

/// Lookup is absent exactly when no stored word begins with the prefix.
pub proof fn lemma_lookup_absent_iff_unknown(words: Set<Seq<char>>, p: Seq<char>)
    ensures
        lookup_answer(words, p) is None <==> !(exists|w: Seq<char>|
            #[trigger] words.contains(w) && p.is_prefix_of(w)),
{
}

/// A suggestion is absent exactly when the query is empty or no stored word
/// has the query's first character as its own first character.
pub proof fn lemma_suggestion_absent_iff(words: Set<Seq<char>>, q: Seq<char>)
    ensures
        suggestion_answer(words, q) is None <==> (q.len() == 0 || !(exists|w: Seq<char>|
            #[trigger] words.contains(w) && w.len() > 0 && w[0] == q[0])),
{
    lemma_longest_known_prefix_facts(words, q);
    if q.len() > 0 {
        if is_known_prefix(words, q.take(1)) {
            let w = choose|w: Seq<char>| #[trigger] words.contains(w) && q.take(1).is_prefix_of(w);
            assert(w[0] == q.take(1)[0]);
        }
        if exists|w: Seq<char>| #[trigger] words.contains(w) && w.len() > 0 && w[0] == q[0] {
            let w = choose|w: Seq<char>| #[trigger] words.contains(w) && w.len() > 0 && w[0] == q[0];
            assert(q.take(1).is_prefix_of(w));
        }
    }
}

/// A nonempty stored word is suggested for itself.
pub proof fn lemma_stored_word_is_suggested(words: Set<Seq<char>>, w: Seq<char>)
    requires
        words.contains(w),
        w.len() > 0,
    ensures
        suggestion_answer(words, w) is Some,
        suggestion_answer(words, w)->0.contains(w),
{
    assert(w.take(w.len() as int) =~= w);
    assert(w.is_prefix_of(w));
    lemma_longest_known_prefix_is(words, w, w.len() as int);
}

/// Once `w` has been inserted, inserting it again any number of times changes
/// no lookup and no suggestion.
pub proof fn lemma_reinsert_changes_no_answer(
    words: Set<Seq<char>>,
    w: Seq<char>,
    n: nat,
    p: Seq<char>,
    q: Seq<char>,
)
    requires
        n >= 1,
    ensures
        insert_repeatedly(words, w, n) == words.insert(w),
        lookup_answer(insert_repeatedly(words, w, n), p) == lookup_answer(words.insert(w), p),
        suggestion_answer(insert_repeatedly(words, w, n), q) == suggestion_answer(
            words.insert(w),
            q,
        ),
    decreases n,
{
    if n > 1 {
        lemma_reinsert_changes_no_answer(words, w, (n - 1) as nat, p, q);
        assert(words.insert(w).insert(w) =~= words.insert(w));
    } else {
        assert(insert_repeatedly(words, w, 0) == words);
    }
}

} // verus!
