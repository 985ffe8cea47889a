//! The prefix tree. Nodes live in one vector and refer to their children by
//! index; the root is node 0. Each node records whether a stored word ends
//! there, so no character is reserved as an end marker.

use vstd::prelude::*;

use crate::text::{chars_of, push_char};
use crate::words::{
    answer_has_no_repeats, answer_view, completions, is_known_prefix, longest_known_prefix,
    lookup_answer, strings_view, suggestion_answer,
};

verus! {

struct Node {
    terminal: bool,
    edges: Vec<(char, usize)>,
}

/// The child that `edges` reaches by `c`, if any.
spec fn edge_to(edges: Seq<(char, usize)>, c: char) -> Option<usize> {
    if exists|k: int| 0 <= k < edges.len() && (#[trigger] edges[k]).0 == c {
        let k = choose|k: int| 0 <= k < edges.len() && (#[trigger] edges[k]).0 == c;
        Some(edges[k].1)
    } else {
        None
    }
}

spec fn child(nodes: Seq<Node>, i: usize, c: char) -> Option<usize> {
    edge_to(nodes[i as int].edges@, c)
}

/// The node reached from node `i` by following the characters of `w`.
spec fn reach(nodes: Seq<Node>, i: usize, w: Seq<char>) -> Option<usize>
    decreases w.len(),
{
    if w.len() == 0 {
        Some(i)
    } else {
        match reach(nodes, i, w.drop_last()) {
            Some(n) => child(nodes, n, w.last()),
            None => None,
        }
    }
}

/// Following `w` from node `i` ends at a node where a word ends.
spec fn accepts_from(nodes: Seq<Node>, i: usize, w: Seq<char>) -> bool {
    match reach(nodes, i, w) {
        Some(n) => nodes[n as int].terminal,
        None => false,
    }
}

/// Edges lead to later nodes within the vector, and no node has two edges
/// with one character.
spec fn shape_ok(nodes: Seq<Node>) -> bool {
    &&& nodes.len() >= 1
    &&& forall|i: int, k: int|
        0 <= i < nodes.len() && 0 <= k < nodes[i].edges@.len() ==> i < (
        #[trigger] nodes[i].edges@[k]).1 < nodes.len()
    &&& forall|i: int, k1: int, k2: int|
        0 <= i < nodes.len() && 0 <= k1 < k2 < nodes[i].edges@.len() ==> (
        #[trigger] nodes[i].edges@[k1]).0 != (#[trigger] nodes[i].edges@[k2]).0
}

/// `paths[i]` spells the way from the root to node `i`.
spec fn paths_ok(nodes: Seq<Node>, paths: Seq<Seq<char>>) -> bool {
    &&& paths.len() == nodes.len()
    &&& paths[0] == Seq::<char>::empty()
    &&& forall|i: int, k: int|
        0 <= i < nodes.len() && 0 <= k < nodes[i].edges@.len() ==> paths[(
        #[trigger] nodes[i].edges@[k]).1 as int] == paths[i].push(nodes[i].edges@[k].0)
}

/// Node `i` ends a word or has a child.
spec fn live(nodes: Seq<Node>, i: int) -> bool {
    nodes[i].terminal || nodes[i].edges@.len() > 0
}

pub struct Trie {
    nodes: Vec<Node>,
    paths: Ghost<Seq<Seq<char>>>,
}

impl View for Trie {
    type V = Set<Seq<char>>;

    /// The stored words.
    closed spec fn view(&self) -> Set<Seq<char>> {
        Set::new(|w: Seq<char>| accepts_from(self.nodes@, 0, w))
    }
}

impl Trie {
    /// The tree is well formed.
    pub closed spec fn wf(&self) -> bool {
        &&& shape_ok(self.nodes@)
        &&& paths_ok(self.nodes@, self.paths@)
        &&& forall|i: int| 0 < i < self.nodes@.len() ==> #[trigger] live(self.nodes@, i)
    }

    /// An empty tree.
    pub fn new() -> (t: Trie)
        ensures
            t.wf(),
            t@ == Set::<Seq<char>>::empty(),
    {
        let mut nodes: Vec<Node> = Vec::new();
        nodes.push(Node { terminal: false, edges: Vec::new() });
        let ghost paths = seq![Seq::<char>::empty()];
        let t = Trie { nodes, paths: Ghost(paths) };
        assert forall|w: Seq<char>| !t@.contains(w) by {
            if w.len() > 0 {
                lemma_reach_from_leaf(t.nodes@, 0, w);
            }
        }
        assert(t@ =~= Set::<Seq<char>>::empty());
        t
    }

    /// Adds `word` to the stored words.
    pub fn insert(&mut self, word: String)
        requires
            old(self).wf(),
        ensures
            final(self).wf(),
            final(self)@ == old(self)@.insert(word@),
    {
        let chars = chars_of(word.as_str());
        let ghost q = word@;
        let mut cur: usize = 0;
        let mut idx: usize = 0;
        proof {
            assert(q.take(0) =~= Seq::<char>::empty());
        }
        while idx < chars.len()
            invariant
                shape_ok(self.nodes@),
                paths_ok(self.nodes@, self.paths@),
                forall|i: int|
                    0 < i < self.nodes@.len() && i != cur ==> #[trigger] live(self.nodes@, i),
                chars@ == q,
                idx <= q.len(),
                cur < self.nodes@.len(),
                reach(self.nodes@, 0, q.take(idx as int)) == Some(cur),
                self@ == old(self)@,
            decreases q.len() - idx,
        {
            let c = chars[idx];
            proof {
                assert(q.take(idx as int + 1).drop_last() =~= q.take(idx as int));
            }
            match self.child_of(cur, c) {
                Some(j) => {
                    cur = j;
                },
                None => {
                    let ghost before = self.nodes@;
                    let l = self.nodes.len();
                    self.nodes.push(Node { terminal: false, edges: Vec::new() });
                    self.nodes[cur].edges.push((c, l));
                    let ghost grown = self.paths@.push(self.paths@[cur as int].push(c));
                    self.paths = Ghost(grown);
                    proof {
                        assert(self.nodes.len() == self.nodes@.len());
                        lemma_grow(before, self.nodes@, cur, c);
                        assert forall|i: int|
                            0 < i < self.nodes@.len() && i != l implies #[trigger] live(
                            self.nodes@,
                            i,
                        ) by {
                            if i != cur {
                                assert(self.nodes@[i] == before[i]);
                                assert(live(before, i));
                            } else {
                                assert(self.nodes@[i].edges@.len() > 0);
                            }
                        }
                        assert forall|i: int, k: int|
                            0 <= i < self.nodes@.len() && 0 <= k < self.nodes@[i].edges@.len()
                                implies self.paths@[(
                        #[trigger] self.nodes@[i].edges@[k]).1 as int] == self.paths@[i].push(
                            self.nodes@[i].edges@[k].0,
                        ) by {
                            if i != cur {
                                assert(self.nodes@[i] == before[i]);
                            } else if k < before[i].edges@.len() {
                                assert(self.nodes@[i].edges@[k] == before[i].edges@[k]);
                            }
                        }
                        assert(self@ =~= old(self)@) by {
                            assert forall|w: Seq<char>|
                                accepts_from(self.nodes@, 0, w) == accepts_from(before, 0, w) by {
                                lemma_grow_reach(before, self.nodes@, cur, c, w);
                            }
                        }
                        lemma_grow_reach(before, self.nodes@, cur, c, q.take(idx as int));
                        lemma_edge_to_push(before[cur as int].edges@, c, l, c);
                    }
                    cur = l;
                },
            }
            idx += 1;
        }
        let ghost before = self.nodes@;
        let ghost before_view = self@;
        self.nodes[cur].terminal = true;
        proof {
            assert(q.take(q.len() as int) =~= q);
            assert forall|i: int| 0 <= i < before.len() implies (#[trigger] self.nodes@[i]).edges@
                == before[i].edges@ by {}
            assert forall|i: int| 0 < i < self.nodes@.len() implies #[trigger] live(
                self.nodes@,
                i,
            ) by {
                if i != cur {
                    assert(live(before, i));
                }
            }
            assert forall|w: Seq<char>|
                accepts_from(self.nodes@, 0, w) == (accepts_from(before, 0, w) || w == q) by {
                lemma_same_edges(before, self.nodes@, w);
                lemma_reach_spells(before, self.paths@, w);
                lemma_reach_spells(before, self.paths@, q);
            }
            assert forall|w: Seq<char>| before_view.contains(w) == accepts_from(before, 0, w) by {}
            assert forall|w: Seq<char>| self@.contains(w) == accepts_from(self.nodes@, 0, w) by {}
            assert forall|w: Seq<char>| self@.contains(w) == before_view.insert(q).contains(w) by {
                assert(accepts_from(self.nodes@, 0, w) == (accepts_from(before, 0, w) || w == q));
            }
            assert(self@ =~= before_view.insert(q));
        }
    }

    /// The child of node `i` by `c`.
    fn child_of(&self, i: usize, c: char) -> (r: Option<usize>)
        requires
            shape_ok(self.nodes@),
            i < self.nodes@.len(),
        ensures
            r == child(self.nodes@, i, c),
            r matches Some(j) ==> i < j < self.nodes@.len(),
    {
        let edges = &self.nodes[i].edges;
        let mut k: usize = 0;
        while k < edges.len()
            invariant
                shape_ok(self.nodes@),
                i < self.nodes@.len(),
                k <= edges@.len(),
                edges@ == self.nodes@[i as int].edges@,
                forall|k2: int| 0 <= k2 < k ==> (#[trigger] edges@[k2]).0 != c,
            decreases edges@.len() - k,
        {
            if edges[k].0 == c {
                assert(0 <= k < edges@.len() && edges@[k as int].0 == c);
                let ghost kc = choose|k2: int| 0 <= k2 < edges@.len() && (#[trigger] edges@[k2]).0 == c;
                assert(kc == k as int) by {
                    if kc < k as int {
                        assert(edges@[kc].0 != c);
                    } else if kc > k as int {
                        assert(self.nodes@[i as int].edges@[k as int].0 != self.nodes@[i as int].edges@[kc].0);
                    }
                }
                return Some(edges[k].1);
            }
            k += 1;
        }
        None
    }

    /// Where following `p` from the root ends at node `n`, the stored words
    /// that begin with `p` are `p` followed by what node `n` completes; where
    /// it ends nowhere, no stored word begins with `p`.
    proof fn lemma_words_after(&self, p: Seq<char>)
        requires
            self.wf(),
        ensures
            reach(self.nodes@, 0, p) is None ==> !is_known_prefix(self@, p),
            reach(self.nodes@, 0, p) matches Some(n) ==> forall|w: Seq<char>|
                #[trigger] completions(self@, p).contains(w) <==> (p.is_prefix_of(w)
                    && accepts_from(self.nodes@, n, w.skip(p.len() as int))),
    {
        let nodes = self.nodes@;
        assert forall|w: Seq<char>| p.is_prefix_of(w) implies reach(nodes, 0, w) == match reach(
            nodes,
            0,
            p,
        ) {
            Some(n) => reach(nodes, n, w.skip(p.len() as int)),
            None => None,
        } by {
            assert(w =~= p + w.skip(p.len() as int));
            lemma_reach_concat(nodes, 0, p, w.skip(p.len() as int));
        }
        if reach(nodes, 0, p) is None && is_known_prefix(self@, p) {
            let w = choose|w: Seq<char>| #[trigger] self@.contains(w) && p.is_prefix_of(w);
            assert(accepts_from(nodes, 0, w));
        }
    }

    /// Some stored word passes through node `n` when it ends a word or has
    /// a child.
    proof fn lemma_live_completes(&self, n: usize)
        requires
            self.wf(),
            n < self.nodes@.len(),
            live(self.nodes@, n as int),
        ensures
            exists|s: Seq<char>| accepts_from(self.nodes@, n, s),
        decreases self.nodes@.len() - n,
    {
        let nodes = self.nodes@;
        if nodes[n as int].terminal {
            assert(reach(nodes, n, Seq::<char>::empty()) == Some(n));
            assert(accepts_from(nodes, n, Seq::<char>::empty()));
        } else {
            let c = nodes[n as int].edges@[0].0;
            let j = nodes[n as int].edges@[0].1;
            assert(0 < j < nodes.len());
            assert(live(nodes, j as int));
            self.lemma_live_completes(j);
            let s = choose|s: Seq<char>| accepts_from(nodes, j, s);
            lemma_child_by_edge(nodes, n, 0);
            lemma_reach_one(nodes, n, c);
            lemma_reach_concat(nodes, n, seq![c], s);
            assert(accepts_from(nodes, n, seq![c] + s));
        }
    }

    /// Collects the stored words that begin with the word spelled by the
    /// way to node `n`; nothing when there are none.
    fn words_below(&self, n: usize, word: &String) -> (r: Option<Vec<String>>)
        requires
            self.wf(),
            n < self.nodes@.len(),
            reach(self.nodes@, 0, word@) == Some(n),
        ensures
            answer_view(r) == lookup_answer(self@, word@),
            answer_has_no_repeats(r),
            r matches Some(v) ==> v@.len() > 0,
    {
        let mut out: Vec<String> = Vec::new();
        proof {
            assert(strings_view(out@) =~= Seq::<Seq<char>>::empty());
        }
        self.collect_below(n, word, &mut out);
        proof {
            self.lemma_words_after(word@);
            let found = strings_view(out@).to_set();
            assert forall|w: Seq<char>| found.contains(w) <==> completions(self@, word@).contains(
                w,
            ) by {
                if found.contains(w) {
                    let x = choose|x: int| 0 <= x < strings_view(out@).len() && strings_view(out@)[x] == w;
                    assert(out@[x]@ == w);
                }
                if completions(self@, word@).contains(w) {
                    assert(w =~= word@ + w.skip(word@.len() as int));
                }
            }
            assert(found =~= completions(self@, word@));
        }
        if out.len() == 0 {
            proof {
                if is_known_prefix(self@, word@) {
                    let w = choose|w: Seq<char>| #[trigger] self@.contains(w) && word@.is_prefix_of(w);
                    assert(completions(self@, word@).contains(w));
                    assert(strings_view(out@).to_set().contains(w));
                }
            }
            None
        } else {
            proof {
                let w = out@[0]@;
                assert(strings_view(out@)[0] == w);
                assert(completions(self@, word@).contains(w));
            }
            Some(out)
        }
    }

    /// Every stored word that begins with `prefix`; nothing when no stored
    /// word does.
    pub fn find_words_based_on_prefix(&self, prefix: String) -> (r: Option<Vec<String>>)
        requires
            self.wf(),
        ensures
            answer_view(r) == lookup_answer(self@, prefix@),
            answer_has_no_repeats(r),
            r matches Some(v) ==> v@.len() > 0,
            r is None <==> !(exists|w: Seq<char>| #[trigger]
                self@.contains(w) && prefix@.is_prefix_of(w)),
            self@.contains(prefix@) ==> (r matches Some(v) && strings_view(v@).contains(prefix@)),
    {
        let chars = chars_of(prefix.as_str());
        let mut cur: usize = 0;
        let mut idx: usize = 0;
        proof {
            assert(chars@.take(0) =~= Seq::<char>::empty());
        }
        while idx < chars.len()
            invariant
                self.wf(),
                chars@ == prefix@,
                idx <= chars@.len(),
                cur < self.nodes@.len(),
                reach(self.nodes@, 0, chars@.take(idx as int)) == Some(cur),
            decreases chars@.len() - idx,
        {
            let c = chars[idx];
            proof {
                assert(chars@.take(idx as int + 1).drop_last() =~= chars@.take(idx as int));
            }
            match self.child_of(cur, c) {
                Some(j) => {
                    cur = j;
                },
                None => {
                    proof {
                        self.lemma_words_after(chars@.take(idx as int + 1));
                        if is_known_prefix(self@, prefix@) {
                            crate::words::lemma_known_prefix_shortens(
                                self@,
                                prefix@,
                                idx as int + 1,
                                prefix@.len() as int,
                            );
                            assert(prefix@.take(prefix@.len() as int) =~= prefix@);
                        }
                    }
                    return None;
                },
            }
            idx += 1;
        }
        proof {
            assert(chars@.take(idx as int) =~= prefix@);
            if self@.contains(prefix@) {
                crate::words::lemma_stored_word_is_found(self@, prefix@);
            }
        }
        self.words_below(cur, &prefix)
    }

    /// Every stored word that begins with the longest leading part of
    /// `wrong_word` that some stored word begins with; nothing when
    /// `wrong_word` is empty or no stored word shares its first character.
    pub fn auto_suggest(&self, wrong_word: String) -> (r: Option<Vec<String>>)
        requires
            self.wf(),
        ensures
            answer_view(r) == suggestion_answer(self@, wrong_word@),
            answer_has_no_repeats(r),
            r matches Some(v) ==> v@.len() > 0,
            r is None <==> (wrong_word@.len() == 0 || !(exists|w: Seq<char>| #[trigger]
                self@.contains(w) && w.len() > 0 && w[0] == wrong_word@[0])),
            self@.contains(wrong_word@) && wrong_word@.len() > 0 ==> (r matches Some(v)
                && strings_view(v@).contains(wrong_word@)),
    {
        proof {
            crate::words::lemma_suggestion_absent_iff(self@, wrong_word@);
            if self@.contains(wrong_word@) && wrong_word@.len() > 0 {
                crate::words::lemma_stored_word_is_suggested(self@, wrong_word@);
            }
        }
        let chars = chars_of(wrong_word.as_str());
        if chars.len() == 0 {
            proof {
                assert(longest_known_prefix(self@, wrong_word@) == wrong_word@);
            }
            return None;
        }
        let ghost q = wrong_word@;
        let mut cur: usize = 0;
        let mut idx: usize = 0;
        let mut matched = String::new();
        proof {
            assert(q.take(0) =~= Seq::<char>::empty());
        }
        loop
            invariant
                self.wf(),
                chars@ == q,
                idx <= q.len(),
                cur < self.nodes@.len(),
                idx > 0 ==> cur > 0,
                reach(self.nodes@, 0, q.take(idx as int)) == Some(cur),
                matched@ == q.take(idx as int),
            ensures
                idx <= q.len(),
                cur < self.nodes@.len(),
                idx > 0 ==> cur > 0,
                reach(self.nodes@, 0, q.take(idx as int)) == Some(cur),
                matched@ == q.take(idx as int),
                idx < q.len() ==> reach(self.nodes@, 0, q.take(idx as int + 1)) is None,
            decreases q.len() - idx,
        {
            if idx == chars.len() {
                break;
            }
            let c = chars[idx];
            proof {
                assert(q.take(idx as int + 1).drop_last() =~= q.take(idx as int));
            }
            match self.child_of(cur, c) {
                Some(j) => {
                    cur = j;
                    push_char(&mut matched, c);
                    proof {
                        assert(matched@ =~= q.take(idx as int + 1));
                    }
                    idx += 1;
                },
                None => {
                    break;
                },
            }
        }
        proof {
            self.lemma_words_after(q.take(idx as int));
            if idx < q.len() {
                self.lemma_words_after(q.take(idx as int + 1));
            }
            if idx > 0 {
                self.lemma_live_completes(cur);
                let s = choose|s: Seq<char>| accepts_from(self.nodes@, cur, s);
                let w = q.take(idx as int) + s;
                assert(w.skip(idx as int) =~= s);
                assert(completions(self@, q.take(idx as int)).contains(w));
            }
            crate::words::lemma_longest_known_prefix_is(self@, q, idx as int);
        }
        if idx == 0 {
            return None;
        }
        self.words_below(cur, &matched)
    }

    /// Appends to `out` every stored word that passes through node `i`,
    /// where `word` spells the way to node `i`.
    fn collect_below(&self, i: usize, word: &String, out: &mut Vec<String>)
        requires
            shape_ok(self.nodes@),
            i < self.nodes@.len(),
            strings_view(old(out)@).no_duplicates(),
            forall|k: int|
                0 <= k < old(out)@.len() ==> !word@.is_prefix_of(#[trigger] old(out)@[k]@),
        ensures
            final(out)@.len() >= old(out)@.len(),
            final(out)@.subrange(0, old(out)@.len() as int) == old(out)@,
            strings_view(final(out)@).no_duplicates(),
            forall|k: int|
                old(out)@.len() <= k < final(out)@.len() ==> word@.is_prefix_of(
                    #[trigger] final(out)@[k]@,
                ) && accepts_from(self.nodes@, i, final(out)@[k]@.skip(word@.len() as int)),
            forall|s: Seq<char>|
                #[trigger] accepts_from(self.nodes@, i, s) ==> strings_view(final(out)@).contains(
                    word@ + s,
                ),
        decreases self.nodes@.len() - i,
    {
        let ghost nodes = self.nodes@;
        let ghost before = out@;
        let ghost edges = nodes[i as int].edges@;
        let ghost wl = word@.len() as int;
        if self.nodes[i].terminal {
            out.push(word.clone());
            proof {
                assert(word@ + Seq::<char>::empty() =~= word@);
                assert(word@.skip(wl) =~= Seq::<char>::empty());
                assert(reach(nodes, i, Seq::<char>::empty()) == Some(i));
                assert(strings_view(out@)[before.len() as int] == word@);
                assert forall|a: int, b: int|
                    0 <= a < b < out@.len() implies strings_view(out@)[a] != strings_view(
                        out@,
                    )[b] by {
                    if b == before.len() {
                        assert(strings_view(before)[a] == before[a]@);
                        assert(word@.is_prefix_of(word@));
                    } else {
                        assert(strings_view(before)[a] != strings_view(before)[b]);
                    }
                }
            }
        }
        proof {
            assert(out@.subrange(0, before.len() as int) =~= before);
        }
        let mut k: usize = 0;
        while k < self.nodes[i].edges.len()
            invariant
                shape_ok(self.nodes@),
                nodes == self.nodes@,
                i < nodes.len(),
                edges == nodes[i as int].edges@,
                wl == word@.len(),
                k <= edges.len(),
                out@.len() >= before.len(),
                out@.subrange(0, before.len() as int) == before,
                strings_view(out@).no_duplicates(),
                forall|x: int| 0 <= x < before.len() ==> !word@.is_prefix_of(#[trigger] before[x]@),
                forall|x: int|
                    before.len() <= x < out@.len() ==> {
                        &&& word@.is_prefix_of(#[trigger] out@[x]@)
                        &&& accepts_from(nodes, i, out@[x]@.skip(wl))
                        &&& (out@[x]@ == word@ || (out@[x]@.len() > wl && exists|k2: int|
                            0 <= k2 < k && (#[trigger] edges[k2]).0 == out@[x]@[wl]))
                    },
                nodes[i as int].terminal ==> strings_view(out@).contains(word@),
                forall|k2: int, s: Seq<char>|
                    0 <= k2 < k && #[trigger] accepts_from(nodes, edges[k2].1, s)
                        ==> strings_view(out@).contains(word@.push(edges[k2].0) + s),
            decreases edges.len() - k,
        {
            let c = self.nodes[i].edges[k].0;
            let j = self.nodes[i].edges[k].1;
            let mut next = word.clone();
            push_char(&mut next, c);
            let ghost mid = out@;
            proof {
                assert forall|x: int| 0 <= x < mid.len() implies !next@.is_prefix_of(
                    #[trigger] mid[x]@,
                ) by {
                    if next@.is_prefix_of(mid[x]@) {
                        assert(word@.is_prefix_of(mid[x]@)) by {
                            assert forall|y: int| 0 <= y < wl implies word@[y] == mid[x]@[y] by {
                                assert(next@[y] == word@[y]);
                            }
                        }
                        if x < before.len() {
                            assert(mid[x] == before[x]);
                        } else {
                            assert(next@[wl] == c);
                            if mid[x]@ != word@ {
                                let k2 = choose|k2: int|
                                    0 <= k2 < k && (#[trigger] edges[k2]).0 == mid[x]@[wl];
                                assert(edges[k2].0 != edges[k as int].0);
                            }
                        }
                    }
                }
            }
            self.collect_below(j, &next, out);
            proof {
                lemma_child_by_edge(nodes, i, k as int);
                lemma_reach_one(nodes, i, c);
                lemma_keeps_contents(mid, out@);
                assert(out@.subrange(0, before.len() as int) =~= before) by {
                    assert(out@.subrange(0, mid.len() as int) == mid);
                    assert forall|y: int| 0 <= y < before.len() implies out@[y] == before[y] by {
                        assert(out@[y] == out@.subrange(0, mid.len() as int)[y]);
                        assert(mid[y] == mid.subrange(0, before.len() as int)[y]);
                    }
                }
                assert forall|x: int| before.len() <= x < out@.len() implies {
                    &&& word@.is_prefix_of(#[trigger] out@[x]@)
                    &&& accepts_from(nodes, i, out@[x]@.skip(wl))
                    &&& (out@[x]@ == word@ || (out@[x]@.len() > wl && exists|k2: int|
                        0 <= k2 < k + 1 && (#[trigger] edges[k2]).0 == out@[x]@[wl]))
                } by {
                    if x < mid.len() {
                        assert(out@[x] == out@.subrange(0, mid.len() as int)[x]);
                    } else {
                        let e = out@[x]@;
                        assert(next@.is_prefix_of(e));
                        assert(word@.is_prefix_of(e)) by {
                            assert forall|y: int| 0 <= y < wl implies word@[y] == e[y] by {
                                assert(next@[y] == word@[y]);
                            }
                        }
                        assert(e[wl] == next@[wl]);
                        assert(edges[k as int].0 == e[wl]);
                        let t = e.skip(wl + 1);
                        assert(accepts_from(nodes, j, t)) by {
                            assert(e.skip(next@.len() as int) == t);
                        }
                        assert(e.skip(wl) =~= seq![c] + t);
                        lemma_reach_concat(nodes, i, seq![c], t);
                    }
                }
                assert forall|k2: int, s: Seq<char>|
                    0 <= k2 < k + 1 && #[trigger] accepts_from(nodes, edges[k2].1, s)
                        implies strings_view(out@).contains(word@.push(edges[k2].0) + s) by {
                    if k2 == k {
                        assert(next@ == word@.push(edges[k2].0));
                    }
                }
            }
            k += 1;
        }
        proof {
            assert forall|s: Seq<char>| #[trigger]
                accepts_from(nodes, i, s) implies strings_view(out@).contains(word@ + s) by {
                if s.len() == 0 {
                    assert(word@ + s =~= word@);
                    assert(reach(nodes, i, s) == Some(i));
                } else {
                    let c = s[0];
                    let t = s.drop_first();
                    assert(s =~= seq![c] + t);
                    lemma_reach_concat(nodes, i, seq![c], t);
                    lemma_reach_one(nodes, i, c);
                    let k2 = choose|k2: int| 0 <= k2 < edges.len() && (#[trigger] edges[k2]).0 == c;
                    assert(accepts_from(nodes, edges[k2].1, t));
                    assert(word@.push(c) + t =~= word@ + s);
                }
            }
        }
    }
}

/// The child by the character of an edge is that edge's target.
proof fn lemma_child_by_edge(nodes: Seq<Node>, i: usize, k: int)
    requires
        shape_ok(nodes),
        i < nodes.len(),
        0 <= k < nodes[i as int].edges@.len(),
    ensures
        child(nodes, i, nodes[i as int].edges@[k].0) == Some(nodes[i as int].edges@[k].1),
{
    let edges = nodes[i as int].edges@;
    let c = edges[k].0;
    assert(0 <= k < edges.len() && edges[k].0 == c);
    let kc = choose|k2: int| 0 <= k2 < edges.len() && (#[trigger] edges[k2]).0 == c;
    if kc < k {
        assert(nodes[i as int].edges@[kc].0 != nodes[i as int].edges@[k].0);
    } else if kc > k {
        assert(nodes[i as int].edges@[k].0 != nodes[i as int].edges@[kc].0);
    }
}

/// A vector that keeps `a` as its leading part holds every string of `a`.
proof fn lemma_keeps_contents(a: Seq<String>, b: Seq<String>)
    requires
        a.len() <= b.len(),
        b.subrange(0, a.len() as int) == a,
    ensures
        forall|x: Seq<char>| strings_view(a).contains(x) ==> strings_view(b).contains(x),
{
    assert forall|x: Seq<char>| strings_view(a).contains(x) implies strings_view(b).contains(x) by {
        let y = choose|y: int| 0 <= y < strings_view(a).len() && strings_view(a)[y] == x;
        assert(b[y] == b.subrange(0, a.len() as int)[y]);
        assert(strings_view(b)[y] == x);
    }
}

/// Pushing `(c, l)` onto edges that lack `c` adds exactly the way by `c`.
proof fn lemma_edge_to_push(edges: Seq<(char, usize)>, c: char, l: usize, x: char)
    requires
        edge_to(edges, c) is None,
        forall|k1: int, k2: int|
            0 <= k1 < k2 < edges.len() ==> (#[trigger] edges[k1]).0 != (#[trigger] edges[k2]).0,
    ensures
        edge_to(edges.push((c, l)), x) == if x == c {
            Some(l)
        } else {
            edge_to(edges, x)
        },
{
    let e = edges.push((c, l));
    assert(e[edges.len() as int] == (c, l));
    if x == c {
        assert(0 <= edges.len() < e.len() && e[edges.len() as int].0 == c);
        let k = choose|k: int| 0 <= k < e.len() && (#[trigger] e[k]).0 == x;
        if k < edges.len() {
            assert(e[k] == edges[k]);
        }
    } else {
        if exists|k: int| 0 <= k < e.len() && (#[trigger] e[k]).0 == x {
            let k = choose|k: int| 0 <= k < e.len() && (#[trigger] e[k]).0 == x;
            assert(e[k] == edges[k]);
            assert(0 <= k < edges.len() && edges[k].0 == x);
            let k2 = choose|k2: int| 0 <= k2 < edges.len() && (#[trigger] edges[k2]).0 == x;
            if k < k2 {
                assert(edges[k].0 != edges[k2].0);
            } else if k2 < k {
                assert(edges[k2].0 != edges[k].0);
            }
        }
        if exists|k: int| 0 <= k < edges.len() && (#[trigger] edges[k]).0 == x {
            let k = choose|k: int| 0 <= k < edges.len() && (#[trigger] edges[k]).0 == x;
            assert(e[k] == edges[k]);
            assert(0 <= k < e.len() && e[k].0 == x);
        }
    }
}

/// The tree `after` is `before` with a new empty node at the end, reached
/// from node `cur` by `c`, which had no child by `c`.
spec fn grown_by(before: Seq<Node>, after: Seq<Node>, cur: usize, c: char) -> bool {
    &&& shape_ok(before)
    &&& cur < before.len()
    &&& child(before, cur, c) is None
    &&& after.len() == before.len() + 1
    &&& after.len() <= usize::MAX
    &&& after[before.len() as int].edges@.len() == 0
    &&& !after[before.len() as int].terminal
    &&& after[cur as int].edges@ == before[cur as int].edges@.push((c, before.len() as usize))
    &&& after[cur as int].terminal == before[cur as int].terminal
    &&& forall|i: int| 0 <= i < before.len() && i != cur ==> after[i] == before[i]
}

/// Growing the tree by one empty node keeps it in shape.
proof fn lemma_grow(before: Seq<Node>, after: Seq<Node>, cur: usize, c: char)
    requires
        grown_by(before, after, cur, c),
    ensures
        shape_ok(after),
{
    let l = before.len() as int;
    assert forall|i: int, k: int|
        0 <= i < after.len() && 0 <= k < after[i].edges@.len() implies i < (
        #[trigger] after[i].edges@[k]).1 < after.len() by {
        if i != cur && i < l {
            assert(after[i] == before[i]);
            assert(before[i].edges@[k] == after[i].edges@[k]);
        } else if i == cur && k < before[i].edges@.len() {
            assert(before[i].edges@[k] == after[i].edges@[k]);
        } else if i == cur {
            assert(after[i].edges@[k] == (c, l as usize));
        }
    }
    assert forall|i: int, k1: int, k2: int|
        0 <= i < after.len() && 0 <= k1 < k2 < after[i].edges@.len() implies (
        #[trigger] after[i].edges@[k1]).0 != (#[trigger] after[i].edges@[k2]).0 by {
        if i != cur && i < l {
            assert(after[i] == before[i]);
            assert(before[i].edges@[k1].0 != before[i].edges@[k2].0);
        } else if i == cur {
            let e = before[i].edges@;
            assert(after[i].edges@[k1] == e[k1]);
            if k2 < e.len() {
                assert(after[i].edges@[k2] == e[k2]);
                assert(e[k1].0 != e[k2].0);
            } else {
                assert(after[i].edges@[k2].0 == c);
                if e[k1].0 == c {
                    assert(0 <= k1 < e.len() && e[k1].0 == c);
                }
            }
        }
    }
}

/// After growing, a word followed before leads where it led, and one that
/// led nowhere leads nowhere or to the new node.
proof fn lemma_grow_reach(before: Seq<Node>, after: Seq<Node>, cur: usize, c: char, w: Seq<char>)
    requires
        grown_by(before, after, cur, c),
    ensures
        reach(before, 0, w) is Some ==> reach(after, 0, w) == reach(before, 0, w),
        reach(before, 0, w) is None ==> (reach(after, 0, w) is None || reach(after, 0, w) == Some(
            before.len() as usize,
        )),
        reach(before, 0, w) matches Some(m) ==> m < before.len(),
        accepts_from(after, 0, w) == accepts_from(before, 0, w),
    decreases w.len(),
{
    let l = before.len() as usize;
    if w.len() > 0 {
        let u = w.drop_last();
        let x = w.last();
        lemma_grow_reach(before, after, cur, c, u);
        match reach(before, 0, u) {
            Some(m) => {
                if m == cur {
                    lemma_edge_to_push(before[cur as int].edges@, c, l, x);
                } else {
                    assert(after[m as int] == before[m as int]);
                }
                if let Some(n) = child(before, m, x) {
                    let e = before[m as int].edges@;
                    let k = choose|k: int| 0 <= k < e.len() && (#[trigger] e[k]).0 == x;
                    assert(e[k].1 < before.len());
                }
            },
            None => {
                if reach(after, 0, u) == Some(l) {
                    let e = after[l as int].edges@;
                    assert(e.len() == 0);
                    assert(edge_to(e, x) is None);
                }
            },
        }
    }
    if let Some(m) = reach(before, 0, w) {
        if m != cur {
            assert(after[m as int] == before[m as int]);
        }
    }
}

/// Trees with the same edges lead each word to the same node.
proof fn lemma_same_edges(a: Seq<Node>, b: Seq<Node>, w: Seq<char>)
    requires
        a.len() == b.len(),
        forall|i: int| 0 <= i < a.len() ==> (#[trigger] b[i]).edges@ == a[i].edges@,
        shape_ok(a),
    ensures
        reach(b, 0, w) == reach(a, 0, w),
        reach(a, 0, w) matches Some(m) ==> m < a.len(),
    decreases w.len(),
{
    if w.len() > 0 {
        lemma_same_edges(a, b, w.drop_last());
        if let Some(m) = reach(a, 0, w.drop_last()) {
            assert(b[m as int].edges@ == a[m as int].edges@);
            let e = a[m as int].edges@;
            if let Some(n) = child(a, m, w.last()) {
                let k = choose|k: int| 0 <= k < e.len() && (#[trigger] e[k]).0 == w.last();
                assert(e[k].1 < a.len());
            }
        }
    }
}

/// The node that a word leads to from the root is the one whose path spells
/// that word.
proof fn lemma_reach_spells(nodes: Seq<Node>, paths: Seq<Seq<char>>, w: Seq<char>)
    requires
        shape_ok(nodes),
        paths_ok(nodes, paths),
    ensures
        reach(nodes, 0, w) matches Some(m) ==> m < nodes.len() && paths[m as int] == w,
    decreases w.len(),
{
    if w.len() == 0 {
    } else {
        let u = w.drop_last();
        lemma_reach_spells(nodes, paths, u);
        if let Some(m) = reach(nodes, 0, u) {
            let e = nodes[m as int].edges@;
            if let Some(n) = child(nodes, m, w.last()) {
                let k = choose|k: int| 0 <= k < e.len() && (#[trigger] e[k]).0 == w.last();
                assert(paths[e[k].1 as int] == paths[m as int].push(e[k].0));
                assert(u.push(w.last()) =~= w);
            }
        }
    }
}

/// Following any nonempty word from a node without edges leads nowhere.
proof fn lemma_reach_from_leaf(nodes: Seq<Node>, i: usize, w: Seq<char>)
    requires
        0 <= i < nodes.len(),
        nodes[i as int].edges@.len() == 0,
        w.len() > 0,
    ensures
        reach(nodes, i, w) is None,
    decreases w.len(),
{
    if w.len() > 1 {
        lemma_reach_from_leaf(nodes, i, w.drop_last());
    } else {
        assert(w.drop_last() =~= Seq::<char>::empty());
        assert(reach(nodes, i, Seq::<char>::empty()) == Some(i));
    }
}

/// Following `p + s` is following `p`, then `s`.
proof fn lemma_reach_concat(nodes: Seq<Node>, i: usize, p: Seq<char>, s: Seq<char>)
    ensures
        reach(nodes, i, p + s) == match reach(nodes, i, p) {
            Some(n) => reach(nodes, n, s),
            None => None,
        },
    decreases s.len(),
{
    if s.len() == 0 {
        assert(p + s =~= p);
    } else {
        lemma_reach_concat(nodes, i, p, s.drop_last());
        assert((p + s).drop_last() =~= p + s.drop_last());
        assert((p + s).last() == s.last());
    }
}

/// Following one character is taking the child by it.
proof fn lemma_reach_one(nodes: Seq<Node>, i: usize, c: char)
    ensures
        reach(nodes, i, seq![c]) == child(nodes, i, c),
{
    assert(seq![c].drop_last() =~= Seq::<char>::empty());
    assert(reach(nodes, i, Seq::<char>::empty()) == Some(i));
}

} // verus!
