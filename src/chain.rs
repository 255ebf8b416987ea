//! A Markov chain of fixed order over the words of a corpus, with explicit
//! start and end of text, and the text generated by walking it.

use crate::random::random_below;
use crate::text::{chars_of, is_whitespace, whitespace};
use vstd::prelude::*;

verus! {

/// The words finished so far in `s`, and the word still being read.
pub open spec fn split_state(s: Seq<char>) -> (Seq<Seq<char>>, Seq<char>)
    decreases s.len(),
{
    if s.len() == 0 {
        (Seq::empty(), Seq::empty())
    } else {
        let (ws, cur) = split_state(s.drop_last());
        if whitespace(s.last()) {
            if cur.len() > 0 {
                (ws.push(cur), Seq::empty())
            } else {
                (ws, Seq::empty())
            }
        } else {
            (ws, cur.push(s.last()))
        }
    }
}

/// The maximal runs of non-whitespace characters of `s`, in order.
pub open spec fn words(s: Seq<char>) -> Seq<Seq<char>> {
    let (ws, cur) = split_state(s);
    if cur.len() > 0 {
        ws.push(cur)
    } else {
        ws
    }
}

/// Splits `text` into its words.
pub fn tokenize(text: &str) -> (r: Vec<Vec<char>>)
    ensures
        r@.map_values(|w: Vec<char>| w@) == words(text@),
{
    let chars = chars_of(text);
    let mut out: Vec<Vec<char>> = Vec::new();
    let mut cur: Vec<char> = Vec::new();
    let mut i: usize = 0;
    while i < chars.len()
        invariant
            i <= chars.len(),
            chars@ == text@,
            (out@.map_values(|w: Vec<char>| w@), cur@) == split_state(chars@.subrange(0, i as int)),
        decreases chars.len() - i,
    {
        let c = chars[i];
        proof {
            assert(chars@.subrange(0, i + 1).drop_last() =~= chars@.subrange(0, i as int));
        }
        let ghost before = out@;
        if is_whitespace(c) {
            if cur.len() > 0 {
                out.push(cur);
                cur = Vec::new();
                proof {
                    assert(out@.map_values(|w: Vec<char>| w@) =~= before.map_values(|w: Vec<char>| w@).push(out@.last()@));
                }
            }
        } else {
            cur.push(c);
        }
        i = i + 1;
    }
    proof {
        assert(chars@.subrange(0, i as int) =~= chars@);
    }
    if cur.len() > 0 {
        let ghost before = out@;
        out.push(cur);
        proof {
            assert(out@.map_values(|w: Vec<char>| w@) =~= before.map_values(|w: Vec<char>| w@).push(out@.last()@));
        }
    }
    out
}

/// The token at position `i` of a sequence of words; positions outside the
/// words stand for the start and end of the text.
pub open spec fn token_at(t: Seq<Seq<char>>, i: int) -> Option<Seq<char>> {
    if 0 <= i < t.len() {
        Some(t[i])
    } else {
        None
    }
}

/// The `n` tokens of `t` that end at position `i`, positions before the
/// first word standing for the start.
pub open spec fn window_at(t: Seq<Seq<char>>, n: nat, i: int) -> Seq<Option<Seq<char>>> {
    Seq::new(n, |j: int| token_at(t, i - n + 1 + j))
}

/// Whether token `b` directly follows the `n` tokens `w` in one of the
/// non-empty texts of `src` (`None` in `w` is the start of the text, and as
/// `b` its end).
pub open spec fn follows(src: Seq<Seq<Seq<char>>>, n: nat, w: Seq<Option<Seq<char>>>, b: Option<Seq<char>>) -> bool {
    exists|k: int, i: int|
        0 <= k < src.len() && src[k].len() > 0 && -1 <= i < src[k].len() && #[trigger] window_at(src[k], n, i) == w
            && token_at(src[k], i + 1) == b
}

/// A walk that the chain of order `n` built over `src` can produce with a
/// ceiling of `max_words`: each word follows, somewhere in `src`, the `n`
/// tokens before it (the start standing before the first word), and the walk
/// stops at the ceiling or where its last `n` tokens end a text.
pub open spec fn valid_walk(src: Seq<Seq<Seq<char>>>, n: nat, w: Seq<Seq<char>>, max_words: nat) -> bool {
    &&& w.len() <= max_words
    &&& forall|i: int| 0 <= i < w.len() ==> follows(src, n, window_at(w, n, i - 1), Some(#[trigger] w[i]))
    &&& w.len() == max_words || follows(src, n, window_at(w, n, w.len() - 1), None)
}

/// The words joined by single spaces.
pub open spec fn joined(ws: Seq<Seq<char>>) -> Seq<char>
    decreases ws.len(),
{
    if ws.len() == 0 {
        Seq::empty()
    } else if ws.len() == 1 {
        ws[0]
    } else {
        joined(ws.drop_last()) + seq![' '] + ws.last()
    }
}

/// Relies on `String`'s `FromIterator<&char>`: the characters of `v` in order.
#[verifier::external_body]
fn string_of(v: &Vec<char>) -> (r: String)
    ensures
        r@ == v@,
{
    v.iter().collect()
}

/// Moving a window one position on drops its oldest token and adds the next.
proof fn lemma_window_step(t: Seq<Seq<char>>, n: nat, i: int)
    requires
        n >= 1,
    ensures
        window_at(t, n, i) == window_at(t, n, i - 1).drop_first().push(token_at(t, i)),
{
    assert(window_at(t, n, i) =~= window_at(t, n, i - 1).drop_first().push(token_at(t, i)));
}

/// A word added after position `i` leaves the window ending at `i` as it was.
proof fn lemma_window_extend(t: Seq<Seq<char>>, w: Seq<char>, n: nat, i: int)
    requires
        i < t.len(),
    ensures
        window_at(t.push(w), n, i) == window_at(t, n, i),
{
    assert forall|j: int| 0 <= j < n implies #[trigger] window_at(t.push(w), n, i)[j] == window_at(t, n, i)[j] by {
        let p = i - n + 1 + j;
        if 0 <= p < t.len() {
            assert(t.push(w)[p] == t[p]);
        }
    }
    assert(window_at(t.push(w), n, i) =~= window_at(t, n, i));
}

/// Two chains with the same vocabulary give a window the same tokens.
proof fn lemma_tokens_same(a: MarkovChain, b: MarkovChain, ids: Seq<usize>)
    requires
        a.words@ == b.words@,
    ensures
        a.tokens(ids) == b.tokens(ids),
{
    assert forall|j: int| 0 <= j < ids.len() implies a.tokens(ids)[j] == b.tokens(ids)[j] by {
        assert(a.token(ids[j] as int) == b.token(ids[j] as int));
    }
    assert(a.tokens(ids) =~= b.tokens(ids));
}

/// A Markov chain of a fixed order `n`. Token 0 is the boundary (start or
/// end of a text); token `i > 0` is the word `words[i - 1]`. Each state is a
/// window of `n` tokens, and `follow[s]` lists each token that came after
/// window `states[s]`, once per occurrence, so a uniform pick from it is
/// weighted by observed frequency.
pub struct MarkovChain {
    order: usize,
    words: Vec<Vec<char>>,
    states: Vec<Vec<usize>>,
    follow: Vec<Vec<usize>>,
    src: Ghost<Seq<Seq<Seq<char>>>>,
}

impl MarkovChain {
    /// The tokenized texts the chain was built from.
    pub closed spec fn view(&self) -> Seq<Seq<Seq<char>>> {
        self.src@
    }

    /// The number of tokens that decide the next one.
    pub closed spec fn order(&self) -> nat {
        self.order as nat
    }

    pub closed spec fn token(&self, s: int) -> Option<Seq<char>> {
        if s == 0 {
            None
        } else {
            Some(self.words@[s - 1]@)
        }
    }

    pub closed spec fn tokens(&self, ids: Seq<usize>) -> Seq<Option<Seq<char>>> {
        ids.map_values(|x: usize| self.token(x as int))
    }

    pub closed spec fn ids_ok(&self, ids: Seq<usize>) -> bool {
        forall|j: int| 0 <= j < ids.len() ==> #[trigger] ids[j] <= self.words@.len()
    }

    /// Whether the window `w` is a recorded state with at least one successor.
    pub closed spec fn recorded(&self, w: Seq<Option<Seq<char>>>) -> bool {
        exists|s: int|
            0 <= s < self.states@.len() && #[trigger] self.tokens(self.states@[s]@) == w && self.follow@[s]@.len() > 0
    }

    /// No word is in the vocabulary twice, and no window is a state twice.
    pub closed spec fn distinct(&self) -> bool {
        &&& forall|a: int, b: int|
            0 <= a < b < self.words@.len() ==> (#[trigger] self.words@[a])@ != (#[trigger] self.words@[b])@
        &&& forall|a: int, b: int|
            0 <= a < b < self.states@.len() ==> (#[trigger] self.states@[a])@ != (#[trigger] self.states@[b])@
    }

    /// Every window that occurs in a text of the source is recorded.
    pub closed spec fn complete(&self) -> bool {
        forall|k: int, i: int|
            0 <= k < self.src@.len() && self.src@[k].len() > 0 && -1 <= i < self.src@[k].len() ==> #[trigger] self.recorded(
                window_at(self.src@[k], self.order as nat, i),
            )
    }

    pub closed spec fn wf(&self) -> bool {
        &&& self.wf_core()
        &&& self.distinct()
        &&& self.complete()
    }

    pub closed spec fn wf_core(&self) -> bool {
        &&& self.order >= 1
        &&& self.states@.len() == self.follow@.len()
        &&& forall|s: int|
            0 <= s < self.states@.len() ==> (#[trigger] self.states@[s])@.len() == self.order && self.ids_ok(
                self.states@[s]@,
            )
        &&& forall|s: int, j: int|
            0 <= s < self.follow@.len() && 0 <= j < self.follow@[s].len() ==> {
                &&& #[trigger] self.follow@[s]@[j] <= self.words@.len()
                &&& follows(
                    self.src@,
                    self.order as nat,
                    self.tokens(self.states@[s]@),
                    self.token(self.follow@[s]@[j] as int),
                )
            }
    }

    /// A chain of order `order` built over nothing.
    pub fn new(order: usize) -> (r: Self)
        requires
            order >= 1,
        ensures
            r.wf(),
            r.order() == order,
            r@ == Seq::<Seq<Seq<char>>>::empty(),
    {
        MarkovChain { order, words: Vec::new(), states: Vec::new(), follow: Vec::new(), src: Ghost(Seq::empty()) }
    }

    /// The token of `w`, added to the vocabulary if it is new.
    fn token_of(&mut self, w: &Vec<char>) -> (r: usize)
        requires
            old(self).wf_core(),
            old(self).distinct(),
        ensures
            final(self).wf_core(),
            final(self).distinct(),
            forall|win: Seq<Option<Seq<char>>>| old(self).recorded(win) ==> #[trigger] final(self).recorded(win),
            final(self)@ == old(self)@,
            final(self).order == old(self).order,
            final(self).states == old(self).states,
            final(self).follow == old(self).follow,
            1 <= r <= final(self).words@.len(),
            final(self).token(r as int) == Some(w@),
            final(self).words@.len() >= old(self).words@.len(),
            forall|x: int| 0 <= x <= old(self).words@.len() ==> #[trigger] final(self).token(x) == old(self).token(x),
    {
        let mut i: usize = 0;
        while i < self.words.len()
            invariant
                i <= self.words.len(),
                *self == *old(self),
                self.wf_core(),
                self.distinct(),
                forall|j: int| 0 <= j < i ==> (#[trigger] self.words@[j])@ != w@,
            decreases self.words.len() - i,
        {
            if same_word(&self.words[i], w) {
                assert(self.words@[i as int]@ == w@);
                return i + 1;
            }
            i = i + 1;
        }
        let ghost before = *self;
        self.words.push(w.clone());
        proof {
            assert forall|x: int| 0 <= x <= before.words@.len() implies #[trigger] self.token(x) == before.token(x) by {
                if x > 0 {
                    assert(self.words@[x - 1] == before.words@[x - 1]);
                }
            }
            assert forall|ids: Seq<usize>| before.ids_ok(ids) implies #[trigger] self.tokens(ids) == before.tokens(ids) by {
                assert forall|j: int| 0 <= j < ids.len() implies self.tokens(ids)[j] == before.tokens(ids)[j] by {
                    assert(self.token(ids[j] as int) == before.token(ids[j] as int));
                }
                assert(self.tokens(ids) =~= before.tokens(ids));
            }
            assert forall|s: int| 0 <= s < self.states@.len() implies (#[trigger] self.states@[s])@.len() == self.order
                && self.ids_ok(self.states@[s]@) by {
                assert(before.ids_ok(before.states@[s]@));
            }
            assert forall|win: Seq<Option<Seq<char>>>| before.recorded(win) implies #[trigger] self.recorded(win) by {
                let s = choose|s: int|
                    0 <= s < before.states@.len() && #[trigger] before.tokens(before.states@[s]@) == win
                        && before.follow@[s]@.len() > 0;
                assert(before.ids_ok(before.states@[s]@));
                assert(self.tokens(self.states@[s]@) == win);
            }
            assert forall|a: int, b: int| 0 <= a < b < self.words@.len() implies (#[trigger] self.words@[a])@
                != (#[trigger] self.words@[b])@ by {
                if b == self.words@.len() - 1 {
                    assert(self.words@[a] == before.words@[a]);
                } else {
                    assert(self.words@[a] == before.words@[a] && self.words@[b] == before.words@[b]);
                }
            }
            assert forall|s: int, j: int|
                0 <= s < self.follow@.len() && 0 <= j < self.follow@[s].len() implies {
                    &&& #[trigger] self.follow@[s]@[j] <= self.words@.len()
                    &&& follows(
                        self.src@,
                        self.order as nat,
                        self.tokens(self.states@[s]@),
                        self.token(self.follow@[s]@[j] as int),
                    )
                } by {
                assert(before.ids_ok(before.states@[s]@));
                assert(self.tokens(self.states@[s]@) == before.tokens(before.states@[s]@));
                assert(self.token(self.follow@[s]@[j] as int) == before.token(before.follow@[s]@[j] as int));
            }
        }
        self.words.len()
    }

    /// The index of the state with window `window`, if there is one.
    fn find_state(&self, window: &Vec<usize>) -> (r: Option<usize>)
        ensures
            r matches Some(s) ==> s < self.states@.len() && self.states@[s as int]@ == window@,
            r is None ==> forall|t: int| 0 <= t < self.states@.len() ==> (#[trigger] self.states@[t])@ != window@,
    {
        let mut s: usize = 0;
        while s < self.states.len()
            invariant
                s <= self.states.len(),
                forall|t: int| 0 <= t < s ==> (#[trigger] self.states@[t])@ != window@,
            decreases self.states.len() - s,
        {
            if same_ids(&self.states[s], window) {
                return Some(s);
            }
            s = s + 1;
        }
        None
    }

    /// Records that token `b` follows the window `window`, given that it does
    /// so at position `i` of text `k` of the source.
    fn record(&mut self, window: &Vec<usize>, b: usize, Ghost(k): Ghost<int>, Ghost(i): Ghost<int>)
        requires
            old(self).wf_core(),
            old(self).distinct(),
            window@.len() == old(self).order,
            old(self).ids_ok(window@),
            b <= old(self).words@.len(),
            0 <= k < old(self)@.len(),
            old(self)@[k].len() > 0,
            -1 <= i < old(self)@[k].len(),
            window_at(old(self)@[k], old(self).order as nat, i) == old(self).tokens(window@),
            token_at(old(self)@[k], i + 1) == old(self).token(b as int),
        ensures
            final(self).wf_core(),
            final(self).distinct(),
            final(self)@ == old(self)@,
            final(self).order == old(self).order,
            final(self).words == old(self).words,
            forall|win: Seq<Option<Seq<char>>>| old(self).recorded(win) ==> #[trigger] final(self).recorded(win),
            final(self).recorded(old(self).tokens(window@)),
    {
        let ghost before = *self;
        match self.find_state(window) {
            Some(s) => {
                self.follow.push(Vec::new());
                let mut list = self.follow.swap_remove(s);
                list.push(b);
                self.follow.set(s, list);
                proof {
                    assert forall|win: Seq<Option<Seq<char>>>| before.recorded(win) implies #[trigger] self.recorded(win) by {
                        let t = choose|t: int|
                            0 <= t < before.states@.len() && #[trigger] before.tokens(before.states@[t]@) == win
                                && before.follow@[t]@.len() > 0;
                        lemma_tokens_same(*self, before, self.states@[t]@);
                        assert(self.follow@[t]@.len() > 0);
                    }
                    lemma_tokens_same(*self, before, self.states@[s as int]@);
                    lemma_tokens_same(*self, before, window@);
                    assert(self.follow@[s as int]@.len() > 0);
                    assert(self.tokens(self.states@[s as int]@) == before.tokens(window@));
                    assert forall|t: int, j: int|
                        0 <= t < self.follow@.len() && 0 <= j < self.follow@[t].len() implies {
                            &&& #[trigger] self.follow@[t]@[j] <= self.words@.len()
                            &&& follows(
                                self.src@,
                                self.order as nat,
                                self.tokens(self.states@[t]@),
                                self.token(self.follow@[t]@[j] as int),
                            )
                        } by {
                        lemma_tokens_same(*self, before, self.states@[t]@);
                        lemma_tokens_same(*self, before, window@);
                        if t == s && j == self.follow@[t].len() - 1 {
                            assert(window_at(self.src@[k], self.order as nat, i) == self.tokens(self.states@[t]@));
                            assert(token_at(self.src@[k], i + 1) == self.token(self.follow@[t]@[j] as int));
                        } else {
                            assert(self.follow@[t]@[j] == before.follow@[t]@[j]);
                        }
                    }
                }
            },
            None => {
                let mut w: Vec<usize> = Vec::new();
                let mut j: usize = 0;
                while j < window.len()
                    invariant
                        j <= window.len(),
                        w@ == window@.subrange(0, j as int),
                    decreases window.len() - j,
                {
                    w.push(window[j]);
                    proof {
                        assert(window@.subrange(0, j + 1) =~= window@.subrange(0, j as int).push(window@[j as int]));
                    }
                    j = j + 1;
                }
                proof {
                    assert(window@.subrange(0, j as int) =~= window@);
                }
                self.states.push(w);
                let mut list: Vec<usize> = Vec::new();
                list.push(b);
                self.follow.push(list);
                proof {
                    assert forall|win: Seq<Option<Seq<char>>>| before.recorded(win) implies #[trigger] self.recorded(win) by {
                        let t = choose|t: int|
                            0 <= t < before.states@.len() && #[trigger] before.tokens(before.states@[t]@) == win
                                && before.follow@[t]@.len() > 0;
                        lemma_tokens_same(*self, before, self.states@[t]@);
                        assert(self.states@[t] == before.states@[t]);
                        assert(self.follow@[t] == before.follow@[t]);
                    }
                    let last = before.states@.len() as int;
                    lemma_tokens_same(*self, before, window@);
                    assert(self.states@[last]@ == window@);
                    assert(self.follow@[last]@.len() > 0);
                    assert(self.tokens(self.states@[last]@) == before.tokens(window@));
                    assert forall|a: int, c: int| 0 <= a < c < self.states@.len() implies (#[trigger] self.states@[a])@
                        != (#[trigger] self.states@[c])@ by {
                        assert(self.states@[a] == before.states@[a] || a == last);
                        if c == last {
                            assert(self.states@[a] == before.states@[a]);
                        } else {
                            assert(self.states@[a] == before.states@[a] && self.states@[c] == before.states@[c]);
                        }
                    }
                    assert forall|t: int| 0 <= t < self.states@.len() implies (#[trigger] self.states@[t])@.len()
                        == self.order && self.ids_ok(self.states@[t]@) by {
                        if t < before.states@.len() {
                            assert(self.states@[t] == before.states@[t]);
                        }
                    }
                    assert forall|t: int, jj: int|
                        0 <= t < self.follow@.len() && 0 <= jj < self.follow@[t].len() implies {
                            &&& #[trigger] self.follow@[t]@[jj] <= self.words@.len()
                            &&& follows(
                                self.src@,
                                self.order as nat,
                                self.tokens(self.states@[t]@),
                                self.token(self.follow@[t]@[jj] as int),
                            )
                        } by {
                        lemma_tokens_same(*self, before, self.states@[t]@);
                        lemma_tokens_same(*self, before, window@);
                        if t == before.follow@.len() {
                            assert(self.follow@[t]@[jj] == b);
                            assert(self.states@[t]@ == window@);
                            assert(window_at(self.src@[k], self.order as nat, i) == self.tokens(self.states@[t]@));
                            assert(token_at(self.src@[k], i + 1) == self.token(self.follow@[t]@[jj] as int));
                        } else {
                            assert(self.follow@[t] == before.follow@[t]);
                            assert(self.states@[t] == before.states@[t]);
                        }
                    }
                }
            },
        }
    }

    /// Adds one text's words to the chain: each word follows the window of
    /// tokens before it (the start standing before the first word), and the
    /// end follows the window of its last words.
    pub fn add_text(&mut self, text: &str)
        requires
            old(self).wf(),
        ensures
            final(self).wf(),
            final(self).order() == old(self).order(),
            final(self)@ == old(self)@.push(words(text@)),
    {
        let ws = tokenize(text);
        let ghost t = words(text@);
        let ghost n = self.order as nat;
        proof {
            let src2 = self.src@.push(t);
            assert forall|s: int, j: int|
                0 <= s < self.follow@.len() && 0 <= j < self.follow@[s].len() implies follows(
                    src2,
                    n,
                    self.tokens(self.states@[s]@),
                    self.token(#[trigger] self.follow@[s]@[j] as int),
                ) by {
                let (kk, ii) = choose|kk: int, ii: int|
                    0 <= kk < self.src@.len() && self.src@[kk].len() > 0 && -1 <= ii < self.src@[kk].len()
                        && #[trigger] window_at(self.src@[kk], n, ii) == self.tokens(self.states@[s]@)
                        && token_at(self.src@[kk], ii + 1) == self.token(self.follow@[s]@[j] as int);
                assert(src2[kk] == self.src@[kk]);
                assert(window_at(src2[kk], n, ii) == self.tokens(self.states@[s]@));
            }
        }
        let ghost before = *self;
        self.src = Ghost(self.src@.push(t));
        proof {
            assert forall|s: int, j: int|
                0 <= s < self.follow@.len() && 0 <= j < self.follow@[s].len() implies {
                    &&& #[trigger] self.follow@[s]@[j] <= self.words@.len()
                    &&& follows(
                        self.src@,
                        self.order as nat,
                        self.tokens(self.states@[s]@),
                        self.token(self.follow@[s]@[j] as int),
                    )
                } by {
                lemma_tokens_same(*self, before, self.states@[s]@);
                assert(self.token(self.follow@[s]@[j] as int) == before.token(before.follow@[s]@[j] as int));
            }
            assert forall|s: int| 0 <= s < self.states@.len() implies (#[trigger] self.states@[s])@.len() == self.order
                && self.ids_ok(self.states@[s]@) by {
                assert(before.ids_ok(before.states@[s]@));
            }
            assert forall|win: Seq<Option<Seq<char>>>| before.recorded(win) implies #[trigger] self.recorded(win) by {
                let t = choose|t: int|
                    0 <= t < before.states@.len() && #[trigger] before.tokens(before.states@[t]@) == win
                        && before.follow@[t]@.len() > 0;
                lemma_tokens_same(*self, before, self.states@[t]@);
            }
            assert forall|kk: int, ii: int|
                0 <= kk < self@.len() - 1 && self@[kk].len() > 0 && -1 <= ii < self@[kk].len() implies #[trigger] self.recorded(
                    window_at(self@[kk], n, ii),
                ) by {
                assert(self@[kk] == before.src@[kk]);
                assert(before.recorded(window_at(before.src@[kk], n, ii)));
            }
        }
        let ghost k = self.src@.len() - 1;
        assert(self@[k] == t);
        assert(ws@.len() == t.len());
        if ws.len() == 0 {
            return;
        }
        let mut window: Vec<usize> = Vec::new();
        let mut j: usize = 0;
        while j < self.order
            invariant
                j <= self.order,
                forall|x: int| 0 <= x < window@.len() ==> #[trigger] window@[x] == 0usize,
                window@.len() == j,
            decreases self.order - j,
        {
            window.push(0);
            j = j + 1;
        }
        proof {
            assert(self.tokens(window@) =~= window_at(t, n, -1));
        }
        let mut i: usize = 0;
        while i < ws.len()
            invariant
                self.wf_core(),
                self.distinct(),
                forall|kk: int, ii: int|
                    0 <= kk < self@.len() - 1 && self@[kk].len() > 0 && -1 <= ii < self@[kk].len() ==> #[trigger] self.recorded(
                        window_at(self@[kk], n, ii),
                    ),
                forall|jj: int| -1 <= jj < i - 1 ==> #[trigger] self.recorded(window_at(t, n, jj)),
                self.order as nat == n,
                self.order == old(self).order,
                self@ == old(self)@.push(t),
                k == self@.len() - 1,
                self@[k] == t,
                ws@.map_values(|w: Vec<char>| w@) == t,
                ws@.len() > 0,
                i <= ws.len(),
                window@.len() == n,
                self.ids_ok(window@),
                self.tokens(window@) == window_at(t, n, i - 1),
            decreases ws.len() - i,
        {
            let ghost before = *self;
            let cur = self.token_of(&ws[i]);
            proof {
                assert(t[i as int] == ws@[i as int]@);
                assert forall|x: int| 0 <= x < window@.len() implies self.tokens(window@)[x] == before.tokens(window@)[x] by {
                    assert(window@[x] <= before.words@.len());
                }
                assert(self.tokens(window@) =~= before.tokens(window@));
            }
            self.record(&window, cur, Ghost(k), Ghost(i - 1));
            assert(self.recorded(window_at(t, n, i - 1)));
            let ghost prev = window@;
            let mut next: Vec<usize> = Vec::new();
            let mut x: usize = 1;
            while x < window.len()
                invariant
                    1 <= x <= window.len(),
                    window@ == prev,
                    next@ == prev.subrange(1, x as int),
                decreases window.len() - x,
            {
                next.push(window[x]);
                proof {
                    assert(prev.subrange(1, x + 1) =~= prev.subrange(1, x as int).push(prev[x as int]));
                }
                x = x + 1;
            }
            next.push(cur);
            window = next;
            proof {
                assert(window@ =~= prev.drop_first().push(cur));
                lemma_window_step(t, n, i as int);
                assert(self.tokens(window@) =~= self.tokens(prev).drop_first().push(self.token(cur as int)));
            }
            i = i + 1;
        }
        self.record(&window, 0, Ghost(k), Ghost(ws.len() - 1));
        proof {
            assert(self.recorded(window_at(t, n, ws.len() - 1)));
            assert forall|kk: int, ii: int|
                0 <= kk < self.src@.len() && self.src@[kk].len() > 0 && -1 <= ii < self.src@[kk].len() implies #[trigger] self.recorded(
                    window_at(self.src@[kk], self.order as nat, ii),
                ) by {
                if kk == k {
                    assert(self@[kk] == t);
                    if ii < ws.len() - 1 {
                        assert(self.recorded(window_at(t, n, ii)));
                    }
                } else {
                    assert(self.recorded(window_at(self@[kk], n, ii)));
                }
            }
        }
    }

    /// Builds a chain of order `order` over each of `texts`.
    pub fn from_texts(texts: &Vec<String>, order: usize) -> (r: Self)
        requires
            order >= 1,
        ensures
            r.wf(),
            r.order() == order,
            r@.len() == texts@.len(),
            forall|k: int| 0 <= k < texts@.len() ==> #[trigger] r@[k] == words(texts@[k]@),
    {
        let mut chain = MarkovChain::new(order);
        let mut i: usize = 0;
        while i < texts.len()
            invariant
                i <= texts.len(),
                chain.wf(),
                chain.order() == order,
                chain@.len() == i,
                forall|k: int| 0 <= k < i ==> #[trigger] chain@[k] == words(texts@[k]@),
            decreases texts.len() - i,
        {
            chain.add_text(texts[i].as_str());
            i = i + 1;
        }
        chain
    }
}

/// Whether the `n` tokens `w` end at some position of a non-empty text of `src`.
pub open spec fn occurs(src: Seq<Seq<Seq<char>>>, n: nat, w: Seq<Option<Seq<char>>>) -> bool {
    exists|k: int, i: int|
        0 <= k < src.len() && src[k].len() > 0 && -1 <= i < src[k].len() && #[trigger] window_at(src[k], n, i) == w
}

/// Windows of valid tokens that give the same tokens are the same window.
proof fn lemma_tokens_injective(c: MarkovChain, a: Seq<usize>, b: Seq<usize>)
    requires
        c.distinct(),
        c.ids_ok(a),
        c.ids_ok(b),
        a.len() == b.len(),
        c.tokens(a) == c.tokens(b),
    ensures
        a == b,
{
    assert forall|j: int| 0 <= j < a.len() implies a[j] == b[j] by {
        assert(c.tokens(a)[j] == c.tokens(b)[j]);
        assert(a[j] <= c.words@.len() && b[j] <= c.words@.len());
        if a[j] != b[j] && a[j] != 0 && b[j] != 0 {
            if a[j] < b[j] {
                assert(c.words@[a[j] - 1]@ != c.words@[b[j] - 1]@);
            } else {
                assert(c.words@[b[j] - 1]@ != c.words@[a[j] - 1]@);
            }
        }
    }
    assert(a =~= b);
}

/// Whether `src` holds a text with at least one word.
pub open spec fn has_text(src: Seq<Seq<Seq<char>>>) -> bool {
    exists|k: int| 0 <= k < src.len() && (#[trigger] src[k]).len() > 0
}

/// Whether some walk of at least `min_words` words, within the ceiling
/// `max_words`, can be generated from the chain of order `n` built over `src`.
pub open spec fn can_produce(src: Seq<Seq<Seq<char>>>, n: nat, max_words: nat, min_words: nat) -> bool {
    exists|ws: Seq<Seq<char>>| valid_walk(src, n, ws, max_words) && ws.len() >= min_words
}

/// The outcome of generation under an attempt budget.
pub struct Generation {
    /// The generated text, if an attempt succeeded.
    pub text: Option<String>,
    /// How many attempts were made.
    pub attempts: usize,
}

/// One walk, its words joined by spaces.
struct Walk {
    text: Vec<char>,
    len: usize,
    ws: Ghost<Seq<Seq<char>>>,
}

impl MarkovChain {
    /// The state of a window that occurs in the source: it holds exactly
    /// that window and has a successor.
    proof fn recorded_state(&self, window: Seq<usize>) -> (s: int)
        requires
            self.wf(),
            window.len() == self.order,
            self.ids_ok(window),
            occurs(self@, self.order as nat, self.tokens(window)),
        ensures
            0 <= s < self.states@.len(),
            self.states@[s]@ == window,
            self.follow@[s]@.len() > 0,
    {
        let (k, i) = choose|k: int, i: int|
            0 <= k < self@.len() && self@[k].len() > 0 && -1 <= i < self@[k].len() && #[trigger] window_at(
                self@[k],
                self.order as nat,
                i,
            ) == self.tokens(window);
        assert(self.recorded(window_at(self.src@[k], self.order as nat, i)));
        let s = choose|s: int|
            0 <= s < self.states@.len() && #[trigger] self.tokens(self.states@[s]@) == self.tokens(window)
                && self.follow@[s]@.len() > 0;
        assert(self.ids_ok(self.states@[s]@));
        assert(self.tokens(self.states@[s]@).len() == self.states@[s]@.len());
        assert(self.tokens(window).len() == window.len());
        lemma_tokens_injective(*self, self.states@[s]@, window);
        s
    }

    /// One walk of the chain: from the start, each next token is drawn
    /// uniformly from those recorded after the current window, until the end
    /// is drawn or `max_words` words stand. `None` when the current window
    /// has no recorded successor (the chain is empty).
    fn walk(&self, max_words: usize) -> (r: Option<Walk>)
        requires
            self.wf(),
        ensures
            r matches Some(w) ==> {
                &&& valid_walk(self@, self.order(), w.ws@, max_words as nat)
                &&& w.len == w.ws@.len()
                &&& w.text@ == joined(w.ws@)
            },
            r is None ==> !has_text(self@),
    {
        let ghost n = self.order as nat;
        let mut window: Vec<usize> = Vec::new();
        let mut j: usize = 0;
        while j < self.order
            invariant
                j <= self.order,
                forall|x: int| 0 <= x < window@.len() ==> #[trigger] window@[x] == 0usize,
                window@.len() == j,
            decreases self.order - j,
        {
            window.push(0);
            j = j + 1;
        }
        let mut text: Vec<char> = Vec::new();
        let mut count: usize = 0;
        let ghost mut ws: Seq<Seq<char>> = Seq::empty();
        proof {
            assert(self.tokens(window@) =~= window_at(ws, n, -1));
            if has_text(self@) {
                let k = choose|k: int| 0 <= k < self@.len() && (#[trigger] self@[k]).len() > 0;
                assert(window_at(self@[k], n, -1) =~= self.tokens(window@));
            }
        }
        while count < max_words
            invariant
                self.wf(),
                n == self.order as nat,
                count == ws.len(),
                count <= max_words,
                text@ == joined(ws),
                window@.len() == n,
                self.ids_ok(window@),
                self.tokens(window@) == window_at(ws, n, count - 1),
                forall|i: int| 0 <= i < ws.len() ==> follows(self@, n, window_at(ws, n, i - 1), Some(#[trigger] ws[i])),
                has_text(self@) ==> occurs(self@, n, self.tokens(window@)),
            decreases max_words - count,
        {
            let s = match self.find_state(&window) {
                Some(s) => s,
                None => {
                    proof {
                        if has_text(self@) {
                            let t = self.recorded_state(window@);
                            assert(self.states@[t]@ == window@);
                        }
                    }
                    return None;
                },
            };
            let succ = &self.follow[s];
            if succ.len() == 0 {
                proof {
                    if has_text(self@) {
                        let t = self.recorded_state(window@);
                        if t != s {
                            if t < s {
                                assert(self.states@[t as int]@ != self.states@[s as int]@);
                            } else {
                                assert(self.states@[s as int]@ != self.states@[t as int]@);
                            }
                        }
                    }
                }
                return None;
            }
            let k = random_below(succ.len());
            let nxt = succ[k];
            assert(follows(self@, n, self.tokens(self.states@[s as int]@), self.token(nxt as int)));
            if nxt == 0 {
                return Some(Walk { text, len: count, ws: Ghost(ws) });
            }
            let word = &self.words[nxt - 1];
            let ghost w = word@;
            assert(self.token(nxt as int) == Some(w));
            if count > 0 {
                text.push(' ');
            }
            let ghost mid = text@;
            let mut c: usize = 0;
            while c < word.len()
                invariant
                    c <= word.len(),
                    word@ == w,
                    text@ == mid + w.subrange(0, c as int),
                decreases word.len() - c,
            {
                text.push(word[c]);
                proof {
                    assert(w.subrange(0, c + 1) =~= w.subrange(0, c as int).push(w[c as int]));
                }
                c = c + 1;
            }
            let ghost prev = window@;
            let mut next: Vec<usize> = Vec::new();
            let mut x: usize = 1;
            while x < window.len()
                invariant
                    1 <= x <= window.len(),
                    window@ == prev,
                    next@ == prev.subrange(1, x as int),
                decreases window.len() - x,
            {
                next.push(window[x]);
                proof {
                    assert(prev.subrange(1, x + 1) =~= prev.subrange(1, x as int).push(prev[x as int]));
                }
                x = x + 1;
            }
            next.push(nxt);
            window = next;
            proof {
                assert(w.subrange(0, c as int) =~= w);
                let ws2 = ws.push(w);
                assert(ws2.drop_last() =~= ws);
                assert(text@ =~= joined(ws2));
                assert(window@ =~= prev.drop_first().push(nxt));
                assert(self.tokens(window@) =~= self.tokens(prev).drop_first().push(self.token(nxt as int)));
                lemma_window_extend(ws, w, n, count - 1);
                lemma_window_step(ws2, n, count as int);
                assert(token_at(ws2, count as int) == Some(w));
                if has_text(self@) {
                    let (kk, ii) = choose|kk: int, ii: int|
                        0 <= kk < self@.len() && self@[kk].len() > 0 && -1 <= ii < self@[kk].len() && #[trigger] window_at(
                            self@[kk],
                            n,
                            ii,
                        ) == self.tokens(self.states@[s as int]@) && token_at(self@[kk], ii + 1) == self.token(nxt as int);
                    lemma_window_step(self@[kk], n, ii + 1);
                    assert(self.states@[s as int]@ == prev);
                    assert(window_at(self@[kk], n, ii + 1) == self.tokens(window@));
                }
                assert forall|i: int| 0 <= i < ws2.len() implies follows(self@, n, window_at(ws2, n, i - 1), Some(#[trigger] ws2[i])) by {
                    lemma_window_extend(ws, w, n, i - 1);
                    if i < ws.len() {
                        assert(ws2[i] == ws[i]);
                    }
                }
                ws = ws2;
            }
            count = count + 1;
        }
        Some(Walk { text, len: count, ws: Ghost(ws) })
    }

    /// One generation attempt: a walk of at most `max_words` words, kept when
    /// it has at least `min_words` words, its words joined by spaces.
    pub fn generate_string(&self, max_words: usize, min_words: usize) -> (r: Option<String>)
        requires
            self.wf(),
        ensures
            r matches Some(s) ==> exists|ws: Seq<Seq<char>>|
                valid_walk(self@, self.order(), ws, max_words as nat) && ws.len() >= min_words && s@ == joined(ws),
            r is None ==> !has_text(self@) || exists|ws: Seq<Seq<char>>|
                valid_walk(self@, self.order(), ws, max_words as nat) && ws.len() < min_words,
    {
        match self.walk(max_words) {
            None => None,
            Some(w) => {
                if w.len < min_words {
                    assert(valid_walk(self@, self.order(), w.ws@, max_words as nat) && w.ws@.len() < min_words);
                    None
                } else {
                    let s = string_of(&w.text);
                    assert(valid_walk(self@, self.order(), w.ws@, max_words as nat) && w.ws@.len() >= min_words && s@
                        == joined(w.ws@));
                    Some(s)
                }
            },
        }
    }

    /// Generation under a budget of `attempts` attempts: the first attempt
    /// that succeeds gives the text; when none does, no text comes back
    /// after exactly `attempts` attempts.
    pub fn generate_with_budget(&self, max_words: usize, min_words: usize, attempts: usize) -> (r: Generation)
        requires
            self.wf(),
        ensures
            r.attempts <= attempts,
            r.text is None ==> r.attempts == attempts,
            r.text matches Some(s) ==> r.attempts >= 1 && exists|ws: Seq<Seq<char>>|
                valid_walk(self@, self.order(), ws, max_words as nat) && ws.len() >= min_words && s@ == joined(ws),
            !can_produce(self@, self.order(), max_words as nat, min_words as nat) ==> r.text is None && r.attempts
                == attempts,
            r.text is None && attempts > 0 ==> !has_text(self@) || exists|ws: Seq<Seq<char>>|
                valid_walk(self@, self.order(), ws, max_words as nat) && ws.len() < min_words,
    {
        let mut made: usize = 0;
        while made < attempts
            invariant
                self.wf(),
                made <= attempts,
                made > 0 ==> !has_text(self@) || exists|ws: Seq<Seq<char>>|
                    valid_walk(self@, self.order(), ws, max_words as nat) && ws.len() < min_words,
            decreases attempts - made,
        {
            made = made + 1;
            let got = self.generate_string(max_words, min_words);
            if let Some(s) = got {
                return Generation { text: Some(s), attempts: made };
            }
        }
        Generation { text: None, attempts: made }
    }
}

/// Whether two windows hold the same tokens.
fn same_ids(a: &Vec<usize>, b: &Vec<usize>) -> (r: bool)
    ensures
        r == (a@ == b@),
{
    if a.len() != b.len() {
        return false;
    }
    let mut i: usize = 0;
    while i < a.len()
        invariant
            i <= a.len(),
            a.len() == b.len(),
            forall|j: int| 0 <= j < i ==> a@[j] == b@[j],
        decreases a.len() - i,
    {
        if a[i] != b[i] {
            return false;
        }
        i = i + 1;
    }
    assert(a@ =~= b@);
    true
}

/// Whether two words have the same characters.
fn same_word(a: &Vec<char>, b: &Vec<char>) -> (r: bool)
    ensures
        r == (a@ == b@),
{
    if a.len() != b.len() {
        return false;
    }
    let mut i: usize = 0;
    while i < a.len()
        invariant
            i <= a.len(),
            a.len() == b.len(),
            forall|j: int| 0 <= j < i ==> a@[j] == b@[j],
        decreases a.len() - i,
    {
        if a[i] != b[i] {
            return false;
        }
        i = i + 1;
    }
    assert(a@ =~= b@);
    true
}

} // verus!
