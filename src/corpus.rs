//! The corpus store: each guild's accepted messages, unique by message id.

use crate::random::random_below;
use crate::text::{is_low_quality, low_quality};
use vstd::multiset::Multiset;
use vstd::prelude::*;

verus! {

/// A message accepted into a corpus.
#[derive(Clone, Debug)]
pub struct StoredMessage {
    pub id: u64,
    pub guild_id: u64,
    pub user_id: u64,
    pub text: String,
    /// Seconds since the Unix epoch.
    pub created_at: i64,
}

impl StoredMessage {
    /// A copy of this message.
    pub fn duplicate(&self) -> (r: Self)
        ensures
            r == *self,
    {
        StoredMessage {
            id: self.id,
            guild_id: self.guild_id,
            user_id: self.user_id,
            text: self.text.clone(),
            created_at: self.created_at,
        }
    }
}

/// Which rows a sweep of the store removes.
#[derive(Clone, Copy, Debug)]
pub enum Sweep {
    /// Every message of one guild.
    Guild(u64),
    /// Every message whose text is of low quality.
    LowQuality,
}

pub open spec fn removed_by(m: StoredMessage, sweep: Sweep) -> bool {
    match sweep {
        Sweep::Guild(g) => m.guild_id == g,
        Sweep::LowQuality => low_quality(m.text@),
    }
}

/// The rows of `s` that `sweep` leaves, in order.
pub open spec fn kept(s: Seq<StoredMessage>, sweep: Sweep) -> Seq<StoredMessage>
    decreases s.len(),
{
    if s.len() == 0 {
        s
    } else if removed_by(s.last(), sweep) {
        kept(s.drop_last(), sweep)
    } else {
        kept(s.drop_last(), sweep).push(s.last())
    }
}

pub open spec fn has_id(s: Seq<StoredMessage>, id: u64) -> bool {
    exists|k: int| 0 <= k < s.len() && (#[trigger] s[k]).id == id
}

/// No two rows share a message id.
pub open spec fn unique_ids(s: Seq<StoredMessage>) -> bool {
    forall|i: int, j: int| 0 <= i < j < s.len() ==> (#[trigger] s[i]).id != (#[trigger] s[j]).id
}

/// The rows after inserting `m` unless its id is already stored.
pub open spec fn inserted(s: Seq<StoredMessage>, m: StoredMessage) -> Seq<StoredMessage> {
    if has_id(s, m.id) {
        s
    } else {
        s.push(m)
    }
}

/// The rows after inserting each of `ms` in turn.
pub open spec fn inserted_all(s: Seq<StoredMessage>, ms: Seq<StoredMessage>) -> Seq<StoredMessage>
    decreases ms.len(),
{
    if ms.len() == 0 {
        s
    } else {
        inserted(inserted_all(s, ms.drop_last()), ms.last())
    }
}

/// The number of rows with message id `id`.
pub open spec fn count_id(s: Seq<StoredMessage>, id: u64) -> nat
    decreases s.len(),
{
    if s.len() == 0 {
        0
    } else {
        count_id(s.drop_last(), id) + if s.last().id == id { 1nat } else { 0nat }
    }
}

/// Whether a row belongs to the sample drawn for guild `g`, restricted to
/// `authors` when they are given.
pub open spec fn in_sample(m: StoredMessage, g: u64, authors: Option<Seq<u64>>) -> bool {
    &&& m.guild_id == g
    &&& match authors {
        Some(a) => a.contains(m.user_id),
        None => true,
    }
}

/// The texts of the rows that a sample for `g` and `authors` draws from, in order.
pub open spec fn candidates(s: Seq<StoredMessage>, g: u64, authors: Option<Seq<u64>>) -> Seq<String>
    decreases s.len(),
{
    if s.len() == 0 {
        Seq::empty()
    } else if in_sample(s.last(), g, authors) {
        candidates(s.drop_last(), g, authors).push(s.last().text)
    } else {
        candidates(s.drop_last(), g, authors)
    }
}

/// The author restriction as a sequence of user ids.
pub open spec fn authors_view(authors: &Option<Vec<u64>>) -> Option<Seq<u64>> {
    match authors {
        Some(a) => Some(a@),
        None => None,
    }
}

pub open spec fn min_nat(a: nat, b: nat) -> nat {
    if a <= b {
        a
    } else {
        b
    }
}

/// The stored messages of every guild.
pub struct Corpus {
    messages: Vec<StoredMessage>,
}

impl Corpus {
    pub closed spec fn view(&self) -> Seq<StoredMessage> {
        self.messages@
    }

    pub open spec fn wf(&self) -> bool {
        unique_ids(self@)
    }

    pub fn new() -> (r: Self)
        ensures
            r.wf(),
            r@ == Seq::<StoredMessage>::empty(),
    {
        Corpus { messages: Vec::new() }
    }

    /// The number of stored rows.
    pub fn len(&self) -> (r: usize)
        ensures
            r == self@.len(),
    {
        self.messages.len()
    }

    /// Whether a row with message id `id` is stored.
    pub fn contains_id(&self, id: u64) -> (r: bool)
        ensures
            r == has_id(self@, id),
    {
        let mut i: usize = 0;
        while i < self.messages.len()
            invariant
                i <= self.messages.len(),
                forall|k: int| 0 <= k < i ==> (#[trigger] self.messages@[k]).id != id,
            decreases self.messages.len() - i,
        {
            if self.messages[i].id == id {
                return true;
            }
            i = i + 1;
        }
        false
    }

    /// Stores `m` unless a row with its id is already there; returns whether
    /// it was stored. A duplicate id is no error.
    pub fn insert_if_absent(&mut self, m: StoredMessage) -> (r: bool)
        requires
            old(self).wf(),
        ensures
            final(self).wf(),
            final(self)@ == inserted(old(self)@, m),
            r == !has_id(old(self)@, m.id),
    {
        if self.contains_id(m.id) {
            false
        } else {
            self.messages.push(m);
            true
        }
    }

    /// Stores each of `ms` unless its id is already there; returns how many
    /// were stored.
    pub fn insert_all(&mut self, ms: Vec<StoredMessage>) -> (r: usize)
        requires
            old(self).wf(),
        ensures
            final(self).wf(),
            final(self)@ == inserted_all(old(self)@, ms@),
            r == final(self)@.len() - old(self)@.len(),
    {
        let mut count: usize = 0;
        let mut i: usize = 0;
        while i < ms.len()
            invariant
                i <= ms.len(),
                self.wf(),
                self@ == inserted_all(old(self)@, ms@.subrange(0, i as int)),
                self@.len() == old(self)@.len() + count,
                count <= i,
            decreases ms.len() - i,
        {
            proof {
                assert(ms@.subrange(0, i + 1).drop_last() =~= ms@.subrange(0, i as int));
            }
            if self.insert_if_absent(ms[i].duplicate()) {
                count = count + 1;
            }
            i = i + 1;
        }
        proof {
            assert(ms@.subrange(0, i as int) =~= ms@);
        }
        count
    }

    /// Removes the rows that `sweep` selects; returns how many went.
    pub fn sweep(&mut self, sweep: Sweep) -> (r: usize)
        requires
            old(self).wf(),
        ensures
            final(self).wf(),
            final(self)@ == kept(old(self)@, sweep),
            r == old(self)@.len() - final(self)@.len(),
            forall|k: int| 0 <= k < final(self)@.len() ==> !removed_by(#[trigger] final(self)@[k], sweep),
    {
        let mut out: Vec<StoredMessage> = Vec::new();
        let mut i: usize = 0;
        while i < self.messages.len()
            invariant
                i <= self.messages.len(),
                self.messages@ == old(self)@,
                unique_ids(old(self)@),
                unique_ids(out@),
                out@ == kept(old(self)@.subrange(0, i as int), sweep),
                out@.len() <= i,
                forall|k: int| 0 <= k < out@.len() ==> !removed_by(#[trigger] out@[k], sweep),
                forall|k: int|
                    0 <= k < out@.len() ==> exists|j: int| 0 <= j < i && #[trigger] out@[k] == old(self)@[j],
            decreases self.messages.len() - i,
        {
            let m = &self.messages[i];
            let gone = match sweep {
                Sweep::Guild(g) => m.guild_id == g,
                Sweep::LowQuality => is_low_quality(m.text.as_str()),
            };
            proof {
                assert(old(self)@.subrange(0, i + 1).drop_last() =~= old(self)@.subrange(0, i as int));
            }
            if !gone {
                proof {
                    assert forall|k: int| 0 <= k < out@.len() implies (#[trigger] out@[k]).id != m.id by {
                        let j = choose|j: int| 0 <= j < i && #[trigger] out@[k] == old(self)@[j];
                        assert(old(self)@[j].id != old(self)@[i as int].id);
                    }
                }
                out.push(m.duplicate());
                proof {
                    assert forall|k: int| 0 <= k < out@.len() implies exists|j: int|
                        0 <= j < i + 1 && #[trigger] out@[k] == old(self)@[j] by {
                        if k < out@.len() - 1 {
                            let j = choose|j: int| 0 <= j < i && #[trigger] out@.drop_last()[k] == old(self)@[j];
                            assert(out@[k] == old(self)@[j]);
                        } else {
                            assert(out@[k] == old(self)@[i as int]);
                        }
                    }
                }
            }
            i = i + 1;
        }
        proof {
            assert(old(self)@.subrange(0, i as int) =~= old(self)@);
        }
        let removed = self.messages.len() - out.len();
        self.messages = out;
        removed
    }

    /// Removes every row of guild `g`; returns how many went.
    pub fn drop_guild(&mut self, g: u64) -> (r: usize)
        requires
            old(self).wf(),
        ensures
            final(self).wf(),
            final(self)@ == kept(old(self)@, Sweep::Guild(g)),
            r == old(self)@.len() - final(self)@.len(),
            forall|k: int| 0 <= k < final(self)@.len() ==> (#[trigger] final(self)@[k]).guild_id != g,
    {
        let r = self.sweep(Sweep::Guild(g));
        assert forall|k: int| 0 <= k < self@.len() implies (#[trigger] self@[k]).guild_id != g by {
            assert(!removed_by(self@[k], Sweep::Guild(g)));
        }
        r
    }

    /// The maintenance sweep: removes every row of low quality; returns how
    /// many went.
    pub fn strip_low_quality(&mut self) -> (r: usize)
        requires
            old(self).wf(),
        ensures
            final(self).wf(),
            final(self)@ == kept(old(self)@, Sweep::LowQuality),
            r == old(self)@.len() - final(self)@.len(),
    {
        self.sweep(Sweep::LowQuality)
    }

    /// The texts that a sample for guild `g` draws from, restricted to the
    /// given authors, in storage order.
    pub fn candidates(&self, g: u64, authors: &Option<Vec<u64>>) -> (r: Vec<String>)
        ensures
            r@ == candidates(
                self@,
                g,
                authors_view(authors),
            ),
    {
        let ghost au = authors_view(authors);
        let mut out: Vec<String> = Vec::new();
        let mut i: usize = 0;
        while i < self.messages.len()
            invariant
                i <= self.messages.len(),
                au == authors_view(authors),
                out@ == candidates(self@.subrange(0, i as int), g, au),
            decreases self.messages.len() - i,
        {
            let m = &self.messages[i];
            let by_author = match authors {
                Some(a) => contains_u64(a, m.user_id),
                None => true,
            };
            let wanted = m.guild_id == g && by_author;

            proof {
                assert(self@.subrange(0, i + 1).drop_last() =~= self@.subrange(0, i as int));
                assert(self@.subrange(0, i + 1).last() == self@[i as int]);
                assert(wanted == in_sample(self@[i as int], g, au));
            }
            if wanted {
                out.push(m.text.clone());
            }
            i = i + 1;
        }
        proof {
            assert(self@.subrange(0, i as int) =~= self@);
        }
        out
    }

    /// A random sample of at most `limit` texts of guild `g`, restricted to
    /// the given authors: each drawn from a distinct row, as many as `limit`
    /// when there are enough rows.
    pub fn sample(&self, g: u64, authors: &Option<Vec<u64>>, limit: usize) -> (r: Vec<String>)
        ensures
            ({
                let c = candidates(
                    self@,
                    g,
                    match authors {
                        Some(a) => Some(a@),
                        None => None,
                    },
                );
                &&& r@.len() == min_nat(limit as nat, c.len())
                &&& r@.to_multiset().subset_of(c.to_multiset())
            }),
    {
        let mut pool = self.candidates(g, authors);
        let ghost all = pool@;
        let mut out: Vec<String> = Vec::new();
        proof {
            broadcast use vstd::seq_lib::group_to_multiset_ensures, vstd::multiset::group_multiset_axioms;
            assert(out@.to_multiset() =~= Multiset::<String>::empty());
            assert(pool@.to_multiset().add(out@.to_multiset()) =~= all.to_multiset());
        }
        while out.len() < limit && pool.len() > 0
            invariant
                out@.len() <= limit,
                out@.len() + pool@.len() == all.len(),
                pool@.to_multiset().add(out@.to_multiset()) == all.to_multiset(),
            decreases pool.len(),
        {
            let k = random_below(pool.len());
            let ghost before = pool@;
            let ghost before_out = out@;
            let t = pool.swap_remove(k);
            out.push(t);
            proof {
                broadcast use vstd::seq_lib::group_to_multiset_ensures, vstd::multiset::group_multiset_axioms;
                let u = before.update(k as int, before.last());
                vstd::seq_lib::to_multiset_update(before, k as int, before.last());
                assert(u =~= pool@.push(before.last()));
                assert(u.to_multiset() =~= pool@.to_multiset().insert(before.last()));
                assert(before[k as int] == t);
                assert(before.contains(t));
                assert(before.to_multiset().count(t) > 0);
                assert forall|x: String| #[trigger] pool@.to_multiset().insert(t).count(x)
                    == before.to_multiset().count(x) by {
                    assert(u.to_multiset().count(x) == pool@.to_multiset().insert(before.last()).count(x));
                }
                assert(pool@.to_multiset().insert(t) =~= before.to_multiset());
                assert(out@ =~= before_out.push(t));
                assert(out@.to_multiset() =~= before_out.to_multiset().insert(t));
                assert(pool@.to_multiset().add(out@.to_multiset()) =~= before.to_multiset().add(before_out.to_multiset()));
            }
        }
        proof {
            broadcast use vstd::seq_lib::group_to_multiset_ensures, vstd::multiset::group_multiset_axioms;
            assert(out@.to_multiset().subset_of(all.to_multiset()));
        }
        out
    }
}

/// Whether `v` holds `x`.
pub fn contains_u64(v: &Vec<u64>, x: u64) -> (r: bool)
    ensures
        r == v@.contains(x),
{
    let mut i: usize = 0;
    while i < v.len()
        invariant
            i <= v.len(),
            forall|k: int| 0 <= k < i ==> v@[k] != x,
        decreases v.len() - i,
    {
        if v[i] == x {
            return true;
        }
        i = i + 1;
    }
    false
}

proof fn lemma_count_id(s: Seq<StoredMessage>, id: u64)
    requires
        unique_ids(s),
    ensures
        count_id(s, id) == if has_id(s, id) { 1nat } else { 0nat },
    decreases s.len(),
{
    if s.len() > 0 {
        let t = s.drop_last();
        assert(unique_ids(t)) by {
            assert forall|i: int, j: int| 0 <= i < j < t.len() implies (#[trigger] t[i]).id != (#[trigger] t[j]).id by {
                assert(t[i] == s[i] && t[j] == s[j]);
            }
        }
        lemma_count_id(t, id);
        if has_id(t, id) {
            let k = choose|k: int| 0 <= k < t.len() && (#[trigger] t[k]).id == id;
            assert(s[k] == t[k]);
            assert(s.last() == s[s.len() - 1]);
            assert(has_id(s, id));
        } else if s.last().id == id {
            assert(s[s.len() - 1].id == id);
        } else {
            assert forall|k: int| 0 <= k < s.len() implies (#[trigger] s[k]).id != id by {
                if k < s.len() - 1 {
                    assert(s[k] == t[k]);
                }
            }
        }
    }
}

/// Inserting a message whose id is already stored changes nothing: after
/// inserting the same message twice the corpus holds exactly one row with
/// its id.
pub proof fn lemma_insert_idempotent(s: Seq<StoredMessage>, m: StoredMessage)
    requires
        unique_ids(s),
    ensures
        inserted(inserted(s, m), m) == inserted(s, m),
        count_id(inserted(inserted(s, m), m), m.id) == 1,
{
    let once = inserted(s, m);
    if !has_id(s, m.id) {
        assert(once[s.len() as int] == m);
        assert forall|i: int, j: int| 0 <= i < j < once.len() implies (#[trigger] once[i]).id != (#[trigger] once[j]).id by {
            if j == s.len() {
                assert(once[i] == s[i]);
            } else {
                assert(once[i] == s[i] && once[j] == s[j]);
            }
        }
    }
    assert(has_id(once, m.id));
    lemma_count_id(once, m.id);
}

/// Once a guild's rows are dropped, a sample for that guild, with or without
/// an author restriction, draws from nothing.
pub proof fn lemma_dropped_guild_samples_empty(s: Seq<StoredMessage>, g: u64, authors: Option<Seq<u64>>)
    ensures
        candidates(kept(s, Sweep::Guild(g)), g, authors) == Seq::<String>::empty(),
    decreases s.len(),
{
    if s.len() > 0 {
        lemma_dropped_guild_samples_empty(s.drop_last(), g, authors);
        let k = kept(s.drop_last(), Sweep::Guild(g));
        if !removed_by(s.last(), Sweep::Guild(g)) {
            assert(k.push(s.last()).drop_last() == k);
        }
    }
}

} // verus!
