//! The per-guild corpus service: the enable/disable state with its
//! write-through cache, live capture, back-fill, sampling and generation.

use crate::backfill::{
    accept_page, accepted_rows, FetchedMessage, FillPlan, QuotaConfig, DEFAULT_FILL_QUOTA, DEFAULT_SAMPLE_QUOTA,
    PAGE_SIZE, SPECIAL_FILL_QUOTA, SPECIAL_SAMPLE_QUOTA,
};
use crate::chain::{has_text, joined, valid_walk, words, Generation, MarkovChain};
use crate::corpus::{
    candidates, count_id, has_id, inserted, inserted_all, kept, lemma_dropped_guild_samples_empty,
    lemma_insert_idempotent, unique_ids, Corpus, StoredMessage, Sweep,
};
use crate::state_cache::MarkovStateCache;
use crate::text::{chars_of, corpus_worthy, message_filter};
use std::collections::HashMap;
use vstd::prelude::*;

verus! {

/// Shortest text, in characters, that live capture considers.
pub const MIN_CAPTURE_CHARS: usize = 40;

/// How many preceding tokens decide the next one in generation.
pub const CHAIN_ORDER: usize = 1;

/// Most words in a generated text.
pub const MAX_GENERATED_WORDS: usize = 50;

/// Fewest words in a text generated for chosen authors.
pub const MIN_AUTHOR_WORDS: usize = 10;

/// Fewest words in a text generated for a whole guild.
pub const MIN_GUILD_WORDS: usize = 4;

/// Generation attempts before giving up.
pub const ATTEMPT_BUDGET: usize = 20;

/// Why a request was turned away.
#[derive(Clone, Copy, Debug, PartialEq, Eq, Structural)]
pub enum Rejection {
    /// The guild does not have corpus generation enabled.
    Disabled,
}

impl Rejection {
    /// The text shown to the user.
    pub fn message(&self) -> (r: String)
        ensures
            r@ == "You don't have markov chains enabled, use the 'markov_enable' command to enable them."@,
    {
        match self {
            Rejection::Disabled => "You don't have markov chains enabled, use the 'markov_enable' command to enable them.".to_string(),
        }
    }
}

/// The flag that the durable record of `g` gives, an absent record counting
/// as disabled.
pub open spec fn durable_flag(m: Map<u64, bool>, g: u64) -> bool {
    m.contains_key(g) && m[g]
}

/// The durable records after reading guild `g`: an absent record is created,
/// disabled.
pub open spec fn ensured(m: Map<u64, bool>, g: u64) -> Map<u64, bool> {
    if m.contains_key(g) {
        m
    } else {
        m.insert(g, false)
    }
}

/// The tokenized texts of a sample, in order.
pub open spec fn source_of(sample: Seq<String>) -> Seq<Seq<Seq<char>>> {
    sample.map_values(|t: String| words(t@))
}

/// What a generation under the budget gives on a chain of order
/// `CHAIN_ORDER` built over `src`: `attempts` attempts, and if a text came
/// back, a walk of that chain of between `min_words` and the word ceiling.
pub open spec fn generation_over(src: Seq<Seq<Seq<char>>>, g: Generation, min_words: nat) -> bool {
    &&& g.attempts <= ATTEMPT_BUDGET
    &&& g.text is None ==> g.attempts == ATTEMPT_BUDGET
    &&& g.text matches Some(s) ==> exists|ws: Seq<Seq<char>>|
        valid_walk(src, CHAIN_ORDER as nat, ws, MAX_GENERATED_WORDS as nat) && ws.len() >= min_words && s@ == joined(ws)
    &&& g.text is None ==> !has_text(src) || exists|ws: Seq<Seq<char>>|
        valid_walk(src, CHAIN_ORDER as nat, ws, MAX_GENERATED_WORDS as nat) && ws.len() < min_words
}

/// What generation may give from `texts` with a sample of `quota` texts: a
/// sample of `min(quota, |texts|)` of the texts, each drawn from a distinct
/// row, and a generation over the chain built on it.
pub open spec fn generated_from(texts: Seq<String>, quota: nat, g: Generation, min_words: nat) -> bool {
    exists|sample: Seq<String>|
        {
            &&& sample.len() == crate::corpus::min_nat(quota, texts.len())
            &&& sample.to_multiset().subset_of(texts.to_multiset())
            &&& #[trigger] generation_over(source_of(sample), g, min_words)
        }
}

/// The sample size for generation in guild `g`.
pub open spec fn sample_quota_of(special: Seq<u64>, g: u64) -> nat {
    if special.contains(g) {
        SPECIAL_SAMPLE_QUOTA as nat
    } else {
        DEFAULT_SAMPLE_QUOTA as nat
    }
}

/// The corpus service over an in-process store: durable guild flags, the
/// stored messages, and a bounded cache of the flags.
pub struct MarkovService {
    cache: MarkovStateCache,
    guilds: HashMap<u64, bool>,
    corpus: Corpus,
    quotas: QuotaConfig,
}

impl MarkovService {
    /// The durable guild flags.
    pub closed spec fn guilds(&self) -> Map<u64, bool> {
        self.guilds@
    }

    /// The stored messages.
    pub closed spec fn corpus(&self) -> Seq<StoredMessage> {
        self.corpus@
    }

    /// The cached flags.
    pub closed spec fn cached(&self) -> Map<u64, bool> {
        self.cache@
    }

    /// The number of guilds whose flags the cache may hold.
    pub closed spec fn cache_capacity(&self) -> nat {
        self.cache.capacity()
    }

    /// The designated high-volume guilds.
    pub closed spec fn special_guilds(&self) -> Seq<u64> {
        self.quotas.special_guilds@
    }

    /// The cache agrees with the durable flags wherever it holds an entry.
    pub closed spec fn wf(&self) -> bool {
        &&& self.cache.wf()
        &&& self.corpus.wf()
        &&& forall|g: u64| #[trigger] self.cache@.contains_key(g) ==> self.guilds@.contains_key(g) && self.cache@[g] == self.guilds@[g]
    }

    /// A service with no guilds and no messages, caching the flags of at most
    /// `cache_capacity` guilds.
    pub fn new(cache_capacity: usize, special_guilds: Vec<u64>) -> (r: Self)
        ensures
            r.wf(),
            r.guilds().dom() == Set::<u64>::empty(),
            r.cached().dom() == Set::<u64>::empty(),
            r.cache_capacity() == cache_capacity as nat,
            r.corpus() == Seq::<StoredMessage>::empty(),
            r.special_guilds() == special_guilds@,
    {
        broadcast use vstd::std_specs::hash::group_hash_axioms;
        MarkovService {
            cache: MarkovStateCache::new(cache_capacity),
            guilds: HashMap::new(),
            corpus: Corpus::new(),
            quotas: QuotaConfig { special_guilds },
        }
    }

    /// Whether guild `g` has corpus generation enabled. On a cache hit the
    /// durable records are not read; on a miss an absent record is created,
    /// disabled, and the flag is cached.
    pub fn check_markov_state(&mut self, g: u64) -> (r: bool)
        requires
            old(self).wf(),
        ensures
            final(self).wf(),
            r == durable_flag(old(self).guilds(), g),
            final(self).guilds() == ensured(old(self).guilds(), g),
            final(self).corpus() == old(self).corpus(),
            final(self).special_guilds() == old(self).special_guilds(),
            old(self).cached().contains_key(g) ==> {
                &&& r == old(self).cached()[g]
                &&& final(self).guilds() == old(self).guilds()
                &&& final(self).cached() == old(self).cached()
            },
            final(self).cache_capacity() == old(self).cache_capacity(),
            !old(self).cached().contains_key(g) && old(self).cache_capacity() > 0 ==> final(self).cached().contains_key(g)
                && final(self).cached()[g] == r,
            forall|h: u64|
                h != g && #[trigger] final(self).cached().contains_key(h) ==> old(self).cached().contains_key(h)
                    && final(self).cached()[h] == old(self).cached()[h],
    {
        broadcast use vstd::std_specs::hash::group_hash_axioms;
        if let Some(on) = self.cache.lookup(g) {
            return on;
        }
        let on = match self.guilds.get(&g) {
            Some(v) => *v,
            None => {
                self.guilds.insert(g, false);
                false
            },
        };
        let ghost before = self.cache@;
        self.cache.record(g, on);
        proof {
            assert forall|h: u64| #[trigger] self.cache@.contains_key(h) implies self.guilds@.contains_key(h)
                && self.cache@[h] == self.guilds@[h] by {
                if h != g {
                    assert(before.contains_key(h));
                }
            }
        }
        on
    }

    /// The check run before commands that need an enabled guild.
    pub fn markov_state_check(&mut self, g: u64) -> (r: Result<(), Rejection>)
        requires
            old(self).wf(),
        ensures
            final(self).wf(),
            r is Ok <==> durable_flag(old(self).guilds(), g),
            final(self).guilds() == ensured(old(self).guilds(), g),
            final(self).corpus() == old(self).corpus(),
            final(self).special_guilds() == old(self).special_guilds(),
    {
        if self.check_markov_state(g) {
            Ok(())
        } else {
            Err(Rejection::Disabled)
        }
    }

    /// Writes the flag of guild `g` to its durable record, then to its cache
    /// entry if one exists; no entry is created.
    pub fn set_markov(&mut self, g: u64, on: bool)
        requires
            old(self).wf(),
        ensures
            final(self).wf(),
            final(self).guilds() == old(self).guilds().insert(g, on),
            final(self).cached() == crate::state_cache::written_through(old(self).cached(), g, on),
            final(self).corpus() == old(self).corpus(),
            final(self).special_guilds() == old(self).special_guilds(),
    {
        broadcast use vstd::std_specs::hash::group_hash_axioms;
        self.guilds.insert(g, on);
        self.cache.write_through(g, on);
    }

    /// Enables guild `g`. `None` when it already was; otherwise the plan of
    /// the back-fill that follows, sized by the guild's quota tier. The
    /// stored messages are not touched.
    pub fn enable(&mut self, g: u64) -> (r: Option<FillPlan>)
        requires
            old(self).wf(),
        ensures
            final(self).wf(),
            final(self).corpus() == old(self).corpus(),
            final(self).special_guilds() == old(self).special_guilds(),
            final(self).guilds() == old(self).guilds().insert(g, true),
            r is None <==> durable_flag(old(self).guilds(), g),
            r matches Some(p) ==> {
                &&& p.page_size == PAGE_SIZE
                &&& p.accepted == 0
                &&& !p.failed
                &&& p.pages_left == (if old(self).special_guilds().contains(g) {
                    SPECIAL_FILL_QUOTA
                } else {
                    DEFAULT_FILL_QUOTA
                }) / PAGE_SIZE
            },
    {
        if self.check_markov_state(g) {
            assert(self.guilds@ =~= old(self).guilds@.insert(g, true));
            return None;
        }
        self.set_markov(g, true);
        assert(self.guilds@ =~= old(self).guilds@.insert(g, true));
        let quota = self.quotas.fill_quota(g);
        Some(FillPlan::new(quota, PAGE_SIZE))
    }

    /// Disables guild `g` and drops all of its stored messages. `None` when it
    /// already was disabled; otherwise how many messages were dropped.
    pub fn disable(&mut self, g: u64) -> (r: Option<usize>)
        requires
            old(self).wf(),
        ensures
            final(self).wf(),
            final(self).guilds() == ensured(old(self).guilds(), g).insert(g, false),
            final(self).special_guilds() == old(self).special_guilds(),
            r is None <==> !durable_flag(old(self).guilds(), g),
            r is None ==> final(self).corpus() == old(self).corpus(),
            r matches Some(n) ==> final(self).corpus() == kept(old(self).corpus(), Sweep::Guild(g)) && n
                == old(self).corpus().len() - final(self).corpus().len(),
            r is Some ==> forall|authors: Option<Seq<u64>>| #[trigger] candidates(final(self).corpus(), g, authors)
                == Seq::<String>::empty(),
    {
        proof {
            assert forall|authors: Option<Seq<u64>>| #[trigger] candidates(kept(self.corpus@, Sweep::Guild(g)), g, authors)
                == Seq::<String>::empty() by {
                lemma_dropped_guild_samples_empty(self.corpus@, g, authors);
            }
        }
        if !self.check_markov_state(g) {
            assert(self.guilds@ =~= ensured(old(self).guilds@, g).insert(g, false));
            return None;
        }
        self.set_markov(g, false);
        Some(self.corpus.drop_guild(g))
    }

    /// Starts an explicit back-fill of guild `g`, which must be enabled.
    pub fn start_fill(&mut self, g: u64) -> (r: Result<FillPlan, Rejection>)
        requires
            old(self).wf(),
        ensures
            final(self).wf(),
            final(self).corpus() == old(self).corpus(),
            final(self).guilds() == ensured(old(self).guilds(), g),
            final(self).special_guilds() == old(self).special_guilds(),
            r is Err <==> !durable_flag(old(self).guilds(), g),
            r matches Ok(p) ==> {
                &&& p.page_size == PAGE_SIZE
                &&& p.accepted == 0
                &&& !p.failed
                &&& p.pages_left == (if old(self).special_guilds().contains(g) {
                    SPECIAL_FILL_QUOTA
                } else {
                    DEFAULT_FILL_QUOTA
                }) / PAGE_SIZE
            },
    {
        if !self.check_markov_state(g) {
            return Err(Rejection::Disabled);
        }
        let quota = self.quotas.fill_quota(g);
        Ok(FillPlan::new(quota, PAGE_SIZE))
    }

    /// Takes one fetched page of a back-fill of guild `g`: the messages that
    /// pass the filter are stored unless their id already is, and counted in
    /// the plan. Returns how many passed.
    pub fn fill_page(&mut self, plan: &mut FillPlan, g: u64, page: &Vec<FetchedMessage>) -> (r: usize)
        requires
            old(self).wf(),
            old(plan).pages_left > 0,
        ensures
            final(self).wf(),
            final(self).guilds() == old(self).guilds(),
            final(self).special_guilds() == old(self).special_guilds(),
            final(self).corpus() == inserted_all(old(self).corpus(), accepted_rows(page@, g)),
            r == accepted_rows(page@, g).len(),
            final(plan).page_size == old(plan).page_size,
            final(plan).pages_left == old(plan).pages_left - 1,
            final(plan).failed == old(plan).failed,
            final(plan).accepted == if old(plan).accepted + r <= usize::MAX {
                old(plan).accepted + r
            } else {
                usize::MAX as int
            },
    {
        let rows = accept_page(page, g);
        let n = rows.len();
        self.corpus.insert_all(rows);
        plan.page_done(n);
        n
    }

    /// Live capture of a message observed in guild `g`: it is stored, unless
    /// its id already is, when its text has at least `MIN_CAPTURE_CHARS`
    /// characters, the guild is enabled, and the filter accepts it. Short
    /// texts are dropped before the guild's flag is looked at. Returns
    /// whether the message was stored.
    pub fn capture(&mut self, g: u64, m: &FetchedMessage) -> (r: bool)
        requires
            old(self).wf(),
        ensures
            final(self).wf(),
            final(self).special_guilds() == old(self).special_guilds(),
            unique_ids(final(self).corpus()),
            ({
                let wanted = m.content@.len() >= MIN_CAPTURE_CHARS && durable_flag(old(self).guilds(), g)
                    && !m.author_is_bot && corpus_worthy(m.content@);
                &&& r == (wanted && !has_id(old(self).corpus(), m.id))
                &&& final(self).corpus() == if wanted {
                    inserted(old(self).corpus(), crate::backfill::stored_row(*m, g))
                } else {
                    old(self).corpus()
                }
            }),
    {
        if chars_of(m.content.as_str()).len() < MIN_CAPTURE_CHARS {
            return false;
        }
        if !self.check_markov_state(g) {
            return false;
        }
        if !message_filter(m.author_is_bot, m.content.as_str()) {
            return false;
        }
        let row = StoredMessage {
            id: m.id,
            guild_id: g,
            user_id: m.author_id,
            text: m.content.clone(),
            created_at: m.created_at,
        };
        self.corpus.insert_if_absent(row)
    }

    /// Draws a sample of guild `g`, builds a chain over it and generates
    /// under the attempt budget.
    fn generate(&mut self, g: u64, authors: &Option<Vec<u64>>, min_words: usize) -> (r: Generation)
        requires
            old(self).wf(),
        ensures
            *final(self) == *old(self),
            generated_from(
                candidates(old(self).corpus(), g, crate::corpus::authors_view(authors)),
                sample_quota_of(old(self).special_guilds(), g),
                r,
                min_words as nat,
            ),
    {
        let quota = self.quotas.sample_quota(g);
        let sample = self.corpus.sample(g, authors, quota);
        let ghost c = candidates(self.corpus@, g, crate::corpus::authors_view(authors));
        let chain = MarkovChain::from_texts(&sample, CHAIN_ORDER);
        let r = chain.generate_with_budget(MAX_GENERATED_WORDS, min_words, ATTEMPT_BUDGET);
        proof {
            assert(chain@ =~= source_of(sample@));
            assert(generation_over(source_of(sample@), r, min_words as nat));
        }
        r
    }

    /// Generation for the whole guild `g`: turned away, before the stored
    /// messages are looked at, when the guild is not enabled.
    pub fn generate_for_guild(&mut self, g: u64) -> (r: Result<Generation, Rejection>)
        requires
            old(self).wf(),
        ensures
            final(self).wf(),
            final(self).corpus() == old(self).corpus(),
            final(self).guilds() == ensured(old(self).guilds(), g),
            r is Err <==> !durable_flag(old(self).guilds(), g),
            r matches Ok(gen) ==> generated_from(
                candidates(old(self).corpus(), g, None),
                sample_quota_of(old(self).special_guilds(), g),
                gen,
                MIN_GUILD_WORDS as nat,
            ),
    {
        if !self.check_markov_state(g) {
            return Err(Rejection::Disabled);
        }
        Ok(self.generate(g, &None, MIN_GUILD_WORDS))
    }

    /// Generation for the messages of `authors` in guild `g`: turned away
    /// when the guild is not enabled.
    pub fn generate_for_authors(&mut self, g: u64, authors: Vec<u64>) -> (r: Result<Generation, Rejection>)
        requires
            old(self).wf(),
        ensures
            final(self).wf(),
            final(self).corpus() == old(self).corpus(),
            final(self).guilds() == ensured(old(self).guilds(), g),
            r is Err <==> !durable_flag(old(self).guilds(), g),
            r matches Ok(gen) ==> generated_from(
                candidates(old(self).corpus(), g, Some(authors@)),
                sample_quota_of(old(self).special_guilds(), g),
                gen,
                MIN_AUTHOR_WORDS as nat,
            ),
    {
        if !self.check_markov_state(g) {
            return Err(Rejection::Disabled);
        }
        Ok(self.generate(g, &Some(authors), MIN_AUTHOR_WORDS))
    }

    /// The maintenance sweep over every guild's messages; returns how many
    /// were removed.
    pub fn strip_low_quality(&mut self) -> (r: usize)
        requires
            old(self).wf(),
        ensures
            final(self).wf(),
            final(self).guilds() == old(self).guilds(),
            final(self).corpus() == kept(old(self).corpus(), Sweep::LowQuality),
            r == old(self).corpus().len() - final(self).corpus().len(),
    {
        self.corpus.strip_low_quality()
    }

    /// The stored texts of guild `g`, in storage order.
    pub fn guild_texts(&self, g: u64) -> (r: Vec<String>)
        ensures
            r@ == candidates(self.corpus(), g, None),
    {
        self.corpus.candidates(g, &None)
    }

    /// How many messages are stored over all guilds.
    pub fn stored_count(&self) -> (r: usize)
        ensures
            r == self.corpus().len(),
    {
        self.corpus.len()
    }
}

/// Capturing the same message of guild `g` twice stores it once: the second
/// capture changes nothing, and exactly one row carries its id.
pub proof fn lemma_capture_twice(s: Seq<StoredMessage>, m: FetchedMessage, g: u64)
    requires
        unique_ids(s),
    ensures
        inserted(inserted(s, crate::backfill::stored_row(m, g)), crate::backfill::stored_row(m, g)) == inserted(
            s,
            crate::backfill::stored_row(m, g),
        ),
        count_id(inserted(inserted(s, crate::backfill::stored_row(m, g)), crate::backfill::stored_row(m, g)), m.id)
            == 1,
{
    lemma_insert_idempotent(s, crate::backfill::stored_row(m, g));
}

} // verus!
