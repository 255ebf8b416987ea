use markov_corpus::backfill::{
    FetchedMessage, FillAction, FillPlan, QuotaConfig, RateBucket, FILL_BUCKET_SECS, PAGE_PAUSE_SECS, PAGE_SIZE,
};
use markov_corpus::chain::{tokenize, MarkovChain};
use markov_corpus::corpus::{Corpus, StoredMessage};
use markov_corpus::service::{MarkovService, Rejection, ATTEMPT_BUDGET};
use markov_corpus::state_cache::MarkovStateCache;
use markov_corpus::text::{is_corpus_worthy, is_low_quality, is_whitespace, message_filter};

fn row(id: u64, guild: u64, user: u64, text: &str) -> StoredMessage {
    StoredMessage { id, guild_id: guild, user_id: user, text: text.to_string(), created_at: 1_500_000_000 }
}

fn fetched(id: u64, author: u64, bot: bool, text: &str) -> FetchedMessage {
    FetchedMessage { id, author_id: author, author_is_bot: bot, content: text.to_string(), created_at: 1_500_000_000 }
}

fn words_of(s: &str) -> Vec<String> {
    s.split_whitespace().map(|w| w.to_string()).collect()
}

#[test]
fn corpus_worthy_rules() {
    assert!(!is_corpus_worthy(""));
    assert!(!is_corpus_worthy("two words here now"));
    assert!(is_corpus_worthy("the quick brown fox jumps"));
    assert!(!is_corpus_worthy("!! ?? ## $$ %% a"));
    // exactly half alphanumeric passes
    assert!(is_corpus_worthy("ab c d e f!!"));
    // just under half fails
    assert!(!is_corpus_worthy("a b c d e!!"));
    // tabs and newlines count as whitespace
    assert!(is_corpus_worthy("one\ttwo\nthree four five"));
}

#[test]
fn bot_authors_are_rejected() {
    assert!(!message_filter(true, "the quick brown fox jumps"));
    assert!(message_filter(false, "the quick brown fox jumps"));
    assert!(!message_filter(false, "short"));
}

#[test]
fn sweep_rule() {
    assert!(is_low_quality(""));
    assert!(is_low_quality("one two three"));
    assert!(!is_low_quality("the quick brown fox jumps over"));
    assert!(is_low_quality("a b c d !!!!!!!!!!!!"));
}

#[test]
fn insert_if_absent_is_idempotent() {
    let mut c = Corpus::new();
    assert!(c.insert_if_absent(row(1, 10, 5, "the quick brown fox jumps")));
    assert!(!c.insert_if_absent(row(1, 10, 5, "the quick brown fox jumps")));
    assert_eq!(c.len(), 1);
    assert!(c.contains_id(1));
    assert!(!c.contains_id(2));
    let n = c.insert_all(vec![row(1, 10, 5, "x"), row(2, 10, 5, "y"), row(2, 10, 5, "y")]);
    assert_eq!(n, 1);
    assert_eq!(c.len(), 2);
}

#[test]
fn strip_removes_empty_and_short_rows() {
    let mut c = Corpus::new();
    c.insert_if_absent(row(1, 10, 5, ""));
    c.insert_if_absent(row(2, 10, 5, "one two three"));
    c.insert_if_absent(row(3, 10, 5, "the cat sat on the mat"));
    assert_eq!(c.strip_low_quality(), 2);
    assert_eq!(c.len(), 1);
    assert!(c.contains_id(3));
    assert_eq!(c.candidates(10, &None), vec!["the cat sat on the mat".to_string()]);
}

#[test]
fn candidates_and_sample_respect_guild_and_authors() {
    let mut c = Corpus::new();
    c.insert_if_absent(row(1, 10, 5, "a"));
    c.insert_if_absent(row(2, 10, 6, "b"));
    c.insert_if_absent(row(3, 11, 5, "c"));
    c.insert_if_absent(row(4, 10, 5, "d"));
    assert_eq!(c.candidates(10, &Some(vec![5])), vec!["a".to_string(), "d".to_string()]);
    assert_eq!(c.candidates(10, &None).len(), 3);
    let s = c.sample(10, &None, 2);
    assert_eq!(s.len(), 2);
    assert_ne!(s[0], s[1]);
    for t in &s {
        assert!(["a", "b", "d"].contains(&t.as_str()));
    }
    let all = c.sample(10, &Some(vec![6]), 100);
    assert_eq!(all, vec!["b".to_string()]);
    assert_eq!(c.drop_guild(10), 3);
    assert!(c.candidates(10, &None).is_empty());
    assert_eq!(c.len(), 1);
}

#[test]
fn cache_write_through_and_eviction() {
    let mut cache = MarkovStateCache::new(2);
    assert_eq!(cache.lookup(1), None);
    cache.record(1, false);
    assert_eq!(cache.lookup(1), Some(false));
    cache.write_through(1, true);
    assert_eq!(cache.lookup(1), Some(true));
    // an absent guild is not cached by a write
    cache.write_through(2, true);
    assert_eq!(cache.lookup(2), None);
    cache.record(2, true);
    cache.lookup(1);
    cache.record(3, false);
    // guild 2 was the least recently used
    assert_eq!(cache.lookup(2), None);
    assert_eq!(cache.lookup(1), Some(true));
    assert_eq!(cache.lookup(3), Some(false));
}

#[test]
fn tokenize_splits_on_whitespace() {
    let t = tokenize("  the\tquick  fox ");
    let s: Vec<String> = t.iter().map(|w| w.iter().collect()).collect();
    assert_eq!(s, vec!["the", "quick", "fox"]);
    assert!(tokenize("   ").is_empty());
}

#[test]
fn generation_stays_within_the_source() {
    let texts = vec![
        "the quick brown fox jumps".to_string(),
        "the lazy dog sleeps all day".to_string(),
        "a quick fox runs fast".to_string(),
    ];
    let vocab: Vec<String> = texts.iter().flat_map(|t| words_of(t)).collect();
    let chain = MarkovChain::from_texts(&texts, 1);
    for _ in 0..50 {
        let s = chain.generate_string(10, 2).expect("a walk of two or more words exists");
        let ws = words_of(&s);
        assert!(ws.len() >= 2 && ws.len() <= 10);
        for w in &ws {
            assert!(vocab.contains(w));
        }
        let last = ws.last().unwrap();
        assert!(ws.len() == 10 || ["jumps", "day", "fast"].contains(&last.as_str()));
        assert!(["the", "a"].contains(&ws[0].as_str()));
    }
}

#[test]
fn generation_respects_the_ceiling() {
    let texts = vec!["one two three four five six seven eight".to_string()];
    let chain = MarkovChain::from_texts(&texts, 1);
    assert_eq!(chain.generate_string(3, 1), Some("one two three".to_string()));
    assert_eq!(chain.generate_string(50, 1), Some("one two three four five six seven eight".to_string()));
}

#[test]
fn attempt_budget_is_spent_exactly() {
    let texts = vec!["hello there".to_string()];
    let chain = MarkovChain::from_texts(&texts, 1);
    let g = chain.generate_with_budget(50, 10, 20);
    assert!(g.text.is_none());
    assert_eq!(g.attempts, 20);
    let ok = chain.generate_with_budget(50, 2, 20);
    assert_eq!(ok.text, Some("hello there".to_string()));
    assert_eq!(ok.attempts, 1);
    let empty = MarkovChain::new(1).generate_with_budget(50, 1, 7);
    assert!(empty.text.is_none());
    assert_eq!(empty.attempts, 7);
}

#[test]
fn fill_plan_issues_one_fetch_per_page() {
    let mut plan = FillPlan::new(2000, 1000);
    let mut fetches = 0;
    while let FillAction::FetchPage { pause_secs, size } = plan.next_action() {
        assert_eq!(pause_secs, 2);
        assert_eq!(size, 1000);
        fetches += 1;
        plan.page_done(3);
    }
    assert_eq!(fetches, 2);
    assert_eq!(plan.next_action(), FillAction::Done { accepted: 6 });
    assert_eq!(FillPlan::new(999, 1000).next_action(), FillAction::Done { accepted: 0 });
    assert_eq!(PAGE_SIZE, 1000);
    assert_eq!(PAGE_PAUSE_SECS, 2);
}

#[test]
fn quota_tiers() {
    let q = QuotaConfig { special_guilds: vec![42] };
    assert_eq!(q.fill_quota(42), 500_000);
    assert_eq!(q.fill_quota(7), 40_000);
    assert_eq!(q.sample_quota(42), 100_000);
    assert_eq!(q.sample_quota(7), 20_000);
}

#[test]
fn disabled_guild_is_rejected() {
    let mut svc = MarkovService::new(1000, vec![]);
    assert_eq!(svc.generate_for_guild(7).err(), Some(Rejection::Disabled));
    assert_eq!(svc.generate_for_authors(7, vec![1]).err(), Some(Rejection::Disabled));
    assert!(svc.markov_state_check(7).is_err());
    assert!(svc.start_fill(7).is_err());
    assert_eq!(
        Rejection::Disabled.message(),
        "You don't have markov chains enabled, use the 'markov_enable' command to enable them."
    );
    assert!(!svc.check_markov_state(7));
}

#[test]
fn enable_fill_generate_disable() {
    let mut svc = MarkovService::new(1000, vec![9]);
    let plan = svc.enable(7).expect("was disabled");
    assert_eq!(plan.pages_left, 40);
    assert!(svc.enable(7).is_none());
    assert!(svc.check_markov_state(7));
    assert_eq!(svc.enable(9).unwrap().pages_left, 500);

    let mut plan = svc.start_fill(7).unwrap();
    let page = vec![
        fetched(1, 100, false, "the quick brown fox jumps"),
        fetched(2, 101, false, "the lazy dog sleeps all day"),
        fetched(3, 100, false, "a quick fox runs fast"),
        fetched(4, 102, true, "a bot wrote these words here"),
        fetched(5, 101, false, "short"),
    ];
    assert_eq!(svc.fill_page(&mut plan, 7, &page), 3);
    assert_eq!(plan.accepted, 3);
    assert_eq!(plan.pages_left, 39);
    // a second pass stores nothing new but still counts what passed
    assert_eq!(svc.fill_page(&mut plan, 7, &page), 3);
    assert_eq!(svc.stored_count(), 3);

    let g = svc.generate_for_guild(7).unwrap();
    assert!(g.attempts >= 1 && g.attempts <= ATTEMPT_BUDGET);
    let text = g.text.expect("every walk has four or more words");
    assert!(words_of(&text).len() >= 4);

    let a = svc.generate_for_authors(7, vec![100]).unwrap();
    assert!(a.text.is_none());
    assert_eq!(a.attempts, ATTEMPT_BUDGET);

    assert_eq!(svc.disable(7), Some(3));
    assert_eq!(svc.disable(7), None);
    assert!(svc.guild_texts(7).is_empty());
    assert!(svc.enable(7).is_some());
    assert!(svc.guild_texts(7).is_empty());
}

#[test]
fn live_capture_rules() {
    let mut svc = MarkovService::new(1000, vec![]);
    let long = "the quick brown fox jumps over the lazy dog again";
    assert!(!svc.capture(7, &fetched(1, 100, false, long)));
    svc.enable(7);
    assert!(svc.capture(7, &fetched(1, 100, false, long)));
    assert!(!svc.capture(7, &fetched(1, 100, false, long)));
    assert!(!svc.capture(7, &fetched(2, 100, false, "the quick brown fox jumps")));
    assert!(!svc.capture(7, &fetched(3, 100, true, long)));
    assert!(!svc.capture(7, &fetched(4, 100, false, "!!!!!!!!!!!!!!!!!!!!!!!!!!!!!!!!!!!! a b c d")));
    assert_eq!(svc.stored_count(), 1);
    assert_eq!(svc.strip_low_quality(), 0);
}

#[test]
fn cache_coherent_after_state_change() {
    let mut svc = MarkovService::new(1000, vec![]);
    assert!(!svc.check_markov_state(3));
    svc.set_markov(3, true);
    assert!(svc.check_markov_state(3));
    svc.set_markov(3, false);
    assert!(!svc.check_markov_state(3));
}

#[test]
fn second_order_chain_follows_word_pairs() {
    let texts = vec!["a b c".to_string(), "x b d".to_string()];
    let order1 = MarkovChain::from_texts(&texts, 1);
    let order2 = MarkovChain::from_texts(&texts, 2);
    let mut crossed = false;
    for _ in 0..200 {
        let s = order2.generate_string(10, 1).unwrap();
        assert!(s == "a b c" || s == "x b d");
        let t = order1.generate_string(10, 1).unwrap();
        assert!(["a b c", "a b d", "x b c", "x b d"].contains(&t.as_str()));
        if t == "a b d" || t == "x b c" {
            crossed = true;
        }
    }
    assert!(crossed);
}

#[test]
fn fill_bucket_admits_once_per_window() {
    let mut b = RateBucket::new(FILL_BUCKET_SECS);
    assert_eq!(b.try_acquire(1, 10_000), Ok(()));
    assert_eq!(b.try_acquire(1, 10_600), Err(3000));
    assert_eq!(b.try_acquire(2, 10_600), Ok(()));
    assert_eq!(b.try_acquire(1, 13_600), Ok(()));
    assert_eq!(b.try_acquire(1, 13_599), Err(3600));
}

#[test]
fn failed_page_ends_the_fill() {
    let mut svc = MarkovService::new(1000, vec![]);
    let mut plan = svc.enable(7).unwrap();
    assert!(!plan.failed);
    let page = vec![fetched(1, 100, false, "the quick brown fox jumps")];
    assert_eq!(svc.fill_page(&mut plan, 7, &page), 1);
    plan.page_failed();
    assert_eq!(plan.next_action(), FillAction::Failed { accepted: 1 });
    assert_eq!(plan.pages_left, 0);
    // rows of earlier pages stay
    assert_eq!(svc.guild_texts(7), vec!["the quick brown fox jumps".to_string()]);
}

#[test]
fn miss_populates_cache_and_write_through_keeps_it() {
    let mut svc = MarkovService::new(2, vec![]);
    assert!(!svc.check_markov_state(5));
    svc.set_markov(5, true);
    assert!(svc.check_markov_state(5));
    assert_eq!(svc.enable(5).map(|p| p.pages_left), None);
    assert_eq!(svc.disable(5), Some(0));
    assert!(!svc.check_markov_state(5));
}

#[test]
fn whitespace_class_matches_std() {
    for u in 0u32..=0x10FFFF {
        if let Some(c) = char::from_u32(u) {
            assert_eq!(is_whitespace(c), c.is_whitespace(), "U+{:04X}", u);
        }
    }
}

#[test]
fn scenario_texts_always_generate() {
    let texts = vec![
        "the quick brown fox jumps".to_string(),
        "the lazy dog sleeps all day".to_string(),
        "a quick fox runs fast".to_string(),
    ];
    let chain = MarkovChain::from_texts(&texts, 1);
    for _ in 0..100 {
        let g = chain.generate_with_budget(50, 4, 20);
        assert_eq!(g.attempts, 1);
        assert!(words_of(&g.text.unwrap()).len() >= 4);
    }
}
