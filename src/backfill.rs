//! Quotas and the paced page-by-page plan of a back-fill of history.

use crate::corpus::StoredMessage;
use crate::text::corpus_worthy;
use crate::text::message_filter;
use std::collections::HashMap;
use vstd::prelude::*;

verus! {

/// Messages asked for in each page of history.
pub const PAGE_SIZE: usize = 1000;

/// Seconds to pause before each page fetch, to stay clear of the platform's
/// global rate limit.
pub const PAGE_PAUSE_SECS: u64 = 2;

/// Back-fill target of a designated high-volume guild.
pub const SPECIAL_FILL_QUOTA: usize = 500_000;

/// Back-fill target of any other guild.
pub const DEFAULT_FILL_QUOTA: usize = 40_000;

/// Sample size for generation in a designated high-volume guild.
pub const SPECIAL_SAMPLE_QUOTA: usize = 100_000;

/// Sample size for generation in any other guild.
pub const DEFAULT_SAMPLE_QUOTA: usize = 20_000;

/// The quota tiers: which guilds are designated high-volume.
pub struct QuotaConfig {
    pub special_guilds: Vec<u64>,
}

impl QuotaConfig {
    /// How many messages a back-fill of guild `g` aims at.
    pub fn fill_quota(&self, g: u64) -> (r: usize)
        ensures
            r == if self.special_guilds@.contains(g) {
                SPECIAL_FILL_QUOTA
            } else {
                DEFAULT_FILL_QUOTA
            },
    {
        if crate::corpus::contains_u64(&self.special_guilds, g) {
            SPECIAL_FILL_QUOTA
        } else {
            DEFAULT_FILL_QUOTA
        }
    }

    /// How many stored texts generation in guild `g` samples.
    pub fn sample_quota(&self, g: u64) -> (r: usize)
        ensures
            r == if self.special_guilds@.contains(g) {
                SPECIAL_SAMPLE_QUOTA
            } else {
                DEFAULT_SAMPLE_QUOTA
            },
    {
        if crate::corpus::contains_u64(&self.special_guilds, g) {
            SPECIAL_SAMPLE_QUOTA
        } else {
            DEFAULT_SAMPLE_QUOTA
        }
    }
}

/// A message as the chat platform delivers it.
#[derive(Clone, Debug)]
pub struct FetchedMessage {
    pub id: u64,
    pub author_id: u64,
    pub author_is_bot: bool,
    pub content: String,
    /// Seconds since the Unix epoch.
    pub created_at: i64,
}

/// The row stored for message `m` of guild `g`.
pub open spec fn stored_row(m: FetchedMessage, g: u64) -> StoredMessage {
    StoredMessage { id: m.id, guild_id: g, user_id: m.author_id, text: m.content, created_at: m.created_at }
}

/// The rows stored for the messages of `page` that pass the filter, in order.
pub open spec fn accepted_rows(page: Seq<FetchedMessage>, g: u64) -> Seq<StoredMessage>
    decreases page.len(),
{
    if page.len() == 0 {
        Seq::empty()
    } else if !page.last().author_is_bot && corpus_worthy(page.last().content@) {
        accepted_rows(page.drop_last(), g).push(stored_row(page.last(), g))
    } else {
        accepted_rows(page.drop_last(), g)
    }
}

/// The rows stored for the messages of `page` that pass the filter.
pub fn accept_page(page: &Vec<FetchedMessage>, g: u64) -> (r: Vec<StoredMessage>)
    ensures
        r@ == accepted_rows(page@, g),
{
    let mut out: Vec<StoredMessage> = Vec::new();
    let mut i: usize = 0;
    while i < page.len()
        invariant
            i <= page.len(),
            out@ == accepted_rows(page@.subrange(0, i as int), g),
        decreases page.len() - i,
    {
        let m = &page[i];
        proof {
            assert(page@.subrange(0, i + 1).drop_last() =~= page@.subrange(0, i as int));
        }
        if message_filter(m.author_is_bot, m.content.as_str()) {
            out.push(
                StoredMessage {
                    id: m.id,
                    guild_id: g,
                    user_id: m.author_id,
                    text: m.content.clone(),
                    created_at: m.created_at,
                },
            );
        }
        i = i + 1;
    }
    proof {
        assert(page@.subrange(0, i as int) =~= page@);
    }
    out
}

/// What a back-fill does next.
#[derive(Clone, Copy, Debug, PartialEq, Eq, Structural)]
pub enum FillAction {
    /// Pause `pause_secs` seconds, then fetch the next `size` messages of
    /// history, oldest unseen first, and hand them to the plan.
    FetchPage { pause_secs: u64, size: usize },
    /// The back-fill is over; `accepted` messages passed the filter.
    Done { accepted: usize },
    /// A page could not be fetched or stored: the whole back-fill fails,
    /// after `accepted` messages of earlier pages passed the filter (and
    /// stay stored).
    Failed { accepted: usize },
}

/// A back-fill in progress: pages still to fetch, how many fetched
/// messages passed the filter so far, and whether a page failed.
pub struct FillPlan {
    pub page_size: usize,
    pub pages_left: usize,
    pub accepted: usize,
    pub failed: bool,
}

impl FillPlan {
    /// A plan for `target` messages in pages of `page_size`: one paced fetch
    /// for each whole page that fits in the target.
    pub fn new(target: usize, page_size: usize) -> (r: Self)
        requires
            page_size > 0,
        ensures
            r.page_size == page_size,
            r.pages_left == target / page_size,
            r.accepted == 0,
            !r.failed,
    {
        FillPlan { page_size, pages_left: target / page_size, accepted: 0, failed: false }
    }

    pub fn next_action(&self) -> (r: FillAction)
        ensures
            r == if self.failed {
                FillAction::Failed { accepted: self.accepted }
            } else if self.pages_left > 0 {
                FillAction::FetchPage { pause_secs: PAGE_PAUSE_SECS, size: self.page_size }
            } else {
                FillAction::Done { accepted: self.accepted }
            },
    {
        if self.failed {
            FillAction::Failed { accepted: self.accepted }
        } else if self.pages_left > 0 {
            FillAction::FetchPage { pause_secs: PAGE_PAUSE_SECS, size: self.page_size }
        } else {
            FillAction::Done { accepted: self.accepted }
        }
    }

    /// Counts a fetched page in which `accepted` messages passed the filter.
    pub fn page_done(&mut self, accepted: usize)
        requires
            old(self).pages_left > 0,
        ensures
            final(self).page_size == old(self).page_size,
            final(self).pages_left == old(self).pages_left - 1,
            final(self).failed == old(self).failed,
            final(self).accepted == if old(self).accepted + accepted <= usize::MAX {
                old(self).accepted + accepted
            } else {
                usize::MAX as int
            },
    {
        self.pages_left = self.pages_left - 1;
        self.accepted = self.accepted.saturating_add(accepted);
    }

    /// Ends the back-fill early: the history has no further page.
    pub fn history_exhausted(&mut self)
        ensures
            final(self).page_size == old(self).page_size,
            final(self).pages_left == 0,
            final(self).accepted == old(self).accepted,
            final(self).failed == old(self).failed,
    {
        self.pages_left = 0;
    }

    /// A page fetch or its insert failed: no further page is fetched, and the
    /// back-fill ends as failed.
    pub fn page_failed(&mut self)
        ensures
            final(self).page_size == old(self).page_size,
            final(self).pages_left == 0,
            final(self).accepted == old(self).accepted,
            final(self).failed,
    {
        self.pages_left = 0;
        self.failed = true;
    }
}

/// Seconds a caller waits between two explicit back-fills.
pub const FILL_BUCKET_SECS: u64 = 3600;

/// Seconds still to wait before a caller last admitted at `last` may go
/// again at time `now`; 0 when it may go now.
pub open spec fn bucket_wait(last: Option<u64>, now: u64, window: u64) -> u64 {
    match last {
        None => 0,
        Some(t) => {
            let elapsed: int = if now >= t {
                now - t
            } else {
                0
            };
            if elapsed < window {
                (window - elapsed) as u64
            } else {
                0
            }
        },
    }
}

/// A time-window rate bucket: each caller is admitted at most once per
/// window.
pub struct RateBucket {
    window_secs: u64,
    last: HashMap<u64, u64>,
}

impl RateBucket {
    /// When each caller was last admitted.
    pub closed spec fn view(&self) -> Map<u64, u64> {
        self.last@
    }

    pub closed spec fn window(&self) -> u64 {
        self.window_secs
    }

    pub fn new(window_secs: u64) -> (r: Self)
        ensures
            r@.dom() == Set::<u64>::empty(),
            r.window() == window_secs,
    {
        broadcast use vstd::std_specs::hash::group_hash_axioms;
        RateBucket { window_secs, last: HashMap::new() }
    }

    /// Admits `caller` at time `now` (seconds) when its window has passed,
    /// and records the time; otherwise returns the seconds left to wait and
    /// changes nothing.
    pub fn try_acquire(&mut self, caller: u64, now: u64) -> (r: Result<(), u64>)
        ensures
            final(self).window() == old(self).window(),
            ({
                let wait = bucket_wait(
                    if old(self)@.contains_key(caller) {
                        Some(old(self)@[caller])
                    } else {
                        None
                    },
                    now,
                    old(self).window(),
                );
                &&& wait == 0 ==> r == Ok::<(), u64>(()) && final(self)@ == old(self)@.insert(caller, now)
                &&& wait > 0 ==> r == Err::<(), u64>(wait) && final(self)@ == old(self)@
            }),
    {
        broadcast use vstd::std_specs::hash::group_hash_axioms;
        let wait: u64 = match self.last.get(&caller) {
            None => 0,
            Some(t) => {
                let elapsed: u64 = if now >= *t {
                    now - *t
                } else {
                    0
                };
                if elapsed < self.window_secs {
                    self.window_secs - elapsed
                } else {
                    0
                }
            },
        };
        if wait > 0 {
            return Err(wait);
        }
        self.last.insert(caller, now);
        Ok(())
    }
}

} // verus!
