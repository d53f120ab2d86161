//! Bounded, content-addressed cache of finished translations.
//!
//! Each entry is keyed by the exact source text, target language and
//! analysis-mode flag; no normalization is applied.  The cache holds at most
//! `max_entries` entries: when an insert would exceed the bound, the oldest
//! `cleanup_batch` entries by timestamp are evicted in one batch.  The
//! in-memory map is the source of truth; persisting it is the caller's
//! concern, served by [`TranslationCache::entries`] and
//! [`TranslationCache::from_entries`].

use vstd::prelude::*;
use vstd::string::StringExecFns;

verus! {

/// One stored translation, owned by the cache.
#[derive(Debug)]
pub struct CacheEntry {
    /// The composite cache key the entry is stored under.
    pub key: String,
    /// The translated text.
    pub translation: String,
    /// Terminology notes, when keyword analysis produced any.
    pub terminology: Option<String>,
    /// Insertion time in epoch seconds; eviction removes oldest first.
    pub timestamp: i64,
}

/// The character sequence of an optional string.
pub open spec fn opt_view(o: Option<String>) -> Option<Seq<char>> {
    match o {
        Some(s) => Some(s@),
        None => None,
    }
}

/// The composite cache key for one (source text, target language, mode) query.
pub open spec fn key_of(text: Seq<char>, lang: Seq<char>, flag: bool) -> Seq<char> {
    lang + "::"@ + (if flag {
        "true"@
    } else {
        "false"@
    }) + "::"@ + text
}

/// Whether some entry of `s` is stored under key `k`.
pub open spec fn has_key(s: Seq<CacheEntry>, k: Seq<char>) -> bool {
    exists|i: int| 0 <= i < s.len() && s[i].key@ == k
}

/// Whether all entries of `s` are stored under pairwise distinct keys.
pub open spec fn keys_unique(s: Seq<CacheEntry>) -> bool {
    forall|i: int, j: int| 0 <= i < j < s.len() ==> s[i].key@ != s[j].key@
}

/// Whether entry `e` stores exactly the given key, texts and timestamp.
pub open spec fn entry_matches(
    e: CacheEntry,
    k: Seq<char>,
    translation: Seq<char>,
    terminology: Option<Seq<char>>,
    timestamp: i64,
) -> bool {
    e.key@ == k && e.translation@ == translation && opt_view(e.terminology) == terminology
        && e.timestamp == timestamp
}

/// Whether the value `e` occurs in `s`.
pub open spec fn in_seq(s: Seq<CacheEntry>, e: CacheEntry) -> bool {
    exists|i: int| 0 <= i < s.len() && s[i] == e
}

/// What an exact-match lookup of key `k` finds in `s`: the stored translation
/// and terminology, when an entry with that key is present.
pub open spec fn spec_get(s: Seq<CacheEntry>, k: Seq<char>) -> Option<
    (Seq<char>, Option<Seq<char>>),
> {
    if has_key(s, k) {
        let i = choose|i: int| 0 <= i < s.len() && s[i].key@ == k;
        Some((s[i].translation@, opt_view(s[i].terminology)))
    } else {
        None
    }
}

/// An insert under a key that was already present: the entry at that key is
/// overwritten wholesale, every other entry is untouched.
pub open spec fn set_replaces(
    olds: Seq<CacheEntry>,
    news: Seq<CacheEntry>,
    k: Seq<char>,
    translation: Seq<char>,
    terminology: Option<Seq<char>>,
    timestamp: i64,
) -> bool {
    &&& news.len() == olds.len()
    &&& forall|i: int|
        0 <= i < olds.len() && (#[trigger] olds[i]).key@ == k ==> entry_matches(
            news[i],
            k,
            translation,
            terminology,
            timestamp,
        )
    &&& forall|i: int| 0 <= i < olds.len() && (#[trigger] olds[i]).key@ != k ==> news[i] == olds[i]
}

/// An insert of a fresh key with room to spare: the new entry is appended and
/// every old entry is untouched.
pub open spec fn set_appends(
    olds: Seq<CacheEntry>,
    news: Seq<CacheEntry>,
    k: Seq<char>,
    translation: Seq<char>,
    terminology: Option<Seq<char>>,
    timestamp: i64,
) -> bool {
    &&& news.len() == olds.len() + 1
    &&& forall|i: int| 0 <= i < olds.len() ==> #[trigger] news[i] == olds[i]
    &&& entry_matches(news.last(), k, translation, terminology, timestamp)
}

/// An insert of a fresh key into a full cache: a batch of entries is evicted,
/// every surviving entry comes from the old contents or is the new entry, the
/// evicted ones are exactly the oldest by timestamp, and when the new entry is
/// at least as new as everything stored it survives as the last entry.
pub open spec fn set_evicts(
    olds: Seq<CacheEntry>,
    news: Seq<CacheEntry>,
    k: Seq<char>,
    translation: Seq<char>,
    terminology: Option<Seq<char>>,
    timestamp: i64,
    batch: usize,
) -> bool {
    &&& news.len() == olds.len() + 1 - batch
    &&& forall|i: int|
        0 <= i < news.len() ==> in_seq(olds, #[trigger] news[i]) || entry_matches(
            news[i],
            k,
            translation,
            terminology,
            timestamp,
        )
    &&& forall|j: int|
        0 <= j < olds.len() && !in_seq(news, #[trigger] olds[j]) ==> forall|i: int|
            0 <= i < news.len() ==> olds[j].timestamp <= news[i].timestamp
    &&& ((forall|j: int| 0 <= j < olds.len() ==> (#[trigger] olds[j]).timestamp <= timestamp)
        ==> news.len() > 0 && entry_matches(news.last(), k, translation, terminology, timestamp))
}

/// How one insert changes the cache contents, by case on whether the key was
/// present and whether the bound was reached.
pub open spec fn set_models(
    olds: Seq<CacheEntry>,
    news: Seq<CacheEntry>,
    k: Seq<char>,
    translation: Seq<char>,
    terminology: Option<Seq<char>>,
    timestamp: i64,
    max: usize,
    batch: usize,
) -> bool {
    &&& (has_key(olds, k) ==> set_replaces(olds, news, k, translation, terminology, timestamp))
    &&& (!has_key(olds, k) && olds.len() < max ==> set_appends(
        olds,
        news,
        k,
        translation,
        terminology,
        timestamp,
    ))
    &&& (!has_key(olds, k) && olds.len() >= max ==> set_evicts(
        olds,
        news,
        k,
        translation,
        terminology,
        timestamp,
        batch,
    ))
}

/// How restoring a persisted snapshot folds its entries, front to back, onto
/// an accumulator: an entry is kept when the accumulator has room and does
/// not hold its key yet — so the first entry under each key wins and entries
/// beyond the bound are dropped — and is skipped otherwise.
pub open spec fn restore_from(acc: Seq<CacheEntry>, input: Seq<CacheEntry>, max: int) -> Seq<
    CacheEntry,
>
    decreases input.len(),
{
    if input.len() == 0 {
        acc
    } else {
        let acc2 = if acc.len() < max && !has_key(acc, input[0].key@) {
            acc.push(input[0])
        } else {
            acc
        };
        restore_from(acc2, input.skip(1), max)
    }
}

/// Bounded cache of translations, keyed by (source text, language, mode).
pub struct TranslationCache {
    entries: Vec<CacheEntry>,
    max_entries: usize,
    cleanup_batch: usize,
}

impl View for TranslationCache {
    type V = Seq<CacheEntry>;

    closed spec fn view(&self) -> Seq<CacheEntry> {
        self.entries@
    }
}

impl TranslationCache {
    /// The largest number of entries the cache will hold.
    pub closed spec fn spec_max_entries(self) -> usize {
        self.max_entries
    }

    /// How many entries one eviction pass removes.
    pub closed spec fn spec_cleanup_batch(self) -> usize {
        self.cleanup_batch
    }

    /// Internal consistency: distinct keys, sane limits, size within bound.
    pub open spec fn wf(self) -> bool {
        &&& keys_unique(self@)
        &&& 1 <= self.spec_cleanup_batch() <= self.spec_max_entries()
        &&& self@.len() <= self.spec_max_entries()
    }

    /// Creates an empty cache with the default bound of 1000 entries and an
    /// eviction batch of 100.
    pub fn new() -> (r: TranslationCache)
        ensures
            r.wf(),
            r@.len() == 0,
            r.spec_max_entries() == 1000,
            r.spec_cleanup_batch() == 100,
    {
        TranslationCache { entries: Vec::new(), max_entries: 1000, cleanup_batch: 100 }
    }

    /// Creates an empty cache with the given bound and eviction batch size.
    pub fn with_limits(max_entries: usize, cleanup_batch: usize) -> (r: TranslationCache)
        requires
            1 <= cleanup_batch <= max_entries,
        ensures
            r.wf(),
            r@.len() == 0,
            r.spec_max_entries() == max_entries,
            r.spec_cleanup_batch() == cleanup_batch,
    {
        TranslationCache { entries: Vec::new(), max_entries, cleanup_batch }
    }

    /// Builds the composite cache key: the target language, the mode flag and
    /// the exact source text, joined by a fixed separator.
    pub fn generate_key(source_text: &str, target_language: &str, keyword_analysis: bool) -> (r:
        String)
        ensures
            r@ == key_of(source_text@, target_language@, keyword_analysis),
    {
        let mut k = String::new();
        k.append(target_language);
        k.append("::");
        if keyword_analysis {
            k.append("true");
        } else {
            k.append("false");
        }
        k.append("::");
        k.append(source_text);
        proof {
            assert(k@ =~= key_of(source_text@, target_language@, keyword_analysis));
        }
        k
    }

    /// Number of entries currently stored.
    pub fn len(&self) -> (r: usize)
        ensures
            r == self@.len(),
    {
        self.entries.len()
    }

    /// Exact-match lookup; returns the stored translation and terminology.
    pub fn get(&self, source_text: &str, target_language: &str, keyword_analysis: bool) -> (r:
        Option<(String, Option<String>)>)
        requires
            self.wf(),
        ensures
            ({
                let res = spec_get(self@, key_of(source_text@, target_language@, keyword_analysis));
                match r {
                    Some(v) => res == Some((v.0@, opt_view(v.1))),
                    None => res is None,
                }
            }),
    {
        let key = Self::generate_key(source_text, target_language, keyword_analysis);
        match find_index(&self.entries, &key) {
            Some(i) => {
                proof {
                    let c = choose|c: int| 0 <= c < self@.len() && self@[c].key@ == key@;
                    assert(c == i as int);
                }
                let e = &self.entries[i];
                let terminology = match &e.terminology {
                    Some(t) => Some(t.clone()),
                    None => None,
                };
                Some((e.translation.clone(), terminology))
            },
            None => None,
        }
    }

    /// Inserts or overwrites the translation stored for one query.  When the
    /// insert would push the cache over its bound, the oldest `cleanup_batch`
    /// entries by timestamp are evicted first.
    pub fn set(
        &mut self,
        source_text: &str,
        target_language: &str,
        keyword_analysis: bool,
        translation: String,
        terminology: Option<String>,
        timestamp: i64,
    )
        requires
            old(self).wf(),
        ensures
            final(self).wf(),
            final(self).spec_max_entries() == old(self).spec_max_entries(),
            final(self).spec_cleanup_batch() == old(self).spec_cleanup_batch(),
            final(self)@.len() <= old(self).spec_max_entries(),
            set_models(
                old(self)@,
                final(self)@,
                key_of(source_text@, target_language@, keyword_analysis),
                translation@,
                opt_view(terminology),
                timestamp,
                old(self).spec_max_entries(),
                old(self).spec_cleanup_batch(),
            ),
    {
        let ghost olds = self.entries@;
        let ghost k = key_of(source_text@, target_language@, keyword_analysis);
        let key = Self::generate_key(source_text, target_language, keyword_analysis);
        match find_index(&self.entries, &key) {
            Some(i) => {
                let entry = CacheEntry { key, translation, terminology, timestamp };
                self.entries[i] = entry;
                proof {
                    assert forall|j: int|
                        0 <= j < olds.len() && (#[trigger] olds[j]).key@ == k implies
                        entry_matches(
                        self.entries@[j],
                        k,
                        translation@,
                        opt_view(terminology),
                        timestamp,
                    ) by {
                        // Keys are unique, so the only match is the found index.
                        assert(j == i as int);
                    }
                }
            },
            None => {
                let entry = CacheEntry { key, translation, terminology, timestamp };
                self.entries.push(entry);
                let ghost pushed = self.entries@;
                proof {
                    assert forall|i: int, j: int|
                        0 <= i < j < pushed.len() implies pushed[i].key@ != pushed[j].key@ by {
                        if j == pushed.len() - 1 {
                            assert(pushed[i] == olds[i]);
                            assert(olds[i].key@ != k);
                        }
                    }
                }
                if self.entries.len() > self.max_entries {
                    proof {
                        assert(olds.len() == self.max_entries);
                    }
                    let _removed = evict_oldest(&mut self.entries, self.cleanup_batch);
                    proof {
                        let news = self.entries@;
                        assert forall|i: int|
                            0 <= i < news.len() implies in_seq(olds, #[trigger] news[i])
                            || entry_matches(
                            news[i],
                            k,
                            translation@,
                            opt_view(terminology),
                            timestamp,
                        ) by {
                            assert(in_seq(pushed, news[i]));
                            let w = choose|w: int| 0 <= w < pushed.len() && pushed[w] == news[i];
                            if w < olds.len() {
                                assert(olds[w] == news[i]);
                            } else {
                                assert(pushed[w] == pushed.last());
                            }
                        }
                        assert forall|j: int|
                            0 <= j < olds.len() && !in_seq(news, #[trigger] olds[j]) implies
                            forall|i: int|
                                0 <= i < news.len() ==> olds[j].timestamp <= news[i].timestamp by {
                            assert(pushed[j] == olds[j]);
                            assert(!in_seq(news, pushed[j]));
                        }
                        if forall|j: int|
                            0 <= j < olds.len() ==> (#[trigger] olds[j]).timestamp <= timestamp {
                            assert forall|j: int|
                                0 <= j < pushed.len() implies pushed[j].timestamp
                                <= pushed.last().timestamp by {
                                if j < olds.len() {
                                    assert(pushed[j] == olds[j]);
                                }
                            }
                            assert(news.last() == pushed.last());
                        }
                    }
                }
            },
        }
    }

    /// Inserts with the current wall-clock time as the entry's timestamp.
    pub fn set_now(
        &mut self,
        source_text: &str,
        target_language: &str,
        keyword_analysis: bool,
        translation: String,
        terminology: Option<String>,
    )
        requires
            old(self).wf(),
        ensures
            final(self).wf(),
            final(self).spec_max_entries() == old(self).spec_max_entries(),
            final(self).spec_cleanup_batch() == old(self).spec_cleanup_batch(),
            final(self)@.len() <= old(self).spec_max_entries(),
            exists|ts: i64|
                set_models(
                    old(self)@,
                    final(self)@,
                    key_of(source_text@, target_language@, keyword_analysis),
                    translation@,
                    opt_view(terminology),
                    ts,
                    old(self).spec_max_entries(),
                    old(self).spec_cleanup_batch(),
                ),
    {
        let ts = crate::clock::now_epoch_seconds();
        self.set(source_text, target_language, keyword_analysis, translation, terminology, ts);
        proof {
            assert(set_models(
                old(self)@,
                self@,
                key_of(source_text@, target_language@, keyword_analysis),
                translation@,
                opt_view(terminology),
                ts,
                old(self).spec_max_entries(),
                old(self).spec_cleanup_batch(),
            ));
        }
    }

    /// A copy of every stored entry, for the caller to persist.
    pub fn entries(&self) -> (r: Vec<CacheEntry>)
        ensures
            r@ == self@,
    {
        let mut r: Vec<CacheEntry> = Vec::new();
        let n = self.entries.len();
        let mut i: usize = 0;
        while i < n
            invariant
                i <= n,
                n == self.entries@.len(),
                r@.len() == i,
                forall|j: int| 0 <= j < i ==> r@[j] == self.entries@[j],
            decreases n - i,
        {
            let e = &self.entries[i];
            let terminology = match &e.terminology {
                Some(t) => Some(t.clone()),
                None => None,
            };
            r.push(
                CacheEntry {
                    key: e.key.clone(),
                    translation: e.translation.clone(),
                    terminology,
                    timestamp: e.timestamp,
                },
            );
            i = i + 1;
        }
        proof {
            assert(r@ =~= self@);
        }
        r
    }

    /// Rebuilds a cache from persisted entries, exactly as [`restore_from`]
    /// folds them: the first entry under each key wins, and entries beyond
    /// the bound are dropped.  A well-formed snapshot within the bound is
    /// restored exactly.
    pub fn from_entries(input: &Vec<CacheEntry>, max_entries: usize, cleanup_batch: usize) -> (r:
        TranslationCache)
        requires
            1 <= cleanup_batch <= max_entries,
        ensures
            r.wf(),
            r.spec_max_entries() == max_entries,
            r.spec_cleanup_batch() == cleanup_batch,
            r@ == restore_from(Seq::<CacheEntry>::empty(), input@, max_entries as int),
            forall|i: int| 0 <= i < r@.len() ==> in_seq(input@, #[trigger] r@[i]),
            keys_unique(input@) && input@.len() <= max_entries ==> r@ == input@,
    {
        let ghost exact = keys_unique(input@) && input@.len() <= max_entries;
        let ghost goal = restore_from(Seq::<CacheEntry>::empty(), input@, max_entries as int);
        let mut r = TranslationCache::with_limits(max_entries, cleanup_batch);
        let n = input.len();
        let mut i: usize = 0;
        proof {
            assert(r@ =~= input@.subrange(0, 0));
            assert(r@ =~= Seq::<CacheEntry>::empty());
            assert(input@.skip(0) =~= input@);
        }
        while i < n
            invariant
                i <= n,
                n == input@.len(),
                exact == (keys_unique(input@) && input@.len() <= max_entries),
                goal == restore_from(Seq::<CacheEntry>::empty(), input@, max_entries as int),
                restore_from(r@, input@.skip(i as int), max_entries as int) == goal,
                r.wf(),
                r.spec_max_entries() == max_entries,
                r.spec_cleanup_batch() == cleanup_batch,
                forall|j: int| 0 <= j < r@.len() ==> in_seq(input@, #[trigger] r@[j]),
                exact ==> r@ == input@.subrange(0, i as int),
            decreases n - i,
        {
            let ghost prev = r.entries@;
            proof {
                assert(input@.skip(i as int)[0] == input@[i as int]);
                assert(input@.skip(i as int).skip(1) =~= input@.skip(i as int + 1));
            }
            let e = &input[i];
            if r.entries.len() < max_entries {
                match find_index(&r.entries, &e.key) {
                    None => {
                        let terminology = match &e.terminology {
                            Some(t) => Some(t.clone()),
                            None => None,
                        };
                        r.entries.push(
                            CacheEntry {
                                key: e.key.clone(),
                                translation: e.translation.clone(),
                                terminology,
                                timestamp: e.timestamp,
                            },
                        );
                        proof {
                            assert(r.entries@.last() == input@[i as int]);
                            assert(r.entries@ =~= prev.push(input@[i as int]));
                            assert(!has_key(prev, input@[i as int].key@));
                            assert forall|a: int, b: int|
                                0 <= a < b < r.entries@.len() implies r.entries@[a].key@
                                != r.entries@[b].key@ by {
                                if b == r.entries@.len() - 1 {
                                    assert(r.entries@[a] == prev[a]);
                                }
                            }
                            assert forall|j: int| 0 <= j < r@.len() implies in_seq(
                                input@,
                                #[trigger] r@[j],
                            ) by {
                                if j < r@.len() - 1 {
                                    assert(r@[j] == prev[j]);
                                }
                            }
                            if exact {
                                assert(r.entries@ =~= input@.subrange(0, i + 1));
                            }
                        }
                    },
                    Some(j) => {
                        proof {
                            assert(prev[j as int].key@ == input@[i as int].key@);
                            assert(has_key(prev, input@[i as int].key@));
                            if exact {
                                // The found duplicate would be a duplicate in
                                // the input, which has unique keys.
                                let jj = j as int;
                                assert(r.entries@[jj] == input@.subrange(0, i as int)[jj]);
                                assert(input@[jj].key@ == input@[i as int].key@);
                                assert(false);
                            }
                        }
                    },
                }
            } else {
                proof {
                    assert(prev.len() >= max_entries);
                    if exact {
                        // Within the bound the cache never fills up early.
                        assert(r.entries@.len() == i);
                        assert(false);
                    }
                }
            }
            i = i + 1;
        }
        proof {
            assert(input@.skip(n as int) =~= Seq::<CacheEntry>::empty());
            if exact {
                assert(input@.subrange(0, n as int) =~= input@);
            }
        }
        r
    }

    /// Removes every entry; the bound and batch size are kept.
    pub fn clear(&mut self)
        requires
            old(self).wf(),
        ensures
            final(self).wf(),
            final(self)@.len() == 0,
            final(self).spec_max_entries() == old(self).spec_max_entries(),
            final(self).spec_cleanup_batch() == old(self).spec_cleanup_batch(),
    {
        self.entries.clear();
    }
}

/// The cache key is injective in the source text: two queries with the same
/// target language and mode flag share a key only when their source texts are
/// identical, so no normalization collapses distinct inputs.  (The key is a
/// spec function, so equal inputs give equal keys by definition.)
pub proof fn lemma_key_injective(a: Seq<char>, b: Seq<char>, lang: Seq<char>, flag: bool)
    requires
        key_of(a, lang, flag) == key_of(b, lang, flag),
    ensures
        a == b,
{
    let p = lang + "::"@ + (if flag {
        "true"@
    } else {
        "false"@
    }) + "::"@;
    assert(key_of(a, lang, flag) =~= p + a);
    assert(key_of(b, lang, flag) =~= p + b);
    assert(a.len() == b.len());
    assert forall|i: int| 0 <= i < a.len() implies a[i] == b[i] by {
        assert((p + a)[p.len() + i] == a[i]);
        assert((p + b)[p.len() + i] == b[i]);
    }
    assert(a =~= b);
}

/// Eviction bound: however many inserts arrive, one insert into a cache
/// within its bound leaves it within its bound — inserting a fresh key into
/// a full cache first evicts a whole batch — so the cache can never grow
/// past `max` keys.
pub proof fn lemma_eviction_bound(
    olds: Seq<CacheEntry>,
    news: Seq<CacheEntry>,
    k: Seq<char>,
    translation: Seq<char>,
    terminology: Option<Seq<char>>,
    timestamp: i64,
    max: usize,
    batch: usize,
)
    requires
        olds.len() <= max,
        1 <= batch <= max,
        set_models(olds, news, k, translation, terminology, timestamp, max, batch),
    ensures
        news.len() <= max,
{
}

/// Cache round trip: inserting a translation and then looking its key up
/// returns exactly the inserted translation and terminology, provided the
/// entry was inserted with a timestamp at least as new as everything already
/// stored (an insert older than the whole of a full cache may itself be
/// evicted).
pub proof fn lemma_cache_round_trip(
    olds: Seq<CacheEntry>,
    news: Seq<CacheEntry>,
    k: Seq<char>,
    translation: Seq<char>,
    terminology: Option<Seq<char>>,
    timestamp: i64,
    max: usize,
    batch: usize,
)
    requires
        keys_unique(olds),
        olds.len() <= max,
        1 <= batch <= max,
        forall|j: int| 0 <= j < olds.len() ==> (#[trigger] olds[j]).timestamp <= timestamp,
        set_models(olds, news, k, translation, terminology, timestamp, max, batch),
    ensures
        spec_get(news, k) == Some((translation, terminology)),
{
    if has_key(olds, k) {
        let w = choose|w: int| 0 <= w < olds.len() && olds[w].key@ == k;
        assert(entry_matches(news[w], k, translation, terminology, timestamp));
        assert(news[w].key@ == k);
        assert(has_key(news, k));
        assert forall|i: int| 0 <= i < news.len() && (#[trigger] news[i]).key@ == k implies
            entry_matches(news[i], k, translation, terminology, timestamp) by {
            if olds[i].key@ != k {
                assert(news[i] == olds[i]);
            }
        }
    } else if olds.len() < max {
        assert(entry_matches(news.last(), k, translation, terminology, timestamp));
        assert(news[news.len() - 1].key@ == k);
        assert(has_key(news, k));
        assert forall|i: int| 0 <= i < news.len() && (#[trigger] news[i]).key@ == k implies
            entry_matches(news[i], k, translation, terminology, timestamp) by {
            if i < olds.len() {
                assert(news[i] == olds[i]);
                assert(false);
            }
        }
    } else {
        assert(entry_matches(news.last(), k, translation, terminology, timestamp));
        assert(news[news.len() - 1].key@ == k);
        assert(has_key(news, k));
        assert forall|i: int| 0 <= i < news.len() && (#[trigger] news[i]).key@ == k implies
            entry_matches(news[i], k, translation, terminology, timestamp) by {
            if in_seq(olds, news[i]) {
                let w = choose|w: int| 0 <= w < olds.len() && olds[w] == news[i];
                assert(olds[w].key@ == k);
                assert(false);
            }
        }
    }
    let c = choose|i: int| 0 <= i < news.len() && news[i].key@ == k;
    assert(entry_matches(news[c], k, translation, terminology, timestamp));
}

/// Membership in a sequence is preserved by removing one position, and a
/// value lost by the removal can only be the value at that position.
proof fn lemma_remove_membership(s: Seq<CacheEntry>, m: int)
    requires
        0 <= m < s.len(),
    ensures
        forall|e: CacheEntry| #[trigger] in_seq(s.remove(m), e) ==> in_seq(s, e),
        forall|e: CacheEntry| in_seq(s, e) && !(#[trigger] in_seq(s.remove(m), e)) ==> e == s[m],
{
    s.remove_ensures(m);
    assert forall|e: CacheEntry| #[trigger] in_seq(s.remove(m), e) implies in_seq(s, e) by {
        let i = choose|i: int| 0 <= i < s.remove(m).len() && s.remove(m)[i] == e;
        if i < m {
            assert(s[i] == e);
        } else {
            assert(s[i + 1] == e);
        }
    }
    assert forall|e: CacheEntry| in_seq(s, e) && !in_seq(s.remove(m), e) implies e == s[m] by {
        let i = choose|i: int| 0 <= i < s.len() && s[i] == e;
        if i < m {
            assert(s.remove(m)[i] == e);
        } else if i > m {
            assert(s.remove(m)[i - 1] == e);
        }
    }
}

/// Index of the first entry with the smallest timestamp.
fn find_oldest_index(entries: &Vec<CacheEntry>) -> (r: usize)
    requires
        entries@.len() > 0,
    ensures
        r < entries@.len(),
        forall|j: int|
            0 <= j < entries@.len() ==> entries@[r as int].timestamp <= entries@[j].timestamp,
        forall|j: int| 0 <= j < r ==> entries@[r as int].timestamp < entries@[j].timestamp,
{
    let n = entries.len();
    let mut best: usize = 0;
    let mut i: usize = 1;
    while i < n
        invariant
            n == entries@.len(),
            0 < n,
            best < i,
            1 <= i <= n,
            forall|j: int|
                0 <= j < i ==> entries@[best as int].timestamp <= entries@[j].timestamp,
            forall|j: int| 0 <= j < best ==> entries@[best as int].timestamp < entries@[j].timestamp,
        decreases n - i,
    {
        if entries[i].timestamp < entries[best].timestamp {
            best = i;
        }
        i = i + 1;
    }
    best
}

/// Removes the `count` oldest entries by timestamp, first occurrence of a tied
/// timestamp first.  When the last entry is at least as new as every other, it
/// survives.
fn evict_oldest(entries: &mut Vec<CacheEntry>, count: usize) -> (removed: Vec<CacheEntry>)
    requires
        count < old(entries)@.len(),
        keys_unique(old(entries)@),
    ensures
        ({
            let olds = old(entries)@;
            let news = final(entries)@;
            &&& news.len() == olds.len() - count
            &&& removed@.len() == count
            &&& keys_unique(news)
            &&& forall|i: int| 0 <= i < news.len() ==> in_seq(olds, #[trigger] news[i])
            &&& forall|i: int| 0 <= i < removed@.len() ==> in_seq(olds, #[trigger] removed@[i])
            &&& forall|j: int|
                0 <= j < olds.len() && !in_seq(news, #[trigger] olds[j]) ==> forall|i: int|
                    0 <= i < news.len() ==> olds[j].timestamp <= news[i].timestamp
            &&& forall|j: int|
                0 <= j < olds.len() ==> in_seq(news, #[trigger] olds[j]) || in_seq(
                    removed@,
                    olds[j],
                )
            &&& ((forall|j: int| 0 <= j < olds.len() ==> olds[j].timestamp <= olds.last().timestamp)
                ==> news.len() > 0 && news.last() == olds.last())
        }),
{
    let ghost orig = old(entries)@;
    let ghost newest_last = forall|j: int|
        0 <= j < orig.len() ==> orig[j].timestamp <= orig.last().timestamp;
    let mut removed: Vec<CacheEntry> = Vec::new();
    let mut t: usize = 0;
    while t < count
        invariant
            orig == old(entries)@,
            newest_last == (forall|j: int|
                0 <= j < orig.len() ==> orig[j].timestamp <= orig.last().timestamp),
            t <= count,
            count < orig.len(),
            entries@.len() == orig.len() - t,
            removed@.len() == t,
            keys_unique(entries@),
            forall|i: int| 0 <= i < entries@.len() ==> in_seq(orig, #[trigger] entries@[i]),
            forall|i: int| 0 <= i < removed@.len() ==> in_seq(orig, #[trigger] removed@[i]),
            forall|j: int|
                0 <= j < orig.len() && !in_seq(entries@, #[trigger] orig[j]) ==> forall|i: int|
                    0 <= i < entries@.len() ==> orig[j].timestamp <= entries@[i].timestamp,
            forall|j: int|
                0 <= j < orig.len() ==> in_seq(entries@, #[trigger] orig[j]) || in_seq(
                    removed@,
                    orig[j],
                ),
            newest_last ==> entries@.len() > 0 && entries@.last() == orig.last(),
        decreases count - t,
    {
        let ghost cur = entries@;
        let idx = find_oldest_index(entries);
        proof {
            if newest_last {
                // The first-minimum index is never the (newest) last entry:
                // everything before it would have to be strictly newer, yet
                // nothing is newer than the last entry.
                assert(cur.len() == orig.len() - t && t < count && count < orig.len());
                assert(cur.len() >= 2);
                if idx == cur.len() - 1 {
                    assert(cur[idx as int] == orig.last());
                    assert(cur[0].timestamp > cur[idx as int].timestamp);
                    assert(in_seq(orig, cur[0]));
                    let w = choose|w: int| 0 <= w < orig.len() && orig[w] == cur[0];
                    assert(orig[w].timestamp <= orig.last().timestamp);
                    assert(cur[0].timestamp <= orig.last().timestamp);
                    assert(false);
                }
            }
        }
        let e = entries.remove(idx);
        proof {
            lemma_remove_membership(cur, idx as int);
            cur.remove_ensures(idx as int);
            assert forall|i: int, j: int|
                0 <= i < j < entries@.len() implies entries@[i].key@ != entries@[j].key@ by {
                if j < idx {
                    assert(entries@[i] == cur[i] && entries@[j] == cur[j]);
                } else if i < idx {
                    assert(entries@[i] == cur[i] && entries@[j] == cur[j + 1]);
                } else {
                    assert(entries@[i] == cur[i + 1] && entries@[j] == cur[j + 1]);
                }
            }
            assert forall|j: int|
                0 <= j < orig.len() && !in_seq(entries@, #[trigger] orig[j]) implies forall|i: int|
                0 <= i < entries@.len() ==> orig[j].timestamp <= entries@[i].timestamp by {
                if in_seq(cur, orig[j]) {
                    // The value lost in this step is the minimum of `cur`.
                    assert(orig[j] == cur[idx as int]);
                    assert forall|i: int|
                        0 <= i < entries@.len() implies orig[j].timestamp
                        <= entries@[i].timestamp by {
                        if i < idx {
                            assert(entries@[i] == cur[i]);
                        } else {
                            assert(entries@[i] == cur[i + 1]);
                        }
                    }
                } else {
                    assert forall|i: int|
                        0 <= i < entries@.len() implies orig[j].timestamp
                        <= entries@[i].timestamp by {
                        assert(in_seq(cur, entries@[i]));
                        let w = choose|w: int| 0 <= w < cur.len() && cur[w] == entries@[i];
                        assert(orig[j].timestamp <= cur[w].timestamp);
                    }
                }
            }
            if newest_last {
                assert(idx < cur.len() - 1);
                assert(entries@.last() == cur[cur.len() - 1]);
            }
        }
        let ghost prev_removed = removed@;
        removed.push(e);
        proof {
            assert forall|j: int| 0 <= j < orig.len() implies in_seq(entries@, #[trigger] orig[j])
                || in_seq(removed@, orig[j]) by {
                if in_seq(prev_removed, orig[j]) {
                    let w = choose|w: int| 0 <= w < prev_removed.len() && prev_removed[w] == orig[j];
                    assert(removed@[w] == orig[j]);
                } else {
                    assert(in_seq(cur, orig[j]));
                    if !in_seq(entries@, orig[j]) {
                        assert(orig[j] == cur[idx as int]);
                        assert(removed@[removed@.len() - 1] == orig[j]);
                    }
                }
            }
            assert forall|i: int| 0 <= i < removed@.len() implies in_seq(
                orig,
                #[trigger] removed@[i],
            ) by {
                if i < removed@.len() - 1 {
                    assert(removed@[i] == prev_removed[i]);
                } else {
                    assert(removed@[i] == cur[idx as int]);
                    assert(in_seq(orig, cur[idx as int]));
                }
            }
        }
        t = t + 1;
    }
    removed
}

/// Index of the first entry stored under `key`, if any.
fn find_index(entries: &Vec<CacheEntry>, key: &String) -> (r: Option<usize>)
    ensures
        match r {
            Some(i) => 0 <= i < entries@.len() && entries@[i as int].key@ == key@,
            None => !has_key(entries@, key@),
        },
{
    let n = entries.len();
    let mut i: usize = 0;
    while i < n
        invariant
            0 <= i <= n,
            n == entries@.len(),
            forall|j: int| 0 <= j < i ==> entries@[j].key@ != key@,
        decreases n - i,
    {
        if entries[i].key == *key {
            return Some(i);
        }
        i = i + 1;
    }
    None
}

} // verus!
