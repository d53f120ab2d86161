//! Bounded, content-addressed cache of generated audio files.
//!
//! Each entry maps a hash of the exact source text to the path of a generated
//! audio file.  The cache holds at most `max_entries` entries; when an insert
//! would exceed the bound, the oldest `cleanup_batch` entries by timestamp are
//! evicted in one batch.  Deleting files and persisting the index are the
//! caller's concern: mutating methods return the paths whose files are no
//! longer referenced, and [`AudioCache::entries`] /
//! [`AudioCache::from_entries`] serve persistence.  An entry is only valid
//! while its file exists on disk, so lookups take the caller's answer to that
//! question and treat a missing file as a miss.

use vstd::prelude::*;
use vstd::string::StringExecFns;
use vstd::string::StrSliceExecFns;

verus! {

/// Offset basis of the 64-bit FNV-1a hash.
pub const FNV_OFFSET: u64 = 0xcbf29ce484222325;

/// Prime of the 64-bit FNV-1a hash.
pub const FNV_PRIME: u64 = 0x100000001b3;

/// One FNV-1a step: fold one byte into the running hash.
pub open spec fn fnv64_step(h: u64, b: u8) -> u64 {
    vstd::wrapping::u64_specs::wrapping_mul(h ^ (b as u64), FNV_PRIME)
}

/// FNV-1a folded over `bytes`, starting from hash state `h`.
pub open spec fn fnv64_from(h: u64, bytes: Seq<u8>) -> u64
    decreases bytes.len(),
{
    if bytes.len() == 0 {
        h
    } else {
        fnv64_from(fnv64_step(h, bytes[0]), bytes.skip(1))
    }
}

/// The 64-bit FNV-1a hash of `bytes`.
pub open spec fn fnv64(bytes: Seq<u8>) -> u64 {
    fnv64_from(FNV_OFFSET, bytes)
}

/// The ASCII byte of one lower-case hexadecimal digit.
pub open spec fn hex_digit_byte(d: int) -> u8 {
    if d < 10 {
        (48 + d) as u8
    } else {
        (87 + d) as u8
    }
}

/// The ASCII bytes of `n` in lower-case hexadecimal, most significant digit
/// first, without leading zeros.
pub open spec fn hex_bytes(n: int) -> Seq<u8>
    decreases n,
{
    if n < 16 {
        seq![hex_digit_byte(n)]
    } else {
        hex_bytes(n / 16).push(hex_digit_byte(n % 16))
    }
}

/// The audio cache key of a source text: the FNV-1a hash of its UTF-8 bytes,
/// written in lower-case hexadecimal.
pub open spec fn audio_key_of(text: Seq<char>) -> Seq<char> {
    hex_bytes(fnv64(vstd::utf8::encode_utf8(text)) as int).map(|i: int, b: u8| b as char)
}

/// Every digit byte is ASCII.
proof fn lemma_hex_bytes_ascii(n: int)
    requires
        n >= 0,
    ensures
        forall|i: int| 0 <= i < hex_bytes(n).len() ==> hex_bytes(n)[i] < 128,
    decreases n,
{
    if n >= 16 {
        lemma_hex_bytes_ascii(n / 16);
        assert forall|i: int| 0 <= i < hex_bytes(n).len() implies hex_bytes(n)[i] < 128 by {
            if i < hex_bytes(n / 16).len() {
                assert(hex_bytes(n)[i] == hex_bytes(n / 16)[i]);
            }
        }
    }
}

/// Relies on `String::from_utf8`: ASCII bytes decode to the identical
/// sequence of characters, one character per byte.
#[verifier::external_body]
fn string_from_ascii(bytes: Vec<u8>) -> (r: String)
    requires
        forall|i: int| 0 <= i < bytes@.len() ==> bytes@[i] < 128,
    ensures
        r@.len() == bytes@.len(),
        forall|i: int| 0 <= i < bytes@.len() ==> r@[i] == bytes@[i] as char,
{
    String::from_utf8(bytes).unwrap_or_default()
}

/// One lower-case hexadecimal digit as an ASCII byte.
fn hex_digit(d: u64) -> (r: u8)
    requires
        d < 16,
    ensures
        r == hex_digit_byte(d as int),
{
    if d < 10 {
        48 + (d as u8)
    } else {
        87 + (d as u8)
    }
}

/// Appends the hexadecimal digits of `n`, most significant first.
fn push_hex(n: u64, out: &mut Vec<u8>)
    ensures
        final(out)@ == old(out)@ + hex_bytes(n as int),
    decreases n,
{
    if n < 16 {
        out.push(hex_digit(n));
        proof {
            assert(final(out)@ =~= old(out)@ + hex_bytes(n as int));
        }
    } else {
        push_hex(n / 16, out);
        out.push(hex_digit(n % 16));
        proof {
            assert(final(out)@ =~= old(out)@ + hex_bytes(n as int));
        }
    }
}

/// One stored audio file, owned by the cache.
#[derive(Debug)]
pub struct AudioEntry {
    /// Hexadecimal hash of the source text the audio was generated from.
    pub text_hash: String,
    /// Path of the generated audio file.
    pub audio_path: String,
    /// Insertion time in epoch seconds; eviction removes oldest first.
    pub timestamp: i64,
}

/// Whether some entry of `s` is stored under hash key `k`.
pub open spec fn a_has_key(s: Seq<AudioEntry>, k: Seq<char>) -> bool {
    exists|i: int| 0 <= i < s.len() && s[i].text_hash@ == k
}

/// Whether all entries of `s` are stored under pairwise distinct keys.
pub open spec fn a_keys_unique(s: Seq<AudioEntry>) -> bool {
    forall|i: int, j: int| 0 <= i < j < s.len() ==> s[i].text_hash@ != s[j].text_hash@
}

/// Whether the value `e` occurs in `s`.
pub open spec fn a_in_seq(s: Seq<AudioEntry>, e: AudioEntry) -> bool {
    exists|i: int| 0 <= i < s.len() && s[i] == e
}

/// Whether entry `e` stores exactly the given key, path and timestamp.
pub open spec fn a_entry_matches(e: AudioEntry, k: Seq<char>, path: Seq<char>, ts: i64) -> bool {
    e.text_hash@ == k && e.audio_path@ == path && e.timestamp == ts
}

/// What a lookup of hash key `k` finds in `s`: the stored file path, when an
/// entry with that key is present.
pub open spec fn audio_spec_get(s: Seq<AudioEntry>, k: Seq<char>) -> Option<Seq<char>> {
    if a_has_key(s, k) {
        let i = choose|i: int| 0 <= i < s.len() && s[i].text_hash@ == k;
        Some(s[i].audio_path@)
    } else {
        None
    }
}

/// Whether `e` is one of the `input` entries whose file is still present.
pub open spec fn a_loadable(input: Seq<AudioEntry>, present: Seq<bool>, e: AudioEntry) -> bool {
    exists|j: int| 0 <= j < input.len() && input[j] == e && present[j]
}

/// How restoring a persisted index folds its entries, front to back, onto an
/// accumulator: an entry is kept when its file is present, the accumulator
/// has room and does not hold its key yet — so entries with a missing file
/// are dropped silently, the first entry under each key wins, and entries
/// beyond the bound are dropped — and is skipped otherwise.
pub open spec fn a_restore_from(
    acc: Seq<AudioEntry>,
    input: Seq<AudioEntry>,
    present: Seq<bool>,
    max: int,
) -> Seq<AudioEntry>
    decreases input.len(),
{
    if input.len() == 0 {
        acc
    } else {
        let acc2 = if present[0] && acc.len() < max && !a_has_key(acc, input[0].text_hash@) {
            acc.push(input[0])
        } else {
            acc
        };
        a_restore_from(acc2, input.skip(1), present.skip(1), max)
    }
}

/// The subsequence of index entries whose file is present, in index order.
pub open spec fn present_subseq(input: Seq<AudioEntry>, present: Seq<bool>) -> Seq<AudioEntry>
    decreases input.len(),
{
    if input.len() == 0 {
        Seq::empty()
    } else if present[0] {
        seq![input[0]] + present_subseq(input.skip(1), present.skip(1))
    } else {
        present_subseq(input.skip(1), present.skip(1))
    }
}

/// Whether some string of `paths` reads `p`.
pub open spec fn path_in(paths: Seq<String>, p: Seq<char>) -> bool {
    exists|i: int| 0 <= i < paths.len() && paths[i]@ == p
}

/// An insert under a key that was already present: that entry is overwritten
/// wholesale, every other entry is untouched.
pub open spec fn a_set_replaces(
    olds: Seq<AudioEntry>,
    news: Seq<AudioEntry>,
    k: Seq<char>,
    path: Seq<char>,
    ts: i64,
) -> bool {
    &&& news.len() == olds.len()
    &&& forall|i: int|
        0 <= i < olds.len() && (#[trigger] olds[i]).text_hash@ == k ==> a_entry_matches(
            news[i],
            k,
            path,
            ts,
        )
    &&& forall|i: int|
        0 <= i < olds.len() && (#[trigger] olds[i]).text_hash@ != k ==> news[i] == olds[i]
}

/// An insert of a fresh key with room to spare: the new entry is appended and
/// every old entry is untouched.
pub open spec fn a_set_appends(
    olds: Seq<AudioEntry>,
    news: Seq<AudioEntry>,
    k: Seq<char>,
    path: Seq<char>,
    ts: i64,
) -> bool {
    &&& news.len() == olds.len() + 1
    &&& forall|i: int| 0 <= i < olds.len() ==> #[trigger] news[i] == olds[i]
    &&& a_entry_matches(news.last(), k, path, ts)
}

/// An insert of a fresh key into a full cache: a batch is evicted, survivors
/// come from the old contents or are the new entry, the evicted are exactly
/// the oldest by timestamp, and a new entry at least as new as everything
/// stored survives as the last entry.
pub open spec fn a_set_evicts(
    olds: Seq<AudioEntry>,
    news: Seq<AudioEntry>,
    k: Seq<char>,
    path: Seq<char>,
    ts: i64,
    batch: usize,
) -> bool {
    &&& news.len() == olds.len() + 1 - batch
    &&& forall|i: int|
        0 <= i < news.len() ==> a_in_seq(olds, #[trigger] news[i]) || a_entry_matches(
            news[i],
            k,
            path,
            ts,
        )
    &&& forall|j: int|
        0 <= j < olds.len() && !a_in_seq(news, #[trigger] olds[j]) ==> forall|i: int|
            0 <= i < news.len() ==> olds[j].timestamp <= news[i].timestamp
    &&& ((forall|j: int| 0 <= j < olds.len() ==> (#[trigger] olds[j]).timestamp <= ts)
        ==> news.len() > 0 && a_entry_matches(news.last(), k, path, ts))
}

/// How one insert changes the cache contents, by case on whether the key was
/// present and whether the bound was reached.
pub open spec fn a_set_models(
    olds: Seq<AudioEntry>,
    news: Seq<AudioEntry>,
    k: Seq<char>,
    path: Seq<char>,
    ts: i64,
    max: usize,
    batch: usize,
) -> bool {
    &&& (a_has_key(olds, k) ==> a_set_replaces(olds, news, k, path, ts))
    &&& (!a_has_key(olds, k) && olds.len() < max ==> a_set_appends(olds, news, k, path, ts))
    &&& (!a_has_key(olds, k) && olds.len() >= max ==> a_set_evicts(olds, news, k, path, ts, batch))
}

/// A subsequence of a unique-keyed index has unique keys, and every entry of
/// it comes from the index.
proof fn lemma_present_subseq_unique(input: Seq<AudioEntry>, present: Seq<bool>)
    requires
        input.len() == present.len(),
        a_keys_unique(input),
    ensures
        a_keys_unique(present_subseq(input, present)),
        forall|i: int|
            0 <= i < present_subseq(input, present).len() ==> a_in_seq(
                input,
                #[trigger] present_subseq(input, present)[i],
            ),
    decreases input.len(),
{
    if input.len() > 0 {
        let rest = input.skip(1);
        let prest = present.skip(1);
        assert forall|a: int, b: int|
            0 <= a < b < rest.len() implies rest[a].text_hash@ != rest[b].text_hash@ by {
            assert(rest[a] == input[a + 1] && rest[b] == input[b + 1]);
        }
        lemma_present_subseq_unique(rest, prest);
        let sub = present_subseq(input, present);
        let subrest = present_subseq(rest, prest);
        assert forall|i: int| 0 <= i < sub.len() implies a_in_seq(input, #[trigger] sub[i]) by {
            if present[0] && i == 0 {
                assert(sub[0] == input[0]);
            } else {
                let x: int = if present[0] {
                    i - 1
                } else {
                    i
                };
                assert(sub[i] == subrest[x]);
                let w = choose|w: int| 0 <= w < rest.len() && rest[w] == subrest[x];
                assert(input[w + 1] == sub[i]);
            }
        }
        if present[0] {
            assert forall|a: int, b: int|
                0 <= a < b < sub.len() implies sub[a].text_hash@ != sub[b].text_hash@ by {
                if a == 0 {
                    assert(sub[b] == subrest[b - 1]);
                    assert(a_in_seq(rest, subrest[b - 1]));
                    let w = choose|w: int| 0 <= w < rest.len() && rest[w] == subrest[b - 1];
                    assert(input[0].text_hash@ != input[w + 1].text_hash@);
                } else {
                    assert(sub[a] == subrest[a - 1] && sub[b] == subrest[b - 1]);
                }
            }
        }
    }
}

/// Restoring onto an accumulator disjoint from the remaining present entries
/// keeps exactly those entries, in order.
proof fn lemma_restore_appends_present(
    acc: Seq<AudioEntry>,
    input: Seq<AudioEntry>,
    present: Seq<bool>,
    max: int,
)
    requires
        input.len() == present.len(),
        a_keys_unique(acc + present_subseq(input, present)),
        (acc + present_subseq(input, present)).len() <= max,
    ensures
        a_restore_from(acc, input, present, max) == acc + present_subseq(input, present),
    decreases input.len(),
{
    let sub = present_subseq(input, present);
    if input.len() == 0 {
        assert(acc + sub =~= acc);
    } else {
        let e = input[0];
        let rest = input.skip(1);
        let prest = present.skip(1);
        let subrest = present_subseq(rest, prest);
        if present[0] {
            assert(sub == seq![e] + subrest);
            assert(acc + sub =~= acc.push(e) + subrest);
            // The combined sequence is unique, so the accumulator cannot hold
            // the next entry's key yet, and it has room for it.
            assert((acc + sub)[acc.len() as int] == e);
            assert(!a_has_key(acc, e.text_hash@)) by {
                if a_has_key(acc, e.text_hash@) {
                    let w = choose|w: int| 0 <= w < acc.len() && acc[w].text_hash@ == e.text_hash@;
                    assert((acc + sub)[w] == acc[w]);
                    assert(false);
                }
            }
            assert(acc.len() < max);
            lemma_restore_appends_present(acc.push(e), rest, prest, max);
        } else {
            assert(sub == subrest);
            lemma_restore_appends_present(acc, rest, prest, max);
        }
    }
}

/// Index restore keeps exactly the entries whose file is present: for a
/// unique-keyed index whose present entries fit the bound, the restored
/// contents are the present-flagged subsequence of the index, in order —
/// entries with a missing file are dropped silently, every other entry is
/// kept.
pub proof fn lemma_restore_keeps_present(input: Seq<AudioEntry>, present: Seq<bool>, max: int)
    requires
        input.len() == present.len(),
        a_keys_unique(input),
        present_subseq(input, present).len() <= max,
    ensures
        a_restore_from(Seq::<AudioEntry>::empty(), input, present, max) == present_subseq(
            input,
            present,
        ),
{
    lemma_present_subseq_unique(input, present);
    let sub = present_subseq(input, present);
    assert(Seq::<AudioEntry>::empty() + sub =~= sub);
    lemma_restore_appends_present(Seq::<AudioEntry>::empty(), input, present, max);
}

/// Eviction bound: one insert into an audio cache within its bound leaves it
/// within its bound — inserting a fresh key into a full cache first evicts a
/// whole batch — so the cache can never grow past `max` keys.
pub proof fn lemma_audio_eviction_bound(
    olds: Seq<AudioEntry>,
    news: Seq<AudioEntry>,
    k: Seq<char>,
    path: Seq<char>,
    ts: i64,
    max: usize,
    batch: usize,
)
    requires
        olds.len() <= max,
        1 <= batch <= max,
        a_set_models(olds, news, k, path, ts, max, batch),
    ensures
        news.len() <= max,
{
}

/// Audio cache round trip: inserting a file path and then looking its text
/// up returns exactly the inserted path, provided the entry was inserted
/// with a timestamp at least as new as everything already stored (an insert
/// older than the whole of a full cache may itself be evicted).  Whether the
/// path is then handed out still depends on the file existing on disk.
pub proof fn lemma_audio_round_trip(
    olds: Seq<AudioEntry>,
    news: Seq<AudioEntry>,
    k: Seq<char>,
    path: Seq<char>,
    ts: i64,
    max: usize,
    batch: usize,
)
    requires
        a_keys_unique(olds),
        olds.len() <= max,
        1 <= batch <= max,
        forall|j: int| 0 <= j < olds.len() ==> (#[trigger] olds[j]).timestamp <= ts,
        a_set_models(olds, news, k, path, ts, max, batch),
    ensures
        audio_spec_get(news, k) == Some(path),
{
    if a_has_key(olds, k) {
        let w = choose|w: int| 0 <= w < olds.len() && olds[w].text_hash@ == k;
        assert(a_entry_matches(news[w], k, path, ts));
        assert(news[w].text_hash@ == k);
        assert(a_has_key(news, k));
        assert forall|i: int| 0 <= i < news.len() && (#[trigger] news[i]).text_hash@ == k implies
            a_entry_matches(news[i], k, path, ts) by {
            if olds[i].text_hash@ != k {
                assert(news[i] == olds[i]);
            }
        }
    } else if olds.len() < max {
        assert(a_entry_matches(news.last(), k, path, ts));
        assert(news[news.len() - 1].text_hash@ == k);
        assert(a_has_key(news, k));
        assert forall|i: int| 0 <= i < news.len() && (#[trigger] news[i]).text_hash@ == k implies
            a_entry_matches(news[i], k, path, ts) by {
            if i < olds.len() {
                assert(news[i] == olds[i]);
                assert(false);
            }
        }
    } else {
        assert(a_entry_matches(news.last(), k, path, ts));
        assert(news[news.len() - 1].text_hash@ == k);
        assert(a_has_key(news, k));
        assert forall|i: int| 0 <= i < news.len() && (#[trigger] news[i]).text_hash@ == k implies
            a_entry_matches(news[i], k, path, ts) by {
            if a_in_seq(olds, news[i]) {
                let w = choose|w: int| 0 <= w < olds.len() && olds[w] == news[i];
                assert(olds[w].text_hash@ == k);
                assert(false);
            }
        }
    }
    let c = choose|i: int| 0 <= i < news.len() && news[i].text_hash@ == k;
    assert(a_entry_matches(news[c], k, path, ts));
}

/// Membership in a sequence is preserved by removing one position, and a
/// value lost by the removal can only be the value at that position.
proof fn lemma_a_remove_membership(s: Seq<AudioEntry>, m: int)
    requires
        0 <= m < s.len(),
    ensures
        forall|e: AudioEntry| #[trigger] a_in_seq(s.remove(m), e) ==> a_in_seq(s, e),
        forall|e: AudioEntry| a_in_seq(s, e) && !(#[trigger] a_in_seq(s.remove(m), e)) ==> e == s[m],
{
    s.remove_ensures(m);
    assert forall|e: AudioEntry| #[trigger] a_in_seq(s.remove(m), e) implies a_in_seq(s, e) by {
        let i = choose|i: int| 0 <= i < s.remove(m).len() && s.remove(m)[i] == e;
        if i < m {
            assert(s[i] == e);
        } else {
            assert(s[i + 1] == e);
        }
    }
    assert forall|e: AudioEntry| a_in_seq(s, e) && !a_in_seq(s.remove(m), e) implies e == s[m] by {
        let i = choose|i: int| 0 <= i < s.len() && s[i] == e;
        if i < m {
            assert(s.remove(m)[i] == e);
        } else if i > m {
            assert(s.remove(m)[i - 1] == e);
        }
    }
}

/// Index of the first entry with the smallest timestamp.
fn a_find_oldest_index(entries: &Vec<AudioEntry>) -> (r: usize)
    requires
        entries@.len() > 0,
    ensures
        r < entries@.len(),
        forall|j: int|
            0 <= j < entries@.len() ==> entries@[r as int].timestamp <= entries@[j].timestamp,
        forall|j: int| 0 <= j < r ==> entries@[r as int].timestamp < entries@[j].timestamp,
{
    let n = entries.len();
    let mut best: usize = 0;
    let mut i: usize = 1;
    while i < n
        invariant
            n == entries@.len(),
            0 < n,
            best < i,
            1 <= i <= n,
            forall|j: int|
                0 <= j < i ==> entries@[best as int].timestamp <= entries@[j].timestamp,
            forall|j: int| 0 <= j < best ==> entries@[best as int].timestamp < entries@[j].timestamp,
        decreases n - i,
    {
        if entries[i].timestamp < entries[best].timestamp {
            best = i;
        }
        i = i + 1;
    }
    best
}

/// Removes the `count` oldest entries by timestamp, first occurrence of a
/// tied timestamp first, and returns them.  When the last entry is at least
/// as new as every other, it survives.
fn a_evict_oldest(entries: &mut Vec<AudioEntry>, count: usize) -> (removed: Vec<AudioEntry>)
    requires
        count < old(entries)@.len(),
        a_keys_unique(old(entries)@),
    ensures
        ({
            let olds = old(entries)@;
            let news = final(entries)@;
            &&& news.len() == olds.len() - count
            &&& removed@.len() == count
            &&& a_keys_unique(news)
            &&& forall|i: int| 0 <= i < news.len() ==> a_in_seq(olds, #[trigger] news[i])
            &&& forall|i: int| 0 <= i < removed@.len() ==> a_in_seq(olds, #[trigger] removed@[i])
            &&& forall|i: int| 0 <= i < removed@.len() ==> !a_in_seq(news, #[trigger] removed@[i])
            &&& forall|j: int|
                0 <= j < olds.len() && !a_in_seq(news, #[trigger] olds[j]) ==> forall|i: int|
                    0 <= i < news.len() ==> olds[j].timestamp <= news[i].timestamp
            &&& forall|j: int|
                0 <= j < olds.len() ==> a_in_seq(news, #[trigger] olds[j]) || a_in_seq(
                    removed@,
                    olds[j],
                )
            &&& ((forall|j: int| 0 <= j < olds.len() ==> olds[j].timestamp <= olds.last().timestamp)
                ==> news.len() > 0 && news.last() == olds.last())
        }),
{
    let ghost orig = old(entries)@;
    let ghost newest_last = forall|j: int|
        0 <= j < orig.len() ==> orig[j].timestamp <= orig.last().timestamp;
    let mut removed: Vec<AudioEntry> = Vec::new();
    let mut t: usize = 0;
    while t < count
        invariant
            orig == old(entries)@,
            newest_last == (forall|j: int|
                0 <= j < orig.len() ==> orig[j].timestamp <= orig.last().timestamp),
            t <= count,
            count < orig.len(),
            entries@.len() == orig.len() - t,
            removed@.len() == t,
            a_keys_unique(entries@),
            forall|i: int| 0 <= i < entries@.len() ==> a_in_seq(orig, #[trigger] entries@[i]),
            forall|i: int| 0 <= i < removed@.len() ==> a_in_seq(orig, #[trigger] removed@[i]),
            forall|i: int| 0 <= i < removed@.len() ==> !a_in_seq(entries@, #[trigger] removed@[i]),
            forall|j: int|
                0 <= j < orig.len() && !a_in_seq(entries@, #[trigger] orig[j]) ==> forall|i: int|
                    0 <= i < entries@.len() ==> orig[j].timestamp <= entries@[i].timestamp,
            forall|j: int|
                0 <= j < orig.len() ==> a_in_seq(entries@, #[trigger] orig[j]) || a_in_seq(
                    removed@,
                    orig[j],
                ),
            newest_last ==> entries@.len() > 0 && entries@.last() == orig.last(),
        decreases count - t,
    {
        let ghost cur = entries@;
        let idx = a_find_oldest_index(entries);
        proof {
            if newest_last {
                // The first-minimum index is never the (newest) last entry:
                // everything before it would have to be strictly newer, yet
                // nothing is newer than the last entry.
                assert(cur.len() == orig.len() - t && t < count && count < orig.len());
                assert(cur.len() >= 2);
                if idx == cur.len() - 1 {
                    assert(cur[idx as int] == orig.last());
                    assert(cur[0].timestamp > cur[idx as int].timestamp);
                    assert(a_in_seq(orig, cur[0]));
                    let w = choose|w: int| 0 <= w < orig.len() && orig[w] == cur[0];
                    assert(orig[w].timestamp <= orig.last().timestamp);
                    assert(false);
                }
            }
        }
        let e = entries.remove(idx);
        proof {
            lemma_a_remove_membership(cur, idx as int);
            cur.remove_ensures(idx as int);
            assert forall|i: int, j: int|
                0 <= i < j < entries@.len() implies entries@[i].text_hash@
                != entries@[j].text_hash@ by {
                if j < idx {
                    assert(entries@[i] == cur[i] && entries@[j] == cur[j]);
                } else if i < idx {
                    assert(entries@[i] == cur[i] && entries@[j] == cur[j + 1]);
                } else {
                    assert(entries@[i] == cur[i + 1] && entries@[j] == cur[j + 1]);
                }
            }
            assert forall|j: int|
                0 <= j < orig.len() && !a_in_seq(entries@, #[trigger] orig[j]) implies forall|
                i: int,
            |
                0 <= i < entries@.len() ==> orig[j].timestamp <= entries@[i].timestamp by {
                if a_in_seq(cur, orig[j]) {
                    // The value lost in this step is the minimum of `cur`.
                    assert(orig[j] == cur[idx as int]);
                    assert forall|i: int|
                        0 <= i < entries@.len() implies orig[j].timestamp
                        <= entries@[i].timestamp by {
                        if i < idx {
                            assert(entries@[i] == cur[i]);
                        } else {
                            assert(entries@[i] == cur[i + 1]);
                        }
                    }
                } else {
                    assert forall|i: int|
                        0 <= i < entries@.len() implies orig[j].timestamp
                        <= entries@[i].timestamp by {
                        assert(a_in_seq(cur, entries@[i]));
                        let w = choose|w: int| 0 <= w < cur.len() && cur[w] == entries@[i];
                        assert(orig[j].timestamp <= cur[w].timestamp);
                    }
                }
            }
            // The removed value leaves no copy behind: a copy elsewhere would
            // repeat its key.
            if a_in_seq(entries@, cur[idx as int]) {
                let m = choose|m: int| 0 <= m < entries@.len() && entries@[m] == cur[idx as int];
                if m < idx {
                    assert(cur[m] == cur[idx as int]);
                } else {
                    assert(cur[m + 1] == cur[idx as int]);
                }
                assert(false);
            }
            if newest_last {
                assert(idx < cur.len() - 1);
                assert(entries@.last() == cur[cur.len() - 1]);
            }
        }
        let ghost prev_removed = removed@;
        removed.push(e);
        proof {
            assert forall|j: int| 0 <= j < orig.len() implies a_in_seq(entries@, #[trigger] orig[j])
                || a_in_seq(removed@, orig[j]) by {
                if a_in_seq(prev_removed, orig[j]) {
                    let w = choose|w: int| 0 <= w < prev_removed.len() && prev_removed[w] == orig[j];
                    assert(removed@[w] == orig[j]);
                } else {
                    assert(a_in_seq(cur, orig[j]));
                    if !a_in_seq(entries@, orig[j]) {
                        assert(orig[j] == cur[idx as int]);
                        assert(removed@[removed@.len() - 1] == orig[j]);
                    }
                }
            }
            assert forall|i: int| 0 <= i < removed@.len() implies a_in_seq(
                orig,
                #[trigger] removed@[i],
            ) && !a_in_seq(entries@, removed@[i]) by {
                if i < removed@.len() - 1 {
                    assert(removed@[i] == prev_removed[i]);
                } else {
                    assert(removed@[i] == cur[idx as int]);
                    assert(a_in_seq(orig, cur[idx as int]));
                }
            }
        }
        t = t + 1;
    }
    removed
}

/// Bounded cache of generated audio files, keyed by a hash of the source
/// text.
pub struct AudioCache {
    entries: Vec<AudioEntry>,
    cache_dir: String,
    max_entries: usize,
    cleanup_batch: usize,
}

impl View for AudioCache {
    type V = Seq<AudioEntry>;

    closed spec fn view(&self) -> Seq<AudioEntry> {
        self.entries@
    }
}

impl AudioCache {
    /// The largest number of entries the cache will hold.
    pub closed spec fn spec_max_entries(self) -> usize {
        self.max_entries
    }

    /// How many entries one eviction pass removes.
    pub closed spec fn spec_cleanup_batch(self) -> usize {
        self.cleanup_batch
    }

    /// The directory new audio files are placed in.
    pub closed spec fn spec_cache_dir(self) -> Seq<char> {
        self.cache_dir@
    }

    /// Internal consistency: distinct keys, sane limits, size within bound.
    pub open spec fn wf(self) -> bool {
        &&& a_keys_unique(self@)
        &&& 1 <= self.spec_cleanup_batch() <= self.spec_max_entries()
        &&& self@.len() <= self.spec_max_entries()
    }

    /// Creates an empty cache over the given directory, with the default
    /// bound of 100 entries and an eviction batch of 20.
    pub fn new(cache_dir: String) -> (r: AudioCache)
        ensures
            r.wf(),
            r@.len() == 0,
            r.spec_max_entries() == 100,
            r.spec_cleanup_batch() == 20,
            r.spec_cache_dir() == cache_dir@,
    {
        AudioCache { entries: Vec::new(), cache_dir, max_entries: 100, cleanup_batch: 20 }
    }

    /// Creates an empty cache with the given bound and eviction batch size.
    pub fn with_limits(cache_dir: String, max_entries: usize, cleanup_batch: usize) -> (r:
        AudioCache)
        requires
            1 <= cleanup_batch <= max_entries,
        ensures
            r.wf(),
            r@.len() == 0,
            r.spec_max_entries() == max_entries,
            r.spec_cleanup_batch() == cleanup_batch,
            r.spec_cache_dir() == cache_dir@,
    {
        AudioCache { entries: Vec::new(), cache_dir, max_entries, cleanup_batch }
    }

    /// The cache key of a source text: the FNV-1a hash of its UTF-8 bytes in
    /// lower-case hexadecimal.  A deterministic function of the text alone,
    /// stable across runs.
    pub fn generate_key(text: &str) -> (r: String)
        ensures
            r@ == audio_key_of(text@),
    {
        let bytes = text.as_bytes();
        let n = bytes.len();
        let mut h: u64 = FNV_OFFSET;
        let mut i: usize = 0;
        proof {
            assert(bytes@.skip(0) =~= bytes@);
        }
        while i < n
            invariant
                n == bytes@.len(),
                i <= n,
                fnv64(bytes@) == fnv64_from(h, bytes@.skip(i as int)),
            decreases n - i,
        {
            proof {
                assert(bytes@.skip(i as int).skip(1) =~= bytes@.skip(i as int + 1));
                assert(bytes@.skip(i as int)[0] == bytes@[i as int]);
            }
            h = (h ^ (bytes[i] as u64)).wrapping_mul(FNV_PRIME);
            i = i + 1;
        }
        proof {
            assert(bytes@.skip(n as int) =~= Seq::<u8>::empty());
            assert(h == fnv64(bytes@));
        }
        let mut digits: Vec<u8> = Vec::new();
        push_hex(h, &mut digits);
        proof {
            assert(digits@ =~= hex_bytes(h as int));
            lemma_hex_bytes_ascii(h as int);
        }
        let r = string_from_ascii(digits);
        proof {
            assert(r@ =~= audio_key_of(text@));
        }
        r
    }

    /// Number of entries currently stored.
    pub fn len(&self) -> (r: usize)
        ensures
            r == self@.len(),
    {
        self.entries.len()
    }

    /// Exact-match lookup.  `file_exists` is the caller's answer to whether
    /// the stored file is still on disk; a missing file is a miss, so a
    /// dangling path is never handed out.
    pub fn get(&self, text: &str, file_exists: bool) -> (r: Option<String>)
        requires
            self.wf(),
        ensures
            r is Some <==> a_has_key(self@, audio_key_of(text@)) && file_exists,
            r matches Some(p) ==> audio_spec_get(self@, audio_key_of(text@)) == Some(p@),
    {
        let key = Self::generate_key(text);
        match a_find_index(&self.entries, &key) {
            Some(i) => {
                if file_exists {
                    proof {
                        let c = choose|c: int|
                            0 <= c < self@.len() && self@[c].text_hash@ == key@;
                        assert(c == i as int);
                    }
                    Some(self.entries[i].audio_path.clone())
                } else {
                    None
                }
            },
            None => None,
        }
    }

    /// The path a file stored under this entry's key would be looked up at:
    /// the stored path of the entry, if any.
    pub fn peek_path(&self, text: &str) -> (r: Option<String>)
        requires
            self.wf(),
        ensures
            r is Some <==> a_has_key(self@, audio_key_of(text@)),
            r matches Some(p) ==> audio_spec_get(self@, audio_key_of(text@)) == Some(p@),
    {
        let key = Self::generate_key(text);
        match a_find_index(&self.entries, &key) {
            Some(i) => {
                proof {
                    let c = choose|c: int| 0 <= c < self@.len() && self@[c].text_hash@ == key@;
                    assert(c == i as int);
                }
                Some(self.entries[i].audio_path.clone())
            },
            None => None,
        }
    }

    /// Inserts or overwrites the audio file stored for one text.  When the
    /// insert would push the cache over its bound, the oldest `cleanup_batch`
    /// entries by timestamp are evicted first.  Returns the paths no longer
    /// referenced by any entry — a replaced entry's old path and the evicted
    /// entries' paths — for the caller to delete from disk.
    pub fn set(&mut self, text: &str, audio_path: String, timestamp: i64) -> (stale: Vec<String>)
        requires
            old(self).wf(),
        ensures
            final(self).wf(),
            final(self).spec_max_entries() == old(self).spec_max_entries(),
            final(self).spec_cleanup_batch() == old(self).spec_cleanup_batch(),
            final(self).spec_cache_dir() == old(self).spec_cache_dir(),
            final(self)@.len() <= old(self).spec_max_entries(),
            a_set_models(
                old(self)@,
                final(self)@,
                audio_key_of(text@),
                audio_path@,
                timestamp,
                old(self).spec_max_entries(),
                old(self).spec_cleanup_batch(),
            ),
            forall|j: int|
                0 <= j < old(self)@.len() && !a_in_seq(final(self)@, #[trigger] old(self)@[j])
                    && old(self)@[j].audio_path@ != audio_path@ ==> path_in(
                    stale@,
                    old(self)@[j].audio_path@,
                ),
            forall|i: int|
                0 <= i < stale@.len() ==> (exists|j: int|
                    0 <= j < old(self)@.len() && !a_in_seq(final(self)@, old(self)@[j]) && old(
                        self,
                    )@[j].audio_path@ == (#[trigger] stale@[i])@) || stale@[i]@ == audio_path@,
    {
        let ghost olds = self.entries@;
        let ghost k = audio_key_of(text@);
        let key = Self::generate_key(text);
        let mut stale: Vec<String> = Vec::new();
        match a_find_index(&self.entries, &key) {
            Some(i) => {
                let differs = self.entries[i].audio_path != audio_path;
                if differs {
                    stale.push(self.entries[i].audio_path.clone());
                }
                self.entries[i] = AudioEntry { text_hash: key, audio_path, timestamp };
                proof {
                    let news = self.entries@;
                    assert forall|j: int|
                        0 <= j < olds.len() && (#[trigger] olds[j]).text_hash@ == k implies
                        a_entry_matches(news[j], k, audio_path@, timestamp) by {
                        assert(j == i as int);
                    }
                    // The old entry at the found index either kept its path
                    // or its path was pushed as stale; and it survives only
                    // when it equals the new entry outright.
                    assert forall|j: int|
                        0 <= j < olds.len() && !a_in_seq(news, #[trigger] olds[j])
                            && olds[j].audio_path@ != audio_path@ implies path_in(
                        stale@,
                        olds[j].audio_path@,
                    ) by {
                        if j != i as int {
                            assert(news[j] == olds[j]);
                        } else {
                            assert(stale@[0]@ == olds[i as int].audio_path@);
                        }
                    }
                    if differs {
                        if a_in_seq(news, olds[i as int]) {
                            let m = choose|m: int|
                                0 <= m < news.len() && news[m] == olds[i as int];
                            if m != i as int {
                                assert(olds[m] == olds[i as int]);
                            }
                            assert(false);
                        }
                    }
                }
                stale
            },
            None => {
                let entry = AudioEntry { text_hash: key, audio_path, timestamp };
                self.entries.push(entry);
                let ghost pushed = self.entries@;
                proof {
                    assert forall|a: int, b: int|
                        0 <= a < b < pushed.len() implies pushed[a].text_hash@
                        != pushed[b].text_hash@ by {
                        if b == pushed.len() - 1 {
                            assert(pushed[a] == olds[a]);
                            assert(olds[a].text_hash@ != k);
                        }
                    }
                }
                if self.entries.len() <= self.max_entries {
                    proof {
                        assert forall|j: int| 0 <= j < olds.len() implies a_in_seq(
                            self.entries@,
                            #[trigger] olds[j],
                        ) by {
                            assert(self.entries@[j] == olds[j]);
                        }
                    }
                } else {
                    proof {
                        assert(olds.len() == self.max_entries);
                    }
                    let removed = a_evict_oldest(&mut self.entries, self.cleanup_batch);
                    let ghost news = self.entries@;
                    let m = removed.len();
                    let mut w: usize = 0;
                    while w < m
                        invariant
                            w <= m,
                            m == removed@.len(),
                            stale@.len() == w,
                            forall|x: int| 0 <= x < w ==> stale@[x]@ == removed@[x].audio_path@,
                        decreases m - w,
                    {
                        stale.push(removed[w].audio_path.clone());
                        w = w + 1;
                    }
                    proof {
                        assert forall|i: int|
                            0 <= i < news.len() implies a_in_seq(olds, #[trigger] news[i])
                            || a_entry_matches(news[i], k, audio_path@, timestamp) by {
                            assert(a_in_seq(pushed, news[i]));
                            let x = choose|x: int| 0 <= x < pushed.len() && pushed[x] == news[i];
                            if x < olds.len() {
                                assert(olds[x] == news[i]);
                            } else {
                                assert(pushed[x] == pushed.last());
                            }
                        }
                        assert forall|j: int|
                            0 <= j < olds.len() && !a_in_seq(news, #[trigger] olds[j]) implies
                            forall|i: int|
                                0 <= i < news.len() ==> olds[j].timestamp <= news[i].timestamp by {
                            assert(pushed[j] == olds[j]);
                            assert(!a_in_seq(news, pushed[j]));
                        }
                        if forall|j: int|
                            0 <= j < olds.len() ==> (#[trigger] olds[j]).timestamp <= timestamp {
                            assert forall|j: int|
                                0 <= j < pushed.len() implies pushed[j].timestamp
                                <= pushed.last().timestamp by {
                                if j < olds.len() {
                                    assert(pushed[j] == olds[j]);
                                }
                            }
                            assert(news.last() == pushed.last());
                        }
                        assert forall|j: int|
                            0 <= j < olds.len() && !a_in_seq(news, #[trigger] olds[j])
                                && olds[j].audio_path@ != audio_path@ implies path_in(
                            stale@,
                            olds[j].audio_path@,
                        ) by {
                            assert(pushed[j] == olds[j]);
                            assert(a_in_seq(removed@, pushed[j]));
                            let x = choose|x: int|
                                0 <= x < removed@.len() && removed@[x] == pushed[j];
                            assert(stale@[x]@ == olds[j].audio_path@);
                        }
                        assert forall|i: int| 0 <= i < stale@.len() implies (exists|j: int|
                            0 <= j < olds.len() && !a_in_seq(news, olds[j]) && olds[j].audio_path@
                                == (#[trigger] stale@[i])@) || stale@[i]@ == audio_path@ by {
                            assert(a_in_seq(pushed, removed@[i]));
                            let x = choose|x: int|
                                0 <= x < pushed.len() && pushed[x] == removed@[i];
                            if x < olds.len() {
                                assert(olds[x] == removed@[i]);
                                assert(!a_in_seq(news, olds[x]));
                                assert(olds[x].audio_path@ == stale@[i]@);
                            } else {
                                assert(pushed[x] == pushed.last());
                                assert(stale@[i]@ == audio_path@);
                            }
                        }
                    }
                }
                stale
            },
        }
    }

    /// Inserts with the current wall-clock time as the entry's timestamp.
    pub fn set_now(&mut self, text: &str, audio_path: String) -> (stale: Vec<String>)
        requires
            old(self).wf(),
        ensures
            final(self).wf(),
            final(self).spec_max_entries() == old(self).spec_max_entries(),
            final(self).spec_cleanup_batch() == old(self).spec_cleanup_batch(),
            final(self).spec_cache_dir() == old(self).spec_cache_dir(),
            final(self)@.len() <= old(self).spec_max_entries(),
            exists|ts: i64|
                a_set_models(
                    old(self)@,
                    final(self)@,
                    audio_key_of(text@),
                    audio_path@,
                    ts,
                    old(self).spec_max_entries(),
                    old(self).spec_cleanup_batch(),
                ),
            forall|j: int|
                0 <= j < old(self)@.len() && !a_in_seq(final(self)@, #[trigger] old(self)@[j])
                    && old(self)@[j].audio_path@ != audio_path@ ==> path_in(
                    stale@,
                    old(self)@[j].audio_path@,
                ),
            forall|i: int|
                0 <= i < stale@.len() ==> (exists|j: int|
                    0 <= j < old(self)@.len() && !a_in_seq(final(self)@, old(self)@[j]) && old(
                        self,
                    )@[j].audio_path@ == (#[trigger] stale@[i])@) || stale@[i]@ == audio_path@,
    {
        let ts = crate::clock::now_epoch_seconds();
        let ghost path_view = audio_path@;
        let stale = self.set(text, audio_path, ts);
        proof {
            assert(a_set_models(
                old(self)@,
                self@,
                audio_key_of(text@),
                path_view,
                ts,
                old(self).spec_max_entries(),
                old(self).spec_cleanup_batch(),
            ));
        }
        stale
    }

    /// Removes every entry and returns every stored path, for the caller to
    /// delete the files and the persisted index.
    pub fn clear(&mut self) -> (stale: Vec<String>)
        requires
            old(self).wf(),
        ensures
            final(self).wf(),
            final(self)@.len() == 0,
            final(self).spec_max_entries() == old(self).spec_max_entries(),
            final(self).spec_cleanup_batch() == old(self).spec_cleanup_batch(),
            final(self).spec_cache_dir() == old(self).spec_cache_dir(),
            stale@.len() == old(self)@.len(),
            forall|i: int| 0 <= i < stale@.len() ==> stale@[i]@ == old(self)@[i].audio_path@,
    {
        let mut stale: Vec<String> = Vec::new();
        let n = self.entries.len();
        let mut i: usize = 0;
        while i < n
            invariant
                i <= n,
                n == self.entries@.len(),
                stale@.len() == i,
                forall|j: int| 0 <= j < i ==> stale@[j]@ == self.entries@[j].audio_path@,
            decreases n - i,
        {
            stale.push(self.entries[i].audio_path.clone());
            i = i + 1;
        }
        self.entries.clear();
        stale
    }

    /// A copy of every stored entry, for the caller to persist as the index.
    pub fn entries(&self) -> (r: Vec<AudioEntry>)
        ensures
            r@ == self@,
    {
        let mut r: Vec<AudioEntry> = Vec::new();
        let n = self.entries.len();
        let mut i: usize = 0;
        while i < n
            invariant
                i <= n,
                n == self.entries@.len(),
                r@.len() == i,
                forall|j: int| 0 <= j < i ==> r@[j] == self.entries@[j],
            decreases n - i,
        {
            let e = &self.entries[i];
            r.push(
                AudioEntry {
                    text_hash: e.text_hash.clone(),
                    audio_path: e.audio_path.clone(),
                    timestamp: e.timestamp,
                },
            );
            i = i + 1;
        }
        proof {
            assert(r@ =~= self@);
        }
        r
    }

    /// Rebuilds a cache from a persisted index.  `present` answers, entry by
    /// entry, whether the file is still on disk; an entry whose file is
    /// missing is dropped silently.  The first entry under each key wins and
    /// entries beyond the bound are dropped.  A well-formed index within the
    /// bound whose files all exist is restored exactly.
    pub fn from_entries(
        cache_dir: String,
        input: &Vec<AudioEntry>,
        present: &Vec<bool>,
        max_entries: usize,
        cleanup_batch: usize,
    ) -> (r: AudioCache)
        requires
            input@.len() == present@.len(),
            1 <= cleanup_batch <= max_entries,
        ensures
            r.wf(),
            r.spec_max_entries() == max_entries,
            r.spec_cleanup_batch() == cleanup_batch,
            r.spec_cache_dir() == cache_dir@,
            r@ == a_restore_from(Seq::<AudioEntry>::empty(), input@, present@, max_entries as int),
            forall|i: int| 0 <= i < r@.len() ==> a_loadable(input@, present@, #[trigger] r@[i]),
            a_keys_unique(input@) && input@.len() <= max_entries && (forall|j: int|
                0 <= j < present@.len() ==> present@[j]) ==> r@ == input@,
    {
        let ghost exact = a_keys_unique(input@) && input@.len() <= max_entries && (forall|j: int|
            0 <= j < present@.len() ==> present@[j]);
        let ghost goal = a_restore_from(
            Seq::<AudioEntry>::empty(),
            input@,
            present@,
            max_entries as int,
        );
        let mut r = AudioCache::with_limits(cache_dir, max_entries, cleanup_batch);
        let n = input.len();
        let mut i: usize = 0;
        proof {
            assert(r@ =~= input@.subrange(0, 0));
            assert(r@ =~= Seq::<AudioEntry>::empty());
            assert(input@.skip(0) =~= input@);
            assert(present@.skip(0) =~= present@);
        }
        while i < n
            invariant
                i <= n,
                n == input@.len(),
                n == present@.len(),
                exact == (a_keys_unique(input@) && input@.len() <= max_entries && (forall|j: int|
                    0 <= j < present@.len() ==> present@[j])),
                goal == a_restore_from(
                    Seq::<AudioEntry>::empty(),
                    input@,
                    present@,
                    max_entries as int,
                ),
                a_restore_from(
                    r@,
                    input@.skip(i as int),
                    present@.skip(i as int),
                    max_entries as int,
                ) == goal,
                r.wf(),
                r.spec_max_entries() == max_entries,
                r.spec_cleanup_batch() == cleanup_batch,
                r.spec_cache_dir() == cache_dir@,
                forall|x: int|
                    0 <= x < r@.len() ==> a_loadable(input@, present@, #[trigger] r@[x]),
                exact ==> r@ == input@.subrange(0, i as int),
            decreases n - i,
        {
            let ghost prev = r.entries@;
            proof {
                assert(input@.skip(i as int)[0] == input@[i as int]);
                assert(present@.skip(i as int)[0] == present@[i as int]);
                assert(input@.skip(i as int).skip(1) =~= input@.skip(i as int + 1));
                assert(present@.skip(i as int).skip(1) =~= present@.skip(i as int + 1));
            }
            let e = &input[i];
            if present[i] && r.entries.len() < max_entries {
                match a_find_index(&r.entries, &e.text_hash) {
                    None => {
                        r.entries.push(
                            AudioEntry {
                                text_hash: e.text_hash.clone(),
                                audio_path: e.audio_path.clone(),
                                timestamp: e.timestamp,
                            },
                        );
                        proof {
                            assert(r.entries@.last() == input@[i as int]);
                            assert(r.entries@ =~= prev.push(input@[i as int]));
                            assert(!a_has_key(prev, input@[i as int].text_hash@));
                            assert forall|a: int, b: int|
                                0 <= a < b < r.entries@.len() implies r.entries@[a].text_hash@
                                != r.entries@[b].text_hash@ by {
                                if b == r.entries@.len() - 1 {
                                    assert(r.entries@[a] == prev[a]);
                                }
                            }
                            assert forall|x: int| 0 <= x < r@.len() implies a_loadable(
                                input@,
                                present@,
                                #[trigger] r@[x],
                            ) by {
                                if x < r@.len() - 1 {
                                    assert(r@[x] == prev[x]);
                                } else {
                                    assert(input@[i as int] == r@[x] && present@[i as int]);
                                }
                            }
                            if exact {
                                assert(r.entries@ =~= input@.subrange(0, i + 1));
                            }
                        }
                    },
                    Some(j) => {
                        proof {
                            assert(prev[j as int].text_hash@ == input@[i as int].text_hash@);
                            assert(a_has_key(prev, input@[i as int].text_hash@));
                            if exact {
                                let jj = j as int;
                                assert(r.entries@[jj] == input@.subrange(0, i as int)[jj]);
                                assert(input@[jj].text_hash@ == input@[i as int].text_hash@);
                                assert(false);
                            }
                        }
                    },
                }
            } else {
                proof {
                    if exact {
                        assert(present@[i as int]);
                        assert(r.entries@.len() == i);
                        assert(false);
                    }
                }
            }
            i = i + 1;
        }
        proof {
            assert(input@.skip(n as int) =~= Seq::<AudioEntry>::empty());
            if exact {
                assert(input@.subrange(0, n as int) =~= input@);
            }
        }
        r
    }

    /// The path a new audio file for this text belongs at: the cache
    /// directory, the key and a `.wav` suffix.
    pub fn get_new_audio_path(&self, text: &str) -> (r: String)
        ensures
            r@ == self.spec_cache_dir() + "/"@ + audio_key_of(text@) + ".wav"@,
    {
        let key = Self::generate_key(text);
        let r = self.cache_dir.clone().concat("/").concat(key.as_str()).concat(".wav");
        proof {
            assert(r@ =~= self.spec_cache_dir() + "/"@ + audio_key_of(text@) + ".wav"@);
        }
        r
    }
}

/// Index of the first entry stored under hash `key`, if any.
fn a_find_index(entries: &Vec<AudioEntry>, key: &String) -> (r: Option<usize>)
    ensures
        match r {
            Some(i) => 0 <= i < entries@.len() && entries@[i as int].text_hash@ == key@,
            None => !a_has_key(entries@, key@),
        },
{
    let n = entries.len();
    let mut i: usize = 0;
    while i < n
        invariant
            0 <= i <= n,
            n == entries@.len(),
            forall|j: int| 0 <= j < i ==> entries@[j].text_hash@ != key@,
        decreases n - i,
    {
        if entries[i].text_hash == *key {
            return Some(i);
        }
        i = i + 1;
    }
    None
}

} // verus!
