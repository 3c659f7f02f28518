//! Keeps the cache in step with the remote library: which paths to analyze
//! (new, or cached in an older format) and which to drop (gone remotely).
use vstd::prelude::*;
use crate::cache::{CacheEntry, FeatureCache, Metadata, entry_ok};
use crate::paths::{
    analysis_source, cache_key, cache_key_spec, is_virtual_track, join_spec, track_container,
};
use crate::queue::{contains_path, paths_of};

verus! {

/// The cache keys of the remote paths.
pub open spec fn remote_keys(base: Seq<char>, remote: Seq<String>) -> Set<Seq<char>> {
    Set::new(
        |k: Seq<char>|
            exists|i: int|
                0 <= i < remote.len() && cache_key_spec(base, #[trigger] remote[i]@) == k,
    )
}

/// Keys of the remote library that the cache lacks, or holds in another
/// format version: these are analyzed again.
pub open spec fn analyze_set<F>(
    base: Seq<char>,
    remote: Seq<String>,
    cache: Map<Seq<char>, CacheEntry<F>>,
    version: u32,
) -> Set<Seq<char>> {
    remote_keys(base, remote).filter(
        |k: Seq<char>| !cache.contains_key(k) || cache[k].format_version != version,
    )
}

/// Cached keys, in any format version, that the remote library no longer has.
pub open spec fn remove_set<F>(
    base: Seq<char>,
    remote: Seq<String>,
    cache: Map<Seq<char>, CacheEntry<F>>,
) -> Set<Seq<char>> {
    cache.dom().filter(|k: Seq<char>| !remote_keys(base, remote).contains(k))
}

/// The work one synchronization does.
pub struct SyncPlan {
    /// Keys to analyze, each once.
    pub to_analyze: Vec<String>,
    /// Keys to drop from the cache, each once.
    pub to_remove: Vec<String>,
}

proof fn lemma_contains_push(s: Seq<Seq<char>>, a: Seq<char>, k: Seq<char>)
    ensures
        s.push(a).contains(k) <==> s.contains(k) || k == a,
{
    if s.contains(k) {
        let i = choose|i: int| 0 <= i < s.len() && s[i] == k;
        assert(s.push(a)[i] == k);
    }
    if k == a {
        assert(s.push(a)[s.len() as int] == k);
    }
    if s.push(a).contains(k) {
        let i = choose|i: int| 0 <= i < s.push(a).len() && s.push(a)[i] == k;
        if i < s.len() {
            assert(s[i] == k);
        }
    }
}

/// Computes what one synchronization of the cache against the remote
/// library's paths (relative to `base`) has to do. Every remote path is
/// first turned into its cache key. A key is analyzed where the cache has
/// no entry for it in `version`; an entry is dropped where its key is not
/// among the remote ones, whatever its version. Entries in an older version
/// are kept until they are analyzed again.
pub fn sync_plan<F>(base: &str, remote: &Vec<String>, cache: &FeatureCache<F>, version: u32) -> (r:
    SyncPlan)
    requires
        cache.wf(),
    ensures
        paths_of(r.to_analyze@).to_set() == analyze_set(base@, remote@, cache@, version),
        paths_of(r.to_analyze@).no_duplicates(),
        paths_of(r.to_remove@).to_set() == remove_set(base@, remote@, cache@),
        paths_of(r.to_remove@).no_duplicates(),
{
    let ghost rk = remote_keys(base@, remote@);
    let mut keys: Vec<String> = Vec::new();
    let mut i: usize = 0;
    while i < remote.len()
        invariant
            i <= remote.len(),
            paths_of(keys@).no_duplicates(),
            forall|k: Seq<char>|
                paths_of(keys@).contains(k) <==> exists|j: int|
                    0 <= j < i && cache_key_spec(base@, #[trigger] remote@[j]@) == k,
        decreases remote.len() - i,
    {
        let ghost old_keys = keys@;
        let k = cache_key(base, remote[i].as_str());
        let ghost kv = k@;
        let present = contains_path(&keys, &k);
        if !present {
            keys.push(k);
            assert(paths_of(keys@) =~= paths_of(old_keys).push(kv));
            assert forall|a: int, b: int|
                0 <= a < paths_of(keys@).len() && 0 <= b < paths_of(keys@).len() && a != b
                    implies paths_of(keys@)[a] != paths_of(keys@)[b] by {
                if a == old_keys.len() {
                    assert(paths_of(old_keys)[b] == paths_of(keys@)[b]);
                } else if b == old_keys.len() {
                    assert(paths_of(old_keys)[a] == paths_of(keys@)[a]);
                }
            }
        } else {
            assert(paths_of(keys@) =~= paths_of(old_keys));
        }
        assert forall|kk: Seq<char>|
            paths_of(keys@).contains(kk) <==> exists|j: int|
                0 <= j < i + 1 && cache_key_spec(base@, #[trigger] remote@[j]@) == kk by {
            lemma_contains_push(paths_of(old_keys), kv, kk);
            if kk == kv {
                assert(cache_key_spec(base@, remote@[i as int]@) == kk);
            }
            if exists|j: int| 0 <= j < i + 1 && cache_key_spec(base@, #[trigger] remote@[j]@) == kk {
                let j = choose|j: int| 0 <= j < i + 1 && cache_key_spec(base@, #[trigger] remote@[j]@) == kk;
                if j < i {
                    assert(paths_of(old_keys).contains(kk));
                }
            }
        }
        i = i + 1;
    }
    assert forall|k: Seq<char>| paths_of(keys@).contains(k) <==> rk.contains(k) by {}
    let mut to_analyze: Vec<String> = Vec::new();
    let mut j: usize = 0;
    while j < keys.len()
        invariant
            j <= keys.len(),
            paths_of(keys@).no_duplicates(),
            paths_of(to_analyze@).no_duplicates(),
            forall|k: Seq<char>|
                paths_of(to_analyze@).contains(k) <==> (exists|m: int|
                    0 <= m < j && #[trigger] keys@[m]@ == k) && (!cache@.contains_key(k)
                    || cache@[k].format_version != version),
            cache.wf(),
        decreases keys.len() - j,
    {
        let ghost old_ta = to_analyze@;
        let stale = match cache.get(keys[j].as_str()) {
            Some(e) => e.format_version != version,
            None => true,
        };
        if stale {
            to_analyze.push(keys[j].clone());
            assert(paths_of(to_analyze@) =~= paths_of(old_ta).push(keys@[j as int]@));
            assert forall|a: int, b: int|
                0 <= a < paths_of(to_analyze@).len() && 0 <= b < paths_of(to_analyze@).len() && a
                    != b implies paths_of(to_analyze@)[a] != paths_of(to_analyze@)[b] by {
                if a == j || b == j {
                }
                if b == paths_of(old_ta).len() {
                    let k = paths_of(old_ta)[a];
                    assert(paths_of(old_ta).contains(k));
                    let m = choose|m: int| 0 <= m < j && #[trigger] keys@[m]@ == k;
                    assert(paths_of(keys@)[m] == paths_of(keys@)[j as int] ==> m == j);
                } else if a == paths_of(old_ta).len() {
                    let k = paths_of(old_ta)[b];
                    assert(paths_of(old_ta).contains(k));
                    let m = choose|m: int| 0 <= m < j && #[trigger] keys@[m]@ == k;
                    assert(paths_of(keys@)[m] == paths_of(keys@)[j as int] ==> m == j);
                }
            }
        } else {
            assert(paths_of(to_analyze@) =~= paths_of(old_ta));
        }
        assert forall|k: Seq<char>|
            paths_of(to_analyze@).contains(k) <==> (exists|m: int|
                0 <= m < j + 1 && #[trigger] keys@[m]@ == k) && (!cache@.contains_key(k)
                || cache@[k].format_version != version) by {
            if stale {
                lemma_contains_push(paths_of(old_ta), keys@[j as int]@, k);
            }
            if k == keys@[j as int]@ {
                assert(paths_of(keys@)[j as int] == k);
            } else if exists|m: int| 0 <= m < j + 1 && #[trigger] keys@[m]@ == k {
                let m = choose|m: int| 0 <= m < j + 1 && #[trigger] keys@[m]@ == k;
                assert(m != j);
            }
        }
        j = j + 1;
    }
    assert forall|k: Seq<char>|
        #![auto]
        (exists|m: int| 0 <= m < keys.len() && #[trigger] keys@[m]@ == k) <==> paths_of(
            keys@,
        ).contains(k) by {
        if paths_of(keys@).contains(k) {
            let m = choose|m: int| 0 <= m < paths_of(keys@).len() && paths_of(keys@)[m] == k;
            assert(keys@[m]@ == k);
        }
        if exists|m: int| 0 <= m < keys.len() && #[trigger] keys@[m]@ == k {
            let m = choose|m: int| 0 <= m < keys.len() && #[trigger] keys@[m]@ == k;
            assert(paths_of(keys@)[m] == k);
        }
    }
    assert(paths_of(to_analyze@).to_set() =~= analyze_set(base@, remote@, cache@, version));
    let entries = cache.all();
    let mut to_remove: Vec<String> = Vec::new();
    let mut j: usize = 0;
    while j < entries.len()
        invariant
            j <= entries.len(),
            paths_of(to_remove@).no_duplicates(),
            forall|a: int, b: int|
                0 <= a < entries.len() && 0 <= b < entries.len() && a != b ==> #[trigger] entries@[a].path@
                    != #[trigger] entries@[b].path@,
            forall|k: Seq<char>|
                paths_of(to_remove@).contains(k) <==> (exists|m: int|
                    0 <= m < j && #[trigger] entries@[m].path@ == k) && !paths_of(
                    keys@,
                ).contains(k),
        decreases entries.len() - j,
    {
        let ghost old_tr = to_remove@;
        if !contains_path(&keys, &entries[j].path) {
            to_remove.push(entries[j].path.clone());
            assert(paths_of(to_remove@) =~= paths_of(old_tr).push(entries@[j as int].path@));
            assert forall|a: int, b: int|
                0 <= a < paths_of(to_remove@).len() && 0 <= b < paths_of(to_remove@).len() && a
                    != b implies paths_of(to_remove@)[a] != paths_of(to_remove@)[b] by {
                if b == paths_of(old_tr).len() {
                    let k = paths_of(old_tr)[a];
                    assert(paths_of(old_tr).contains(k));
                } else if a == paths_of(old_tr).len() {
                    let k = paths_of(old_tr)[b];
                    assert(paths_of(old_tr).contains(k));
                }
            }
        } else {
            assert(paths_of(to_remove@) =~= paths_of(old_tr));
        }
        assert forall|k: Seq<char>|
            paths_of(to_remove@).contains(k) <==> (exists|m: int|
                0 <= m < j + 1 && #[trigger] entries@[m].path@ == k) && !paths_of(
                keys@,
            ).contains(k) by {
            lemma_contains_push(paths_of(old_tr), entries@[j as int].path@, k);
            if k == entries@[j as int].path@ {
            } else if exists|m: int| 0 <= m < j + 1 && #[trigger] entries@[m].path@ == k {
                let m = choose|m: int| 0 <= m < j + 1 && #[trigger] entries@[m].path@ == k;
                assert(m != j);
            }
        }
        j = j + 1;
    }
    assert(paths_of(to_remove@).to_set() =~= remove_set(base@, remote@, cache@));
    SyncPlan { to_analyze, to_remove }
}

/// The file analyzed for the remote path `s`: its container under `base`.
pub open spec fn source_spec(base: Seq<char>, s: Seq<char>) -> Seq<char> {
    join_spec(
        base,
        if is_virtual_track(s) {
            track_container(s)
        } else {
            s
        },
    )
}

/// The files to analyze for the keys `to_analyze`, each once: the
/// container of every remote path whose key is among them (one cue sheet
/// for all of its tracks).
pub fn sources_to_analyze(base: &str, remote: &Vec<String>, to_analyze: &Vec<String>) -> (r: Vec<
    String,
>)
    ensures
        paths_of(r@).no_duplicates(),
        forall|s: Seq<char>|
            paths_of(r@).contains(s) <==> exists|i: int|
                0 <= i < remote.len() && paths_of(to_analyze@).contains(cache_key_spec(base@, #[trigger] remote@[i]@)) && source_spec(base@, remote@[i]@)
                    == s,
{
    let mut r: Vec<String> = Vec::new();
    let mut i: usize = 0;
    while i < remote.len()
        invariant
            i <= remote.len(),
            paths_of(r@).no_duplicates(),
            forall|s: Seq<char>|
                paths_of(r@).contains(s) <==> exists|j: int|
                    0 <= j < i && paths_of(to_analyze@).contains(cache_key_spec(base@, #[trigger] remote@[j]@)) && source_spec(base@, remote@[j]@)
                        == s,
        decreases remote.len() - i,
    {
        let ghost before = r@;
        let ghost want = paths_of(to_analyze@).contains(
            cache_key_spec(base@, remote@[i as int]@),
        );
        let ghost src = source_spec(base@, remote@[i as int]@);
        let k = cache_key(base, remote[i].as_str());
        let source = analysis_source(base, remote[i].as_str());
        if contains_path(to_analyze, &k) && !contains_path(&r, &source) {
            r.push(source);
            assert(paths_of(r@) =~= paths_of(before).push(src));
            assert forall|a: int, b: int|
                0 <= a < paths_of(r@).len() && 0 <= b < paths_of(r@).len() && a != b
                    implies paths_of(r@)[a] != paths_of(r@)[b] by {
                if a == before.len() {
                    assert(paths_of(before)[b] == paths_of(r@)[b]);
                } else if b == before.len() {
                    assert(paths_of(before)[a] == paths_of(r@)[a]);
                }
            }
        } else {
            assert(paths_of(r@) =~= paths_of(before));
        }
        assert forall|s: Seq<char>|
            paths_of(r@).contains(s) <==> exists|j: int|
                0 <= j < i + 1 && paths_of(to_analyze@).contains(cache_key_spec(base@, #[trigger] remote@[j]@)) && source_spec(base@, remote@[j]@)
                    == s by {
            lemma_contains_push(paths_of(before), src, s);
            if exists|j: int|
                0 <= j < i + 1 && paths_of(to_analyze@).contains(cache_key_spec(base@, #[trigger] remote@[j]@)) && source_spec(base@, remote@[j]@)
                    == s {
                let j = choose|j: int|
                    0 <= j < i + 1 && paths_of(to_analyze@).contains(cache_key_spec(base@, #[trigger] remote@[j]@)) && source_spec(base@, remote@[j]@)
                        == s;
                if j == i {
                    assert(want && src == s);
                }
            }
            if paths_of(r@).contains(s) && !paths_of(before).contains(s) {
                assert(s == src && want);
            }
        }
        i = i + 1;
    }
    r
}

/// What the analysis of one path gave.
pub enum AnalysisOutcome<F> {
    Done { features: Vec<F>, metadata: Metadata, container: Option<String> },
    Failed { error: String },
}

/// Stores the outcome of analyzing `key` in `version`: the analysis itself
/// where it succeeded with the cache's feature count, else an entry without
/// features that records the error. Either way the key then has an entry of
/// `version`, and no other entry changes.
pub fn record_outcome<F>(
    cache: &mut FeatureCache<F>,
    key: String,
    outcome: AnalysisOutcome<F>,
    version: u32,
)
    requires
        old(cache).wf(),
    ensures
        final(cache).wf(),
        final(cache).feature_count() == old(cache).feature_count(),
        final(cache)@ == old(cache)@.insert(key@, final(cache)@[key@]),
        final(cache)@[key@].path@ == key@,
        final(cache)@[key@].format_version == version,
        !final(cache)@[key@].analyzed ==> final(cache)@[key@].features.len() == 0,
        final(cache)@[key@].analyzed ==> final(cache)@[key@].features.len() == old(
            cache,
        ).feature_count(),
        final(cache)@[key@].analyzed <==> (outcome matches AnalysisOutcome::Done {
            features,
            ..
        } && features.len() == old(cache).feature_count()),
        final(cache)@[key@].analyzed ==> (outcome matches AnalysisOutcome::Done {
            features,
            ..
        } && final(cache)@[key@].features@ == features@),
        outcome matches AnalysisOutcome::Failed { error } ==> final(cache)@[key@].error == Some(
            error,
        ),
{
    let n = cache.number_features();
    let ghost k = key@;
    let entry = match outcome {
        AnalysisOutcome::Done { features, metadata, container } => {
            if features.len() == n {
                CacheEntry {
                    path: key,
                    features,
                    metadata,
                    analyzed: true,
                    format_version: version,
                    container,
                    error: None,
                }
            } else {
                failed_entry(key, String::from_str("wrong number of features"), version)
            }
        },
        AnalysisOutcome::Failed { error } => failed_entry(key, error, version),
    };
    let ghost e = entry;
    let r = cache.upsert(entry);
    assert(r is Ok);
    assert(cache@ =~= old(cache)@.insert(k, cache@[k]));
}

fn failed_entry<F>(key: String, error: String, version: u32) -> (r: CacheEntry<F>)
    ensures
        r.path == key,
        !r.analyzed,
        r.features.len() == 0,
        r.format_version == version,
        r.error == Some(error),
{
    CacheEntry {
        path: key,
        features: Vec::new(),
        metadata: Metadata {
            title: None,
            artist: None,
            album: None,
            track_number: None,
            genre: None,
            duration_secs: 0,
        },
        analyzed: false,
        format_version: version,
        container: None,
        error: Some(error),
    }
}

/// Drops the entries of `keys` from the cache, and nothing else.
pub fn remove_keys<F>(cache: &mut FeatureCache<F>, keys: &Vec<String>)
    requires
        old(cache).wf(),
    ensures
        final(cache).wf(),
        final(cache).feature_count() == old(cache).feature_count(),
        final(cache)@ == old(cache)@.remove_keys(paths_of(keys@).to_set()),
{
    let mut i: usize = 0;
    while i < keys.len()
        invariant
            i <= keys.len(),
            cache.wf(),
            cache.feature_count() == old(cache).feature_count(),
            cache@ == old(cache)@.remove_keys(paths_of(keys@.take(i as int)).to_set()),
        decreases keys.len() - i,
    {
        let ghost before = cache@;
        cache.delete(keys[i].as_str());
        assert(paths_of(keys@.take(i + 1 as int)) =~= paths_of(keys@.take(i as int)).push(
            keys@[i as int]@,
        ));
        assert forall|k: Seq<char>|
            paths_of(keys@.take(i + 1 as int)).contains(k) <==> paths_of(
                keys@.take(i as int),
            ).contains(k) || k == keys@[i as int]@ by {
            lemma_contains_push(paths_of(keys@.take(i as int)), keys@[i as int]@, k);
        }
        assert(cache@ =~= old(cache)@.remove_keys(paths_of(keys@.take(i + 1 as int)).to_set()));
        i = i + 1;
    }
    assert(keys@.take(i as int) =~= keys@);
}

/// A second synchronization right after a first one, with the remote side
/// unchanged, has nothing to do. `after` is the cache once the first one
/// stored an outcome of `version` for each key it analyzed, dropped each
/// key it removed, and left every other entry alone.
pub proof fn lemma_sync_idempotent<F>(
    base: Seq<char>,
    remote: Seq<String>,
    cache: Map<Seq<char>, CacheEntry<F>>,
    after: Map<Seq<char>, CacheEntry<F>>,
    version: u32,
)
    requires
        forall|k: Seq<char>| #[trigger]
            analyze_set(base, remote, cache, version).contains(k) ==> after.contains_key(k)
                && after[k].format_version == version,
        forall|k: Seq<char>| #[trigger]
            remove_set(base, remote, cache).contains(k) ==> !after.contains_key(k),
        forall|k: Seq<char>|
            !analyze_set(base, remote, cache, version).contains(k) && !remove_set(
                base,
                remote,
                cache,
            ).contains(k) ==> (#[trigger] after.contains_key(k) == cache.contains_key(k)) && (
            cache.contains_key(k) ==> after[k] == cache[k]),
    ensures
        analyze_set(base, remote, after, version) == Set::<Seq<char>>::empty(),
        remove_set(base, remote, after) == Set::<Seq<char>>::empty(),
{
    assert forall|k: Seq<char>| !analyze_set(base, remote, after, version).contains(k) by {
        if remote_keys(base, remote).contains(k) {
            if analyze_set(base, remote, cache, version).contains(k) {
            } else {
                assert(!remove_set(base, remote, cache).contains(k));
                assert(after.contains_key(k) == cache.contains_key(k));
            }
        }
    }
    assert forall|k: Seq<char>| !remove_set(base, remote, after).contains(k) by {
        if after.contains_key(k) && !remote_keys(base, remote).contains(k) {
            if !analyze_set(base, remote, cache, version).contains(k) && !remove_set(
                base,
                remote,
                cache,
            ).contains(k) {
                assert(after.contains_key(k) == cache.contains_key(k));
            }
        }
    }
    assert(analyze_set(base, remote, after, version) =~= Set::<Seq<char>>::empty());
    assert(remove_set(base, remote, after) =~= Set::<Seq<char>>::empty());
}

/// An entry in another format version whose key the remote library still
/// has is analyzed again, and not dropped.
pub proof fn lemma_stale_entry_reanalyzed<F>(
    base: Seq<char>,
    remote: Seq<String>,
    cache: Map<Seq<char>, CacheEntry<F>>,
    version: u32,
    k: Seq<char>,
)
    requires
        cache.contains_key(k),
        cache[k].format_version != version,
        remote_keys(base, remote).contains(k),
    ensures
        analyze_set(base, remote, cache, version).contains(k),
        !remove_set(base, remote, cache).contains(k),
{
}

} // verus!
