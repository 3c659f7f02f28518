//! The cache of analysis results, keyed by canonical path.
use vstd::prelude::*;

verus! {

/// What the analysis reports of a track besides its features.
#[derive(Debug)]
pub struct Metadata {
    pub title: Option<String>,
    pub artist: Option<String>,
    pub album: Option<String>,
    pub track_number: Option<usize>,
    pub genre: Option<String>,
    pub duration_secs: u64,
}

/// One cached analysis. `F` is the feature value type, opaque here. An
/// analyzed entry holds exactly as many features as its cache asks for; an
/// entry for a failed analysis holds none, and the error in `error`.
#[derive(Debug)]
pub struct CacheEntry<F> {
    pub path: String,
    pub features: Vec<F>,
    pub metadata: Metadata,
    pub analyzed: bool,
    pub format_version: u32,
    /// The cue sheet a cue track was read from, with its full path.
    pub container: Option<String>,
    pub error: Option<String>,
}

#[derive(Debug, PartialEq, Eq, Structural, Clone, Copy)]
pub enum CacheError {
    /// The entry's feature count does not fit its `analyzed` flag.
    WrongFeatureCount,
}

/// An analyzed entry holds `n` features; any other holds none.
pub open spec fn entry_ok<F>(e: CacheEntry<F>, n: nat) -> bool {
    if e.analyzed {
        e.features.len() == n
    } else {
        e.features.len() == 0
    }
}

/// The cache: at most one entry per path.
pub struct FeatureCache<F> {
    entries: Vec<CacheEntry<F>>,
    number_features: usize,
    model: Ghost<Map<Seq<char>, CacheEntry<F>>>,
}

impl<F> FeatureCache<F> {
    /// The entries, by path.
    pub closed spec fn view(&self) -> Map<Seq<char>, CacheEntry<F>> {
        self.model@
    }

    /// How many features an analyzed entry holds.
    pub closed spec fn feature_count(&self) -> nat {
        self.number_features as nat
    }

    pub closed spec fn wf(&self) -> bool {
        &&& forall|i: int|
            0 <= i < self.entries.len() ==> #[trigger] self.model@.contains_key(
                self.entries@[i].path@,
            ) && self.model@[self.entries@[i].path@] == self.entries@[i]
        &&& forall|k: Seq<char>| #[trigger]
            self.model@.contains_key(k) ==> exists|i: int|
                0 <= i < self.entries.len() && #[trigger] self.entries@[i].path@ == k
        &&& forall|i: int, j: int|
            0 <= i < self.entries.len() && 0 <= j < self.entries.len() && i != j
                ==> #[trigger] self.entries@[i].path@ != #[trigger] self.entries@[j].path@
        &&& forall|i: int|
            0 <= i < self.entries.len() ==> entry_ok(
                #[trigger] self.entries@[i],
                self.number_features as nat,
            )
    }

    /// An empty cache whose analyzed entries hold `number_features` features.
    pub fn new(number_features: usize) -> (r: Self)
        ensures
            r.wf(),
            r@ == Map::<Seq<char>, CacheEntry<F>>::empty(),
            r.feature_count() == number_features,
    {
        FeatureCache { entries: Vec::new(), number_features, model: Ghost(Map::empty()) }
    }

    pub fn number_features(&self) -> (r: usize)
        ensures
            r == self.feature_count(),
    {
        self.number_features
    }

    /// Where the entry for `path` stands.
    fn position(&self, path: &str) -> (r: Option<usize>)
        requires
            self.wf(),
        ensures
            r matches Some(i) ==> i < self.entries.len() && self.entries@[i as int].path@ == path@,
            r is None ==> !self@.contains_key(path@),
    {
        let key = String::from_str(path);
        let mut i: usize = 0;
        while i < self.entries.len()
            invariant
                i <= self.entries.len(),
                key@ == path@,
                forall|j: int| 0 <= j < i ==> self.entries@[j].path@ != path@,
            decreases self.entries.len() - i,
        {
            if self.entries[i].path == key {
                return Some(i);
            }
            i = i + 1;
        }
        proof {
            if self@.contains_key(path@) {
                let j = choose|j: int|
                    0 <= j < self.entries.len() && #[trigger] self.entries@[j].path@ == path@;
            }
        }
        None
    }

    /// The entry for `path`, if any.
    pub fn get(&self, path: &str) -> (r: Option<&CacheEntry<F>>)
        requires
            self.wf(),
        ensures
            r is Some <==> self@.contains_key(path@),
            r matches Some(e) ==> *e == self@[path@],
    {
        match self.position(path) {
            Some(i) => {
                assert(self.model@.contains_key(self.entries@[i as int].path@));
                Some(&self.entries[i])
            },
            None => None,
        }
    }

    /// Every entry, each path once.
    pub fn all(&self) -> (r: &Vec<CacheEntry<F>>)
        requires
            self.wf(),
        ensures
            forall|i: int|
                0 <= i < r.len() ==> #[trigger] self@.contains_key(r@[i].path@) && self@[r@[i].path@]
                    == r@[i],
            forall|k: Seq<char>| #[trigger]
                self@.contains_key(k) ==> exists|i: int| 0 <= i < r.len() && #[trigger] r@[i].path@ == k,
            forall|i: int, j: int|
                0 <= i < r.len() && 0 <= j < r.len() && i != j ==> #[trigger] r@[i].path@
                    != #[trigger] r@[j].path@,
    {
        assert forall|i: int| 0 <= i < self.entries.len() implies #[trigger] self@.contains_key(
            self.entries@[i].path@,
        ) && self@[self.entries@[i].path@] == self.entries@[i] by {
            assert(self.model@.contains_key(self.entries@[i].path@));
        }
        &self.entries
    }

    /// Insert `entry`, or replace the entry for its path as a whole.
    pub fn upsert(&mut self, entry: CacheEntry<F>) -> (r: Result<(), CacheError>)
        requires
            old(self).wf(),
        ensures
            final(self).wf(),
            final(self).feature_count() == old(self).feature_count(),
            r is Ok <==> entry_ok(entry, old(self).feature_count()),
            r is Ok ==> final(self)@ == old(self)@.insert(entry.path@, entry),
            r is Err ==> final(self)@ == old(self)@,
    {
        let ok = if entry.analyzed {
            entry.features.len() == self.number_features
        } else {
            entry.features.len() == 0
        };
        if !ok {
            return Err(CacheError::WrongFeatureCount);
        }
        let ghost k = entry.path@;
        let ghost e = entry;
        let ghost old_model = self.model@;
        match self.position(entry.path.as_str()) {
            Some(i) => {
                self.entries.set(i, entry);
                self.model = Ghost(old_model.insert(k, e));
                assert forall|j: int| 0 <= j < self.entries.len() implies #[trigger] self.model@.contains_key(
                    self.entries@[j].path@,
                ) && self.model@[self.entries@[j].path@] == self.entries@[j] by {
                    if j != i {
                        assert(self.entries@[j] == old(self).entries@[j]);
                        assert(old(self).entries@[j].path@ != old(self).entries@[i as int].path@);
                    }
                }
                assert forall|a: int, b: int|
                    0 <= a < self.entries.len() && 0 <= b < self.entries.len() && a != b
                        implies #[trigger] self.entries@[a].path@ != #[trigger] self.entries@[b].path@ by {
                    assert(old(self).entries@[a].path@ != old(self).entries@[b].path@);
                }
                assert forall|j: int| 0 <= j < self.entries.len() implies entry_ok(
                    #[trigger] self.entries@[j],
                    self.number_features as nat,
                ) by {
                    if j != i {
                        assert(self.entries@[j] == old(self).entries@[j]);
                    }
                }
                assert forall|kk: Seq<char>| #[trigger]
                    self.model@.contains_key(kk) implies exists|j: int|
                        0 <= j < self.entries.len() && #[trigger] self.entries@[j].path@ == kk by {
                    if kk == k {
                        assert(self.entries@[i as int].path@ == kk);
                    } else {
                        let j = choose|j: int|
                            0 <= j < old(self).entries.len() && #[trigger] old(self).entries@[j].path@
                                == kk;
                        assert(self.entries@[j].path@ == kk);
                    }
                }
            },
            None => {
                self.entries.push(entry);
                self.model = Ghost(old_model.insert(k, e));
                let ghost n = self.entries.len() - 1;
                assert forall|j: int| 0 <= j < self.entries.len() implies #[trigger] self.model@.contains_key(
                    self.entries@[j].path@,
                ) && self.model@[self.entries@[j].path@] == self.entries@[j] by {
                    if j != n {
                        assert(self.entries@[j] == old(self).entries@[j]);
                    }
                }
                assert forall|a: int, b: int|
                    0 <= a < self.entries.len() && 0 <= b < self.entries.len() && a != b
                        implies #[trigger] self.entries@[a].path@ != #[trigger] self.entries@[b].path@ by {
                    if a != n && b != n {
                        assert(old(self).entries@[a].path@ != old(self).entries@[b].path@);
                    } else if a == n {
                        assert(old(self).entries@[b].path@ != k);
                    } else {
                        assert(old(self).entries@[a].path@ != k);
                    }
                }
                assert forall|j: int| 0 <= j < self.entries.len() implies entry_ok(
                    #[trigger] self.entries@[j],
                    self.number_features as nat,
                ) by {
                    if j != n {
                        assert(self.entries@[j] == old(self).entries@[j]);
                    }
                }
                assert forall|kk: Seq<char>| #[trigger]
                    self.model@.contains_key(kk) implies exists|j: int|
                        0 <= j < self.entries.len() && #[trigger] self.entries@[j].path@ == kk by {
                    if kk == k {
                        assert(self.entries@[n].path@ == kk);
                    } else {
                        let j = choose|j: int|
                            0 <= j < old(self).entries.len() && #[trigger] old(self).entries@[j].path@
                                == kk;
                        assert(self.entries@[j].path@ == kk);
                    }
                }
            },
        }
        Ok(())
    }

    /// Remove the entry for `path`; says whether there was one.
    pub fn delete(&mut self, path: &str) -> (r: bool)
        requires
            old(self).wf(),
        ensures
            final(self).wf(),
            final(self).feature_count() == old(self).feature_count(),
            r == old(self)@.contains_key(path@),
            final(self)@ == old(self)@.remove(path@),
    {
        let ghost old_model = self.model@;
        match self.position(path) {
            Some(i) => {
                let _ = self.entries.remove(i);
                self.model = Ghost(old_model.remove(path@));
                assert forall|j: int| 0 <= j < self.entries.len() implies #[trigger] self.model@.contains_key(
                    self.entries@[j].path@,
                ) && self.model@[self.entries@[j].path@] == self.entries@[j] by {
                    if j < i {
                        assert(self.entries@[j] == old(self).entries@[j]);
                    } else {
                        assert(self.entries@[j] == old(self).entries@[j + 1]);
                    }
                }
                assert forall|kk: Seq<char>| #[trigger]
                    self.model@.contains_key(kk) implies exists|j: int|
                        0 <= j < self.entries.len() && #[trigger] self.entries@[j].path@ == kk by {
                    let j = choose|j: int|
                        0 <= j < old(self).entries.len() && #[trigger] old(self).entries@[j].path@
                            == kk;
                    if j < i {
                        assert(self.entries@[j].path@ == kk);
                    } else {
                        assert(self.entries@[j - 1].path@ == kk);
                    }
                }
                assert forall|a: int, b: int|
                    0 <= a < self.entries.len() && 0 <= b < self.entries.len() && a != b
                        implies #[trigger] self.entries@[a].path@ != #[trigger] self.entries@[b].path@ by {
                    let oa = if a < i { a } else { a + 1 };
                    let ob = if b < i { b } else { b + 1 };
                    assert(self.entries@[a] == old(self).entries@[oa]);
                    assert(self.entries@[b] == old(self).entries@[ob]);
                }
                assert forall|j: int| 0 <= j < self.entries.len() implies entry_ok(
                    #[trigger] self.entries@[j],
                    self.number_features as nat,
                ) by {
                    if j < i {
                        assert(self.entries@[j] == old(self).entries@[j]);
                    } else {
                        assert(self.entries@[j] == old(self).entries@[j + 1]);
                    }
                }
                true
            },
            None => {
                assert(self.model@ =~= old_model.remove(path@));
                false
            },
        }
    }
}

/// Storing an analyzed entry that holds the cache's feature count, then
/// looking its path up, gives back that entry: `upsert` accepts it, `get`
/// then finds it, and its features are exactly the ones stored, as many as
/// the cache asks for. `after` is the cache as `upsert` leaves it.
pub proof fn lemma_upsert_then_get<F>(
    before: FeatureCache<F>,
    entry: CacheEntry<F>,
    after: FeatureCache<F>,
)
    requires
        before.wf(),
        entry.analyzed,
        entry.features.len() == before.feature_count(),
        entry_ok(entry, before.feature_count()) ==> after@ == before@.insert(entry.path@, entry)
            && after.feature_count() == before.feature_count(),
    ensures
        entry_ok(entry, before.feature_count()),
        after@.contains_key(entry.path@),
        after@[entry.path@] == entry,
        after@[entry.path@].features@ == entry.features@,
        after@[entry.path@].features.len() == after.feature_count(),
{
}

} // verus!
