//! Builds a playlist from a seed, one pick at a time. Distances are
//! computed outside (they are floating point): each step takes them as
//! order keys, one per pool entry, where a smaller key means closer. For a
//! non-negative `f32` distance the bits of the float are such a key.
use vstd::prelude::*;
use crate::cache::{CacheEntry, FeatureCache};
use crate::queue::{contains_path, paths_of};

verus! {

#[derive(Debug, PartialEq, Eq, Structural, Clone, Copy)]
pub enum PlaylistError {
    /// There is no seed ("play something first").
    NoAnchor,
    /// The seed has no usable analysis.
    NotAnalyzed,
}

/// The cache entry to seed a playlist with: there must be an anchor, and
/// the cache must hold an analysis of it.
pub fn seed_from_cache<'a, F>(cache: &'a FeatureCache<F>, anchor_key: Option<&str>) -> (r: Result<
    &'a CacheEntry<F>,
    PlaylistError,
>)
    requires
        cache.wf(),
    ensures
        r matches Err(PlaylistError::NoAnchor) <==> anchor_key is None,
        r matches Err(PlaylistError::NotAnalyzed) <==> (anchor_key matches Some(k) && !(
        cache@.contains_key(k@) && cache@[k@].analyzed)),
        r matches Ok(e) ==> *e == cache@[anchor_key->Some_0@] && e.analyzed,
{
    let k = match anchor_key {
        Some(k) => k,
        None => {
            return Err(PlaylistError::NoAnchor);
        },
    };
    match cache.get(k) {
        Some(e) => if e.analyzed {
            Ok(e)
        } else {
            Err(PlaylistError::NotAnalyzed)
        },
        None => Err(PlaylistError::NotAnalyzed),
    }
}

/// Two entries are the same track when both have a title and an artist and
/// these agree.
pub open spec fn same_tags(
    t1: Option<String>,
    a1: Option<String>,
    t2: Option<String>,
    a2: Option<String>,
) -> bool {
    &&& t1 matches Some(x1)
    &&& t2 matches Some(x2)
    &&& a1 matches Some(y1)
    &&& a2 matches Some(y2)
    &&& x1@ == x2@
    &&& y1@ == y2@
}

fn tags_equal(
    t1: &Option<String>,
    a1: &Option<String>,
    t2: &Option<String>,
    a2: &Option<String>,
) -> (r: bool)
    ensures
        r == same_tags(*t1, *a1, *t2, *a2),
{
    match (t1, t2, a1, a2) {
        (Some(x1), Some(x2), Some(y1), Some(y2)) => *x1 == *x2 && *y1 == *y2,
        _ => false,
    }
}

/// `(key, index)` of `i` comes before or with that of `j`.
pub open spec fn ranks_first(scores: Seq<u32>, i: int, j: int) -> bool {
    scores[i] < scores[j] || (scores[i] == scores[j] && i <= j)
}

/// The state of a playlist under construction: the anchor, the pool of
/// candidates, which of them can no longer be picked, and the picks so far.
pub struct PlaylistBuilder {
    anchor: Option<String>,
    limit: usize,
    paths: Vec<String>,
    titles: Vec<Option<String>>,
    artists: Vec<Option<String>>,
    excluded: Vec<bool>,
    selected: Vec<usize>,
    dedup: bool,
    threshold: u32,
}

fn clone_opt(o: &Option<String>) -> (r: Option<String>)
    ensures
        r == *o,
{
    match o {
        Some(s) => Some(s.clone()),
        None => None,
    }
}

impl PlaylistBuilder {
    /// The seed that heads the playlist, where there is a single one.
    pub closed spec fn anchor_path(&self) -> Option<Seq<char>> {
        match self.anchor {
            Some(a) => Some(a@),
            None => None,
        }
    }

    pub closed spec fn limit(&self) -> nat {
        self.limit as nat
    }

    pub closed spec fn pool_paths(&self) -> Seq<String> {
        self.paths@
    }

    pub closed spec fn titles(&self) -> Seq<Option<String>> {
        self.titles@
    }

    pub closed spec fn artists(&self) -> Seq<Option<String>> {
        self.artists@
    }

    /// Which pool entries can no longer be picked.
    pub closed spec fn excluded(&self) -> Seq<bool> {
        self.excluded@
    }

    /// The picks so far, as pool positions, in order.
    pub closed spec fn picks(&self) -> Seq<usize> {
        self.selected@
    }

    pub closed spec fn dedup(&self) -> bool {
        self.dedup
    }

    pub closed spec fn threshold(&self) -> u32 {
        self.threshold
    }

    /// How many picks fit: a single seed takes one place of the limit.
    pub open spec fn capacity(&self) -> nat {
        if self.anchor_path() is None {
            self.limit()
        } else if self.limit() == 0 {
            0
        } else {
            (self.limit() - 1) as nat
        }
    }

    pub closed spec fn wf(&self) -> bool {
        &&& self.titles@.len() == self.paths@.len()
        &&& self.artists@.len() == self.paths@.len()
        &&& self.excluded@.len() == self.paths@.len()
        &&& forall|i: int| 0 <= i < self.selected@.len() ==> #[trigger] self.selected@[i] < self.paths@.len()
        &&& self.selected@.len() <= self.capacity()
    }

    /// The pool entries `i` and `j` are the same track by their tags.
    pub open spec fn tag_dup(&self, i: int, j: int) -> bool {
        same_tags(self.titles()[i], self.artists()[i], self.titles()[j], self.artists()[j])
    }

    /// Starts a playlist from `seed` over `pool`, holding at most `limit`
    /// entries with the seed first. Entries without analysis and entries with
    /// the seed's path are never picked. With `dedup` set, the seed counts as
    /// selected: entries with its title and artist are never picked, and a
    /// pick rules out the entries with its own title and artist, and those
    /// that `exclude_near` reports closer than `threshold`.
    pub fn from_seed<F>(
        seed: Option<&CacheEntry<F>>,
        pool: &Vec<CacheEntry<F>>,
        limit: usize,
        dedup: bool,
        threshold: u32,
    ) -> (r: Result<PlaylistBuilder, PlaylistError>)
        ensures
            r matches Err(PlaylistError::NoAnchor) <==> seed is None,
            r matches Err(PlaylistError::NotAnalyzed) <==> (seed matches Some(s) && !s.analyzed),
            r matches Ok(b) ==> {
                &&& b.wf()
                &&& b.anchor_path() == Some(seed->Some_0.path@)
                &&& b.limit() == limit
                &&& b.dedup() == dedup
                &&& b.threshold() == threshold
                &&& b.picks().len() == 0
                &&& b.pool_paths().len() == pool.len()
                &&& b.excluded().len() == pool.len()
                &&& b.titles().len() == pool.len()
                &&& b.artists().len() == pool.len()
                &&& forall|i: int|
                    0 <= i < pool.len() ==> #[trigger] b.pool_paths()[i] == pool@[i].path
                        && b.titles()[i] == pool@[i].metadata.title && b.artists()[i]
                        == pool@[i].metadata.artist && b.excluded()[i] == (!pool@[i].analyzed
                        || pool@[i].path@ == seed->Some_0.path@ || (dedup && same_tags(
                        pool@[i].metadata.title,
                        pool@[i].metadata.artist,
                        seed->Some_0.metadata.title,
                        seed->Some_0.metadata.artist,
                    )))
            },
    {
        let seed = match seed {
            Some(s) => s,
            None => {
                return Err(PlaylistError::NoAnchor);
            },
        };
        if !seed.analyzed {
            return Err(PlaylistError::NotAnalyzed);
        }
        let mut paths: Vec<String> = Vec::new();
        let mut titles: Vec<Option<String>> = Vec::new();
        let mut artists: Vec<Option<String>> = Vec::new();
        let mut excluded: Vec<bool> = Vec::new();
        let mut i: usize = 0;
        while i < pool.len()
            invariant
                i <= pool.len(),
                paths@.len() == i,
                titles@.len() == i,
                artists@.len() == i,
                excluded@.len() == i,
                forall|j: int| 0 <= j < i ==> #[trigger] paths@[j] == pool@[j].path,
                forall|j: int| 0 <= j < i ==> #[trigger] titles@[j] == pool@[j].metadata.title,
                forall|j: int| 0 <= j < i ==> #[trigger] artists@[j] == pool@[j].metadata.artist,
                forall|j: int|
                    0 <= j < i ==> #[trigger] excluded@[j] == (!pool@[j].analyzed || pool@[j].path@
                        == seed.path@ || (dedup && same_tags(
                        pool@[j].metadata.title,
                        pool@[j].metadata.artist,
                        seed.metadata.title,
                        seed.metadata.artist,
                    ))),
            decreases pool.len() - i,
        {
            let e = &pool[i];
            paths.push(e.path.clone());
            titles.push(clone_opt(&e.metadata.title));
            artists.push(clone_opt(&e.metadata.artist));
            excluded.push(
                !e.analyzed || e.path == seed.path || (dedup && tags_equal(
                    &e.metadata.title,
                    &e.metadata.artist,
                    &seed.metadata.title,
                    &seed.metadata.artist,
                )),
            );
            assert(paths@[i as int] == pool@[i as int].path);
            assert(titles@[i as int] == pool@[i as int].metadata.title);
            assert(artists@[i as int] == pool@[i as int].metadata.artist);
            i = i + 1;
        }
        Ok(
            PlaylistBuilder {
                anchor: Some(seed.path.clone()),
                limit,
                paths,
                titles,
                artists,
                excluded,
                selected: Vec::new(),
                dedup,
                threshold,
            },
        )
    }

    /// Picks the entry with the smallest key among those not ruled out (the
    /// first of them on a tie), unless the playlist is full or none is left.
    /// A pick is ruled out from then on; with dedup set, so is every entry
    /// with its title and artist.
    pub fn pick(&mut self, scores: &Vec<u32>) -> (r: Option<usize>)
        requires
            old(self).wf(),
            scores.len() == old(self).pool_paths().len(),
        ensures
            final(self).wf(),
            final(self).anchor_path() == old(self).anchor_path(),
            final(self).limit() == old(self).limit(),
            final(self).pool_paths() == old(self).pool_paths(),
            final(self).titles() == old(self).titles(),
            final(self).artists() == old(self).artists(),
            final(self).dedup() == old(self).dedup(),
            final(self).threshold() == old(self).threshold(),
            final(self).excluded().len() == old(self).excluded().len(),
            old(self).excluded().len() == old(self).pool_paths().len(),
            old(self).titles().len() == old(self).pool_paths().len(),
            old(self).artists().len() == old(self).pool_paths().len(),
            r is None <==> old(self).picks().len() >= old(self).capacity() || forall|j: int|
                0 <= j < old(self).excluded().len() ==> #[trigger] old(self).excluded()[j],
            r is None ==> final(self).picks() == old(self).picks() && final(self).excluded()
                == old(self).excluded(),
            r matches Some(i) ==> {
                &&& i < scores.len()
                &&& !old(self).excluded()[i as int]
                &&& forall|j: int|
                    0 <= j < scores.len() && !(#[trigger] old(self).excluded()[j]) ==> ranks_first(
                        scores@,
                        i as int,
                        j,
                    )
                &&& final(self).picks() == old(self).picks().push(i)
                &&& final(self).excluded().len() == old(self).excluded().len()
                &&& forall|j: int|
                    0 <= j < scores.len() ==> #[trigger] final(self).excluded()[j] == (old(
                        self,
                    ).excluded()[j] || j == i || (old(self).dedup() && old(self).tag_dup(
                        j,
                        i as int,
                    )))
            },
    {
        let cap: usize = if self.anchor.is_none() {
            self.limit
        } else if self.limit == 0 {
            0
        } else {
            self.limit - 1
        };
        if self.selected.len() >= cap {
            return None;
        }
        let mut best: Option<usize> = None;
        let mut j: usize = 0;
        while j < scores.len()
            invariant
                self.wf(),
                scores.len() == self.paths@.len(),
                j <= scores.len(),
                best is None ==> forall|k: int| 0 <= k < j ==> #[trigger] self.excluded@[k],
                best matches Some(b) ==> b < j && !self.excluded@[b as int] && forall|k: int|
                    0 <= k < j && !(#[trigger] self.excluded@[k]) ==> ranks_first(
                        scores@,
                        b as int,
                        k,
                    ),
            decreases scores.len() - j,
        {
            if !self.excluded[j] {
                match best {
                    None => {
                        best = Some(j);
                    },
                    Some(b) => {
                        if scores[j] < scores[b] {
                            best = Some(j);
                        }
                    },
                }
            }
            j = j + 1;
        }
        let i = match best {
            Some(i) => i,
            None => {
                return None;
            },
        };
        assert(!old(self).excluded()[i as int]);
        self.selected.push(i);
        assert forall|m: int| 0 <= m < self.selected@.len() implies #[trigger] self.selected@[m] < self.paths@.len() by {
            if m < old(self).selected@.len() {
                assert(self.selected@[m] == old(self).selected@[m]);
            }
        }
        let ghost old_ex = self.excluded@;
        let mut k: usize = 0;
        while k < self.excluded.len()
            invariant
                self.titles@.len() == self.paths@.len(),
                self.artists@.len() == self.paths@.len(),
                self.excluded@.len() == self.paths@.len(),
                old_ex.len() == self.paths@.len(),
                i < self.paths@.len(),
                self.titles@ == old(self).titles@,
                self.artists@ == old(self).artists@,
                self.dedup == old(self).dedup,
                self.threshold == old(self).threshold,
                self.anchor == old(self).anchor,
                self.limit == old(self).limit,
                self.paths@ == old(self).paths@,
                self.selected@ == old(self).selected@.push(i),
                forall|m: int| 0 <= m < self.selected@.len() ==> #[trigger] self.selected@[m] < self.paths@.len(),
                k <= self.excluded@.len(),
                forall|m: int|
                    0 <= m < k ==> #[trigger] self.excluded@[m] == (old_ex[m] || m == i || (
                    self.dedup && self.tag_dup(m, i as int))),
                forall|m: int| k <= m < self.excluded@.len() ==> #[trigger] self.excluded@[m] == old_ex[m],
            decreases self.excluded.len() - k,
        {
            let dup = self.dedup && self.tags_match(k, i);
            if k == i || dup {
                self.excluded.set(k, true);
            }
            k = k + 1;
        }
        Some(i)
    }

    fn tags_match(&self, i: usize, j: usize) -> (r: bool)
        requires
            self.titles@.len() == self.paths@.len(),
            self.artists@.len() == self.paths@.len(),
            i < self.paths@.len(),
            j < self.paths@.len(),
        ensures
            r == self.tag_dup(i as int, j as int),
    {
        match (&self.titles[i], &self.titles[j], &self.artists[i], &self.artists[j]) {
            (Some(t1), Some(t2), Some(a1), Some(a2)) => *t1 == *t2 && *a1 == *a2,
            _ => false,
        }
    }

    /// With dedup set, rules out every entry whose key is under the
    /// threshold; `distances` are the keys of the distances from the latest
    /// pick to each pool entry.
    pub fn exclude_near(&mut self, distances: &Vec<u32>)
        requires
            old(self).wf(),
            distances.len() == old(self).pool_paths().len(),
        ensures
            final(self).wf(),
            final(self).anchor_path() == old(self).anchor_path(),
            final(self).limit() == old(self).limit(),
            final(self).pool_paths() == old(self).pool_paths(),
            final(self).titles() == old(self).titles(),
            final(self).artists() == old(self).artists(),
            final(self).dedup() == old(self).dedup(),
            final(self).threshold() == old(self).threshold(),
            final(self).picks() == old(self).picks(),
            final(self).excluded().len() == old(self).excluded().len(),
            old(self).excluded().len() == old(self).pool_paths().len(),
            forall|j: int|
                0 <= j < distances.len() ==> #[trigger] final(self).excluded()[j] == (old(
                    self,
                ).excluded()[j] || (old(self).dedup() && distances@[j] < old(self).threshold())),
    {
        if !self.dedup {
            return;
        }
        let mut k: usize = 0;
        while k < distances.len()
            invariant
                self.wf(),
                distances.len() == self.paths@.len(),
                self.dedup == old(self).dedup,
                self.threshold == old(self).threshold,
                self.paths@ == old(self).paths@,
                self.titles@ == old(self).titles@,
                self.artists@ == old(self).artists@,
                self.selected@ == old(self).selected@,
                self.anchor == old(self).anchor,
                self.limit == old(self).limit,
                self.dedup,
                k <= distances.len(),
                forall|m: int|
                    0 <= m < k ==> #[trigger] self.excluded@[m] == (old(self).excluded@[m]
                        || distances@[m] < self.threshold),
                forall|m: int|
                    k <= m < distances.len() ==> #[trigger] self.excluded@[m] == old(self).excluded@[m],
            decreases distances.len() - k,
        {
            if distances[k] < self.threshold {
                self.excluded.set(k, true);
            }
            k = k + 1;
        }
    }

    /// The picks so far, as pool positions, in order.
    pub fn selected(&self) -> (r: &Vec<usize>)
        ensures
            r@ == self.picks(),
    {
        &self.selected
    }

    /// The playlist: the single seed, if any, then the picks; empty where
    /// the limit is 0.
    pub fn target(&self) -> (r: Vec<String>)
        requires
            self.wf(),
        ensures
            self.limit() == 0 ==> r@.len() == 0,
            self.anchor_path() is None ==> r@.len() == self.picks().len() && forall|i: int|
                0 <= i < self.picks().len() ==> #[trigger] r@[i] == self.pool_paths()[self.picks()[i] as int],
            self.anchor_path() is Some && self.limit() > 0 ==> r@.len() == self.picks().len() + 1
                && r@[0]@ == self.anchor_path()->Some_0 && forall|i: int|
                0 <= i < self.picks().len() ==> #[trigger] r@[i + 1] == self.pool_paths()[self.picks()[i] as int],
    {
        let mut r: Vec<String> = Vec::new();
        if self.limit == 0 {
            return r;
        }
        let off: usize = match &self.anchor {
            Some(a) => {
                r.push(a.clone());
                1
            },
            None => 0,
        };
        let mut i: usize = 0;
        while i < self.selected.len()
            invariant
                self.wf(),
                i <= self.selected.len(),
                r@.len() == i + off,
                off == (if self.anchor is Some { 1usize } else { 0usize }),
                self.anchor matches Some(a) ==> r@[0]@ == a@,
                forall|m: int| 0 <= m < i ==> #[trigger] r@[m + off] == self.paths@[self.selected@[m] as int],
            decreases self.selected.len() - i,
        {
            r.push(self.paths[self.selected[i]].clone());
            i = i + 1;
        }
        proof {
            if self.anchor is None {
                assert forall|m: int| 0 <= m < self.selected@.len() implies #[trigger] r@[m] == self.paths@[self.selected@[m] as int] by {
                    assert(r@[m + off] == self.paths@[self.selected@[m] as int]);
                }
            }
        }
        r
    }
}

/// Starts a playlist that continues a whole queue: `seeds` are the queue's
/// cache keys, each of which must hold an analysis. The playlist holds at
/// most `count` picks and none of the seeds; entries without analysis are
/// never picked.
pub fn from_seeds<F>(
    cache: &FeatureCache<F>,
    seeds: &Vec<String>,
    pool: &Vec<CacheEntry<F>>,
    count: usize,
    dedup: bool,
    threshold: u32,
) -> (r: Result<PlaylistBuilder, PlaylistError>)
    requires
        cache.wf(),
    ensures
        r matches Err(PlaylistError::NoAnchor) <==> seeds.len() == 0,
        r matches Err(PlaylistError::NotAnalyzed) <==> seeds.len() > 0 && exists|i: int|
            0 <= i < seeds.len() && !(cache@.contains_key(#[trigger] seeds@[i]@) && cache@[seeds@[i]@].analyzed),
        r matches Ok(b) ==> {
            &&& b.wf()
            &&& b.anchor_path() is None
            &&& b.limit() == count
            &&& b.dedup() == dedup
            &&& b.threshold() == threshold
            &&& b.picks().len() == 0
            &&& b.pool_paths().len() == pool.len()
            &&& b.excluded().len() == pool.len()
            &&& b.titles().len() == pool.len()
            &&& b.artists().len() == pool.len()
            &&& forall|i: int|
                0 <= i < pool.len() ==> #[trigger] b.pool_paths()[i] == pool@[i].path
                    && b.titles()[i] == pool@[i].metadata.title && b.artists()[i]
                    == pool@[i].metadata.artist && b.excluded()[i] == (!pool@[i].analyzed
                    || paths_of(seeds@).contains(pool@[i].path@))
        },
{
    if seeds.len() == 0 {
        return Err(PlaylistError::NoAnchor);
    }
    let mut i: usize = 0;
    while i < seeds.len()
        invariant
            cache.wf(),
            i <= seeds.len(),
            forall|j: int|
                0 <= j < i ==> cache@.contains_key(#[trigger] seeds@[j]@) && cache@[seeds@[j]@].analyzed,
        decreases seeds.len() - i,
    {
        match cache.get(seeds[i].as_str()) {
            Some(e) => {
                if !e.analyzed {
                    return Err(PlaylistError::NotAnalyzed);
                }
            },
            None => {
                return Err(PlaylistError::NotAnalyzed);
            },
        }
        i = i + 1;
    }
    let mut paths: Vec<String> = Vec::new();
    let mut titles: Vec<Option<String>> = Vec::new();
    let mut artists: Vec<Option<String>> = Vec::new();
    let mut excluded: Vec<bool> = Vec::new();
    let mut i: usize = 0;
    while i < pool.len()
        invariant
            i <= pool.len(),
            paths@.len() == i,
            titles@.len() == i,
            artists@.len() == i,
            excluded@.len() == i,
            forall|j: int| 0 <= j < i ==> #[trigger] paths@[j] == pool@[j].path,
            forall|j: int| 0 <= j < i ==> #[trigger] titles@[j] == pool@[j].metadata.title,
            forall|j: int| 0 <= j < i ==> #[trigger] artists@[j] == pool@[j].metadata.artist,
            forall|j: int|
                0 <= j < i ==> #[trigger] excluded@[j] == (!pool@[j].analyzed || paths_of(
                    seeds@,
                ).contains(pool@[j].path@)),
        decreases pool.len() - i,
    {
        let e = &pool[i];
        paths.push(e.path.clone());
        titles.push(clone_opt(&e.metadata.title));
        artists.push(clone_opt(&e.metadata.artist));
        excluded.push(!e.analyzed || contains_path(seeds, &e.path));
        i = i + 1;
    }
    Ok(
        PlaylistBuilder {
            anchor: None,
            limit: count,
            paths,
            titles,
            artists,
            excluded,
            selected: Vec::new(),
            dedup,
            threshold,
        },
    )
}

} // verus!
