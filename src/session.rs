//! The interactive playlist: show the closest few candidates to the current
//! anchor, let one key pick the next one, queue it, and go on from it.
use vstd::prelude::*;
use crate::cache::FeatureCache;
use crate::playlist::{ranks_first, seed_from_cache, PlaylistError};

verus! {

/// A key pressed during the session.
#[derive(Debug, PartialEq, Eq, Structural, Clone, Copy)]
pub enum Key {
    Char(char),
    Ctrl(char),
    Other,
}

/// What a key asks for.
#[derive(Debug, PartialEq, Eq, Structural, Clone, Copy)]
pub enum Choice {
    /// The candidate shown under this number (from 1).
    Pick(usize),
    Quit,
    Ignore,
}

pub open spec fn choice_of(key: Key, number_choices: usize) -> Choice {
    match key {
        Key::Char(c) => if c == '1' || c == '\n' {
            Choice::Pick(1)
        } else if '2' <= c && c <= '9' && (c as u32 - '0' as u32) <= number_choices {
            Choice::Pick((c as u32 - '0' as u32) as usize)
        } else if c == 'q' {
            Choice::Quit
        } else {
            Choice::Ignore
        },
        Key::Ctrl(c) => if c == 'c' {
            Choice::Quit
        } else {
            Choice::Ignore
        },
        Key::Other => Choice::Ignore,
    }
}

/// Reads a key: `1` or Enter picks the first candidate, `2` to `9` the
/// candidate of that number where that many are shown, `q` or Ctrl-C quits;
/// any other key is ignored.
pub fn interpret_key(key: Key, number_choices: usize) -> (r: Choice)
    ensures
        r == choice_of(key, number_choices),
{
    match key {
        Key::Char(c) => {
            if c == '1' || c == '\n' {
                Choice::Pick(1)
            } else if '2' <= c && c <= '9' && ((c as u32) - ('0' as u32)) as usize <= number_choices {
                Choice::Pick(((c as u32) - ('0' as u32)) as usize)
            } else if c == 'q' {
                Choice::Quit
            } else {
                Choice::Ignore
            }
        },
        Key::Ctrl(c) => {
            if c == 'c' {
                Choice::Quit
            } else {
                Choice::Ignore
            }
        },
        Key::Other => Choice::Ignore,
    }
}

/// Where a session starts in a queue of `len` items: at the current item,
/// or at the last one when it continues the queue.
pub open spec fn start_position(len: nat, current: Option<usize>, continue_playlist: bool) -> Option<
    usize,
> {
    if continue_playlist {
        if len > 0 {
            Some((len - 1) as usize)
        } else {
            None
        }
    } else {
        current
    }
}

/// Chooses the queue position a session starts from (see
/// `start_position`). It must be in the queue, and the cache must hold an
/// analysis of its key; `queue_keys` are the cache keys of the queue items.
pub fn session_start<F>(
    cache: &FeatureCache<F>,
    queue_keys: &Vec<String>,
    current: Option<usize>,
    continue_playlist: bool,
) -> (r: Result<usize, PlaylistError>)
    requires
        cache.wf(),
    ensures
        r matches Err(PlaylistError::NoAnchor) <==> !(start_position(
            queue_keys.len() as nat,
            current,
            continue_playlist,
        ) matches Some(p) && p < queue_keys.len()),
        r matches Err(PlaylistError::NotAnalyzed) <==> (start_position(
            queue_keys.len() as nat,
            current,
            continue_playlist,
        ) matches Some(p) && p < queue_keys.len() && !(cache@.contains_key(queue_keys@[p as int]@)
            && cache@[queue_keys@[p as int]@].analyzed)),
        r matches Ok(p) ==> Some(p) == start_position(
            queue_keys.len() as nat,
            current,
            continue_playlist,
        ),
{
    let start = if continue_playlist {
        if queue_keys.len() > 0 {
            Some(queue_keys.len() - 1)
        } else {
            None
        }
    } else {
        current
    };
    let p = match start {
        Some(p) => p,
        None => {
            return Err(PlaylistError::NoAnchor);
        },
    };
    if p >= queue_keys.len() {
        return Err(PlaylistError::NoAnchor);
    }
    match seed_from_cache(cache, Some(queue_keys[p].as_str())) {
        Ok(_) => Ok(p),
        Err(e) => Err(e),
    }
}

/// What the caller does after a key.
#[derive(Debug, PartialEq, Eq, Structural, Clone, Copy)]
pub enum SessionAction {
    /// Append this library entry to the play queue; it is the new anchor.
    Append(usize),
    /// The session is over.
    Quit,
    /// Wait for another key.
    Wait,
}

/// The session's state. Library entries are named by their position in the
/// library's list of entries.
pub struct InteractiveSession {
    pool: Vec<usize>,
    playlist: Vec<usize>,
    anchor: usize,
    number_choices: usize,
    shown: Vec<usize>,
    quit: bool,
}

impl InteractiveSession {
    /// Candidates not yet queued, in library order.
    pub closed spec fn pool(&self) -> Seq<usize> {
        self.pool@
    }

    /// What the queue holds, in order.
    pub closed spec fn playlist(&self) -> Seq<usize> {
        self.playlist@
    }

    pub closed spec fn anchor(&self) -> usize {
        self.anchor
    }

    pub closed spec fn number_choices(&self) -> usize {
        self.number_choices
    }

    /// The candidates on display, closest first.
    pub closed spec fn shown(&self) -> Seq<usize> {
        self.shown@
    }

    pub closed spec fn quit(&self) -> bool {
        self.quit
    }

    pub closed spec fn wf(&self) -> bool {
        &&& self.pool@.no_duplicates()
        &&& forall|i: int| 0 <= i < self.shown@.len() ==> self.pool@.contains(#[trigger] self.shown@[i])
    }

    /// Starts from `anchor`, the queue holding `queue`. `analyzed` tells, for
    /// each library entry, whether it has an analysis: every analyzed entry
    /// not in the queue is a candidate.
    pub fn new(analyzed: &Vec<bool>, queue: &Vec<usize>, anchor: usize, number_choices: usize) -> (r:
        InteractiveSession)
        ensures
            r.wf(),
            r.anchor() == anchor,
            r.playlist() == queue@,
            r.number_choices() == number_choices,
            r.shown().len() == 0,
            !r.quit(),
            forall|p: usize|
                r.pool().contains(p) <==> p < analyzed.len() && analyzed@[p as int]
                    && !queue@.contains(p),
            forall|i: int, j: int| 0 <= i < j < r.pool().len() ==> r.pool()[i] < r.pool()[j],
    {
        let library_len = analyzed.len();
        let mut pool: Vec<usize> = Vec::new();
        let mut p: usize = 0;
        while p < library_len
            invariant
                p <= library_len == analyzed.len(),
                forall|q: usize|
                    pool@.contains(q) <==> q < p && analyzed@[q as int] && !queue@.contains(q),
                forall|i: int, j: int| 0 <= i < j < pool@.len() ==> pool@[i] < pool@[j],
                forall|i: int| 0 <= i < pool@.len() ==> pool@[i] < p,
            decreases library_len - p,
        {
            if analyzed[p] && !contains_id(queue, p) {
                let ghost before = pool@;
                pool.push(p);
                assert forall|q: usize|
                    pool@.contains(q) <==> q < p + 1 && analyzed@[q as int] && !queue@.contains(q) by {
                    if q == p {
                        assert(pool@[before.len() as int] == q);
                    }
                    if pool@.contains(q) && q != p {
                        let i = choose|i: int| 0 <= i < pool@.len() && pool@[i] == q;
                        assert(before[i] == q);
                    }
                    if q < p && analyzed@[q as int] && !queue@.contains(q) {
                        let i = choose|i: int| 0 <= i < before.len() && before[i] == q;
                        assert(pool@[i] == q);
                    }
                }
            } else {
                assert forall|q: usize|
                    pool@.contains(q) <==> q < p + 1 && analyzed@[q as int] && !queue@.contains(q) by {
                    if pool@.contains(q) {
                        let i = choose|i: int| 0 <= i < pool@.len() && pool@[i] == q;
                    }
                }
            }
            p = p + 1;
        }
        let mut playlist: Vec<usize> = Vec::new();
        let mut i: usize = 0;
        while i < queue.len()
            invariant
                i <= queue.len(),
                playlist@ == queue@.take(i as int),
            decreases queue.len() - i,
        {
            playlist.push(queue[i]);
            assert(playlist@ =~= queue@.take(i + 1 as int));
            i = i + 1;
        }
        assert(playlist@ =~= queue@);
        InteractiveSession { pool, playlist, anchor, number_choices, shown: Vec::new(), quit: false }
    }

    /// The session is over: the user quit, or no more candidates than can be
    /// shown are left.
    pub fn is_finished(&self) -> (r: bool)
        ensures
            r == (self.quit() || self.pool().len() <= self.number_choices()),
    {
        self.quit || self.pool.len() <= self.number_choices
    }

    /// Ranks the candidates by `distances` (one key per library entry: the
    /// distance to the anchor, smaller is closer; ties go by library
    /// position) and shows the first `number_choices` of them. A candidate
    /// whose key is under `threshold` is a near duplicate of the anchor and
    /// is not shown.
    pub fn present(&mut self, distances: &Vec<u32>, threshold: u32) -> (r: Vec<usize>)
        requires
            old(self).wf(),
            forall|i: int| 0 <= i < old(self).pool().len() ==> #[trigger] old(self).pool()[i] < distances.len(),
        ensures
            final(self).wf(),
            final(self).pool() == old(self).pool(),
            final(self).playlist() == old(self).playlist(),
            final(self).anchor() == old(self).anchor(),
            final(self).number_choices() == old(self).number_choices(),
            final(self).quit() == old(self).quit(),
            r@ == final(self).shown(),
            r@.len() <= old(self).number_choices(),
            r@.no_duplicates(),
            forall|i: int|
                0 <= i < r@.len() ==> old(self).pool().contains(#[trigger] r@[i]) && distances@[r@[i] as int]
                    >= threshold,
            r@.len() < old(self).number_choices() ==> forall|p: usize|
                #[trigger] old(self).pool().contains(p) && distances@[p as int] >= threshold
                    ==> r@.contains(p),
            forall|i: int, j: int|
                0 <= i < j < r@.len() ==> ranks_first(distances@, r@[i] as int, r@[j] as int),
            forall|i: int, p: usize|
                0 <= i < r@.len() && #[trigger] old(self).pool().contains(p) && distances@[p as int]
                    >= threshold && !r@.contains(p) ==> ranks_first(
                    distances@,
                    #[trigger] r@[i] as int,
                    p as int,
                ),
    {
        assert forall|i: int| 0 <= i < self.pool@.len() implies #[trigger] self.pool@[i] < distances.len() by {
            assert(old(self).pool()[i] == self.pool@[i]);
        }
        let cands = self.not_near(distances, threshold);
        let n = cands.len();
        let mut taken: Vec<bool> = Vec::new();
        let mut j: usize = 0;
        while j < n
            invariant
                j <= n,
                taken@.len() == j,
                forall|k: int| 0 <= k < j ==> !#[trigger] taken@[k],
            decreases n - j,
        {
            taken.push(false);
            j = j + 1;
        }
        let mut shown: Vec<usize> = Vec::new();
        while shown.len() < self.number_choices && shown.len() < n
            invariant
                n == cands@.len(),
                cands@.no_duplicates(),
                taken@.len() == n,
                forall|i: int| 0 <= i < cands@.len() ==> #[trigger] cands@[i] < distances.len(),
                shown@.len() <= n,
                shown@.len() <= self.number_choices,
                forall|k: int| 0 <= k < n ==> (#[trigger] taken@[k] <==> shown@.contains(cands@[k])),
                shown@.no_duplicates(),
                forall|i: int| 0 <= i < shown@.len() ==> cands@.contains(#[trigger] shown@[i]),
                forall|i: int, j: int|
                    0 <= i < j < shown@.len() ==> ranks_first(distances@, shown@[i] as int, shown@[j] as int),
                forall|i: int, k: int|
                    0 <= i < shown@.len() && 0 <= k < n && !taken@[k] ==> ranks_first(
                        distances@,
                        #[trigger] shown@[i] as int,
                        #[trigger] cands@[k] as int,
                    ),
                self.number_choices == old(self).number_choices,
            decreases n - shown@.len(),
        {
            // The closest candidate not shown yet.
            let mut best: usize = n;
            let mut k: usize = 0;
            while k < n
                invariant
                    n == cands@.len(),
                    taken@.len() == n,
                    forall|i: int| 0 <= i < cands@.len() ==> #[trigger] cands@[i] < distances.len(),
                    k <= n,
                    best <= n,
                    best == n ==> forall|m: int| 0 <= m < k ==> #[trigger] taken@[m],
                    best < n ==> best < k && !taken@[best as int] && forall|m: int|
                        0 <= m < k && !(#[trigger] taken@[m]) ==> ranks_first(
                            distances@,
                            cands@[best as int] as int,
                            cands@[m] as int,
                        ),
                decreases n - k,
            {
                if !taken[k] {
                    if best == n {
                        best = k;
                    } else {
                        let a = cands[best];
                        let b = cands[k];
                        if distances[b] < distances[a] || (distances[b] == distances[a] && b < a) {
                            best = k;
                        }
                    }
                }
                k = k + 1;
            }
            if best == n {
                // Every candidate is taken: cannot happen while fewer than n are shown.
                proof {
                    lemma_all_taken_all_shown(cands@, taken@, shown@);
                }
                assert(false);
            }
            let ghost before = shown@;
            let ghost taken_before = taken@;
            let c = cands[best];
            shown.push(c);
            taken.set(best, true);
            assert forall|m: int| 0 <= m < n implies (#[trigger] taken@[m] <==> shown@.contains(
                cands@[m],
            )) by {
                if m == best {
                    assert(shown@[before.len() as int] == c);
                } else {
                    assert(cands@[m] != c);
                    if shown@.contains(cands@[m]) {
                        let i = choose|i: int| 0 <= i < shown@.len() && shown@[i] == cands@[m];
                        assert(before[i] == cands@[m]);
                    }
                    if before.contains(cands@[m]) {
                        let i = choose|i: int| 0 <= i < before.len() && before[i] == cands@[m];
                        assert(shown@[i] == cands@[m]);
                    }
                }
            }
            assert(!before.contains(c));
            assert forall|i: int| 0 <= i < shown@.len() implies cands@.contains(#[trigger] shown@[i]) by {
                if i == before.len() {
                    assert(cands@[best as int] == c);
                } else {
                    assert(shown@[i] == before[i]);
                }
            }
            assert forall|i: int, k: int|
                0 <= i < shown@.len() && 0 <= k < n && !taken@[k] implies ranks_first(
                    distances@,
                    #[trigger] shown@[i] as int,
                    #[trigger] cands@[k] as int,
                ) by {
                if i < before.len() {
                    assert(shown@[i] == before[i]);
                    assert(!taken_before[k]);
                }
            }
            assert forall|i: int, j: int|
                0 <= i < j < shown@.len() implies ranks_first(distances@, shown@[i] as int, shown@[j] as int) by {
                if j == before.len() {
                    assert(shown@[i] == before[i]);
                    assert(!taken_before[best as int]);
                }
            }
        }
        proof {
            if shown@.len() < self.number_choices {
                assert(shown@.len() == n);
                assert forall|k: int| 0 <= k < n implies #[trigger] taken@[k] by {
                    lemma_shown_all(cands@, taken@, shown@, k);
                }
                assert forall|p: usize|
                    #[trigger] self.pool@.contains(p) && distances@[p as int] >= threshold implies shown@.contains(p) by {
                    assert(cands@.contains(p));
                    let k = choose|k: int| 0 <= k < n && cands@[k] == p;
                    assert(taken@[k]);
                }
            }
            assert forall|i: int, p: usize|
                0 <= i < shown@.len() && #[trigger] self.pool@.contains(p) && distances@[p as int]
                    >= threshold && !shown@.contains(p) implies ranks_first(
                    distances@,
                    #[trigger] shown@[i] as int,
                    p as int,
                ) by {
                assert(cands@.contains(p));
                let k = choose|k: int| 0 <= k < n && cands@[k] == p;
                assert(!taken@[k]);
            }
            assert forall|i: int| 0 <= i < shown@.len() implies self.pool@.contains(#[trigger] shown@[i]) && distances@[shown@[i] as int] >= threshold by {
                assert(cands@.contains(shown@[i]));
            }
        }
        self.shown = shown.clone();
        assert(self.shown@ =~= shown@);
        shown
    }

    /// The candidates whose key is not under `threshold`, in pool order.
    fn not_near(&self, distances: &Vec<u32>, threshold: u32) -> (r: Vec<usize>)
        requires
            forall|i: int| 0 <= i < self.pool@.len() ==> #[trigger] self.pool@[i] < distances.len(),
            self.pool@.no_duplicates(),
        ensures
            r@.no_duplicates(),
            forall|i: int| 0 <= i < r@.len() ==> #[trigger] r@[i] < distances.len(),
            forall|p: usize|
                r@.contains(p) <==> self.pool@.contains(p) && distances@[p as int] >= threshold,
    {
        let mut r: Vec<usize> = Vec::new();
        let mut i: usize = 0;
        while i < self.pool.len()
            invariant
                i <= self.pool@.len(),
                self.pool@.no_duplicates(),
                forall|k: int| 0 <= k < self.pool@.len() ==> #[trigger] self.pool@[k] < distances.len(),
                r@.no_duplicates(),
                forall|k: int| 0 <= k < r@.len() ==> #[trigger] r@[k] < distances.len(),
                forall|p: usize|
                    r@.contains(p) <==> (exists|k: int| 0 <= k < i && #[trigger] self.pool@[k] == p)
                        && distances@[p as int] >= threshold,
            decreases self.pool@.len() - i,
        {
            let p = self.pool[i];
            let ghost before = r@;
            assert forall|q: usize|
                before.contains(q) <==> (exists|k: int| 0 <= k < i && #[trigger] self.pool@[k] == q)
                    && distances@[q as int] >= threshold by {}
            if distances[p] >= threshold {
                r.push(p);
                assert forall|a: int, b: int| 0 <= a < b < r@.len() implies r@[a] != r@[b] by {
                    if b == before.len() && r@[a] == p {
                        assert(before.contains(p));
                        let k = choose|k: int| 0 <= k < i && #[trigger] self.pool@[k] == p;
                        assert(self.pool@[k] == self.pool@[i as int]);
                    }
                }
            }
            assert forall|q: usize|
                r@.contains(q) <==> (exists|k: int| 0 <= k < i + 1 && #[trigger] self.pool@[k] == q)
                    && distances@[q as int] >= threshold by {
                if q == p && distances@[q as int] >= threshold {
                    assert(r@[r@.len() - 1] == q);
                    assert(self.pool@[i as int] == q);
                }
                if r@.contains(q) && q != p {
                    let x = choose|x: int| 0 <= x < r@.len() && r@[x] == q;
                    assert(before[x] == q);
                }
                if (exists|k: int| 0 <= k < i && #[trigger] self.pool@[k] == q) && distances@[q as int]
                    >= threshold {
                    assert(before.contains(q));
                    let x = choose|x: int| 0 <= x < before.len() && before[x] == q;
                    assert(r@[x] == q);
                }
                if (exists|k: int| 0 <= k < i + 1 && #[trigger] self.pool@[k] == q) && distances@[q as int]
                    >= threshold {
                    let k = choose|k: int| 0 <= k < i + 1 && #[trigger] self.pool@[k] == q;
                    if k == i {
                        assert(q == p);
                        assert(r@[r@.len() - 1] == q);
                    } else {
                        assert(before.contains(q));
                        let x = choose|x: int| 0 <= x < before.len() && before[x] == q;
                        assert(r@[x] == q);
                    }
                }
                if r@.contains(q) {
                    let x = choose|x: int| 0 <= x < r@.len() && r@[x] == q;
                    if x < before.len() {
                        assert(before[x] == q);
                        assert(before.contains(q));
                        let k = choose|k: int| 0 <= k < i && #[trigger] self.pool@[k] == q;
                        assert(self.pool@[k] == q);
                    } else {
                        assert(self.pool@[i as int] == q);
                    }
                }
            }
            i = i + 1;
        }
        assert forall|p: usize|
            r@.contains(p) <==> self.pool@.contains(p) && distances@[p as int] >= threshold by {
            if self.pool@.contains(p) {
                let k = choose|k: int| 0 <= k < self.pool@.len() && self.pool@[k] == p;
            }
        }
        r
    }

    /// Takes one key. A pick of a shown candidate appends it to the
    /// playlist, takes it out of the pool, and makes it the anchor; `q` or
    /// Ctrl-C ends the session; anything else changes nothing.
    pub fn on_key(&mut self, key: Key) -> (r: SessionAction)
        requires
            old(self).wf(),
        ensures
            final(self).wf(),
            final(self).number_choices() == old(self).number_choices(),
            r == SessionAction::Quit <==> choice_of(key, old(self).number_choices()) == Choice::Quit,
            r == SessionAction::Quit ==> final(self).quit() && final(self).pool() == old(self).pool()
                && final(self).playlist() == old(self).playlist(),
            r == SessionAction::Wait ==> *final(self) == *old(self),
            (choice_of(key, old(self).number_choices()) matches Choice::Pick(n) && 1 <= n
                <= old(self).shown().len()) <==> r is Append,
            r matches SessionAction::Append(c) ==> {
                let n = choice_of(key, old(self).number_choices())->Pick_0;
                &&& c == old(self).shown()[n - 1]
                &&& final(self).anchor() == c
                &&& final(self).playlist() == old(self).playlist().push(c)
                &&& final(self).pool() == old(self).pool().remove(old(self).pool().index_of(c))
                &&& final(self).shown().len() == 0
                &&& final(self).quit() == old(self).quit()
            },
    {
        match interpret_key(key, self.number_choices) {
            Choice::Quit => {
                self.quit = true;
                SessionAction::Quit
            },
            Choice::Ignore => SessionAction::Wait,
            Choice::Pick(n) => {
                if n < 1 || n > self.shown.len() {
                    return SessionAction::Wait;
                }
                let c = self.shown[n - 1];
                assert(self.pool@.contains(c));
                let mut i: usize = 0;
                while i < self.pool.len() && self.pool[i] != c
                    invariant
                        i <= self.pool@.len(),
                        self.pool@.contains(c),
                        forall|k: int| 0 <= k < i ==> self.pool@[k] != c,
                    decreases self.pool@.len() - i,
                {
                    i = i + 1;
                }
                proof {
                    if i == self.pool@.len() {
                        let k = choose|k: int| 0 <= k < self.pool@.len() && self.pool@[k] == c;
                    }
                    self.pool@.index_of_first_ensures(c);
                    assert(self.pool@.index_of(c) == i);
                }
                let ghost old_pool = self.pool@;
                self.pool.remove(i);
                assert forall|a: int, b: int|
                    0 <= a < self.pool@.len() && 0 <= b < self.pool@.len() && a != b implies self.pool@[a]
                        != self.pool@[b] by {
                    let oa = if a < i { a } else { a + 1 };
                    let ob = if b < i { b } else { b + 1 };
                    assert(self.pool@[a] == old_pool[oa]);
                    assert(self.pool@[b] == old_pool[ob]);
                }
                self.playlist.push(c);
                self.anchor = c;
                self.shown = Vec::new();
                SessionAction::Append(c)
            },
        }
    }
}

fn contains_id(v: &Vec<usize>, x: usize) -> (r: bool)
    ensures
        r == v@.contains(x),
{
    let mut i: usize = 0;
    while i < v.len()
        invariant
            i <= v.len(),
            forall|k: int| 0 <= k < i ==> v@[k] != x,
        decreases v.len() - i,
    {
        if v[i] == x {
            return true;
        }
        i = i + 1;
    }
    false
}

proof fn lemma_all_taken_all_shown(pool: Seq<usize>, taken: Seq<bool>, shown: Seq<usize>)
    requires
        pool.no_duplicates(),
        taken.len() == pool.len(),
        shown.no_duplicates(),
        shown.len() < pool.len(),
        forall|i: int| 0 <= i < shown.len() ==> pool.contains(#[trigger] shown[i]),
        forall|k: int| 0 <= k < pool.len() ==> (#[trigger] taken[k] <==> shown.contains(pool[k])),
    ensures
        exists|k: int| 0 <= k < pool.len() && !#[trigger] taken[k],
{
    // Every pool entry shown would make the shown list at least as long as the pool.
    if forall|k: int| 0 <= k < pool.len() ==> #[trigger] taken[k] {
        assert forall|x: usize| pool.to_set().contains(x) implies shown.to_set().contains(x) by {
            let k = choose|k: int| 0 <= k < pool.len() && pool[k] == x;
            assert(taken[k]);
        }
        pool.unique_seq_to_set();
        shown.unique_seq_to_set();
        vstd::set_lib::lemma_len_subset(pool.to_set(), shown.to_set());
    }
}

proof fn lemma_shown_all(pool: Seq<usize>, taken: Seq<bool>, shown: Seq<usize>, k: int)
    requires
        pool.no_duplicates(),
        taken.len() == pool.len(),
        shown.no_duplicates(),
        shown.len() == pool.len(),
        0 <= k < pool.len(),
        forall|i: int| 0 <= i < shown.len() ==> pool.contains(#[trigger] shown[i]),
        forall|m: int| 0 <= m < pool.len() ==> (#[trigger] taken[m] <==> shown.contains(pool[m])),
    ensures
        taken[k],
{
    if !taken[k] {
        assert forall|x: usize| shown.to_set().contains(x) implies pool.to_set().remove(
            pool[k],
        ).contains(x) by {
            let i = choose|i: int| 0 <= i < shown.len() && shown[i] == x;
            assert(pool.contains(shown[i]));
        }
        pool.unique_seq_to_set();
        shown.unique_seq_to_set();
        vstd::set_lib::lemma_len_subset(shown.to_set(), pool.to_set().remove(pool[k]));
    }
}

} // verus!
