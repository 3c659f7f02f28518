//! The album-grouped playlist: whole albums in a given rank order, each in
//! track order.
use vstd::prelude::*;
use crate::cache::CacheEntry;
use crate::queue::paths_of;
use crate::text::chars_of;

verus! {

/// `a` comes before `b`, or equals it, character by character.
pub open spec fn lex_le(a: Seq<char>, b: Seq<char>) -> bool
    decreases a.len(),
{
    if a.len() == 0 {
        true
    } else if b.len() == 0 {
        false
    } else if a[0] != b[0] {
        a[0] < b[0]
    } else {
        lex_le(a.drop_first(), b.drop_first())
    }
}

proof fn lemma_lex_total(a: Seq<char>, b: Seq<char>)
    ensures
        lex_le(a, b) || lex_le(b, a),
    decreases a.len(),
{
    if a.len() > 0 && b.len() > 0 && a[0] == b[0] {
        lemma_lex_total(a.drop_first(), b.drop_first());
    }
}

proof fn lemma_lex_trans(a: Seq<char>, b: Seq<char>, c: Seq<char>)
    requires
        lex_le(a, b),
        lex_le(b, c),
    ensures
        lex_le(a, c),
    decreases a.len(),
{
    if a.len() > 0 && b.len() > 0 && c.len() > 0 && a[0] == b[0] && b[0] == c[0] {
        lemma_lex_trans(a.drop_first(), b.drop_first(), c.drop_first());
    }
}

/// Track order: by track number, an entry without one first; on a tie, by
/// path.
pub open spec fn track_le(t1: Option<usize>, p1: Seq<char>, t2: Option<usize>, p2: Seq<char>) -> bool {
    match (t1, t2) {
        (None, Some(_)) => true,
        (Some(_), None) => false,
        (Some(x), Some(y)) => x < y || (x == y && lex_le(p1, p2)),
        (None, None) => lex_le(p1, p2),
    }
}

pub open spec fn entry_le<F>(a: CacheEntry<F>, b: CacheEntry<F>) -> bool {
    track_le(a.metadata.track_number, a.path@, b.metadata.track_number, b.path@)
}

proof fn lemma_entry_total<F>(a: CacheEntry<F>, b: CacheEntry<F>)
    ensures
        entry_le(a, b) || entry_le(b, a),
{
    lemma_lex_total(a.path@, b.path@);
}

proof fn lemma_entry_trans<F>(a: CacheEntry<F>, b: CacheEntry<F>, c: CacheEntry<F>)
    requires
        entry_le(a, b),
        entry_le(b, c),
    ensures
        entry_le(a, c),
{
    if lex_le(a.path@, b.path@) && lex_le(b.path@, c.path@) {
        lemma_lex_trans(a.path@, b.path@, c.path@);
    }
}

/// Where `name` first stands among `ranked`, or `ranked.len()`.
pub open spec fn rank_in(ranked: Seq<Seq<char>>, name: Seq<char>) -> nat
    decreases ranked.len(),
{
    if ranked.len() == 0 {
        0
    } else if ranked[0] == name {
        0
    } else {
        1 + rank_in(ranked.drop_first(), name)
    }
}

/// The rank of an entry's album; an entry without album ranks last.
pub open spec fn album_rank<F>(ranked: Seq<String>, e: CacheEntry<F>) -> nat {
    match e.metadata.album {
        Some(a) => rank_in(paths_of(ranked), a@),
        None => ranked.len(),
    }
}

proof fn lemma_rank_in(ranked: Seq<Seq<char>>, name: Seq<char>, a: int)
    requires
        0 <= a <= ranked.len(),
        forall|j: int| 0 <= j < a ==> ranked[j] != name,
    ensures
        a < ranked.len() && ranked[a] == name ==> rank_in(ranked, name) == a,
        rank_in(ranked, name) >= a,
        rank_in(ranked, name) <= ranked.len(),
        rank_in(ranked, name) < ranked.len() ==> ranked[rank_in(ranked, name) as int] == name,
    decreases a,
{
    lemma_rank_bounds(ranked, name);
    if a > 0 {
        lemma_rank_in(ranked.drop_first(), name, a - 1);
    }
}

proof fn lemma_rank_bounds(ranked: Seq<Seq<char>>, name: Seq<char>)
    ensures
        rank_in(ranked, name) <= ranked.len(),
        rank_in(ranked, name) < ranked.len() ==> ranked[rank_in(ranked, name) as int] == name,
        forall|j: int| 0 <= j < rank_in(ranked, name) ==> ranked[j] != name,
    decreases ranked.len(),
{
    if ranked.len() > 0 && ranked[0] != name {
        lemma_rank_bounds(ranked.drop_first(), name);
        assert forall|j: int| 0 <= j < rank_in(ranked, name) implies ranked[j] != name by {
            if j > 0 {
                assert(ranked[j] == ranked.drop_first()[j - 1]);
            }
        }
    }
}

/// Whether `a` comes before `b`, or equals it, character by character.
fn path_le(a: &String, b: &String) -> (r: bool)
    ensures
        r == lex_le(a@, b@),
{
    let x = chars_of(a.as_str());
    let y = chars_of(b.as_str());
    let mut i: usize = 0;
    assert(x@.skip(0) =~= x@);
    assert(y@.skip(0) =~= y@);
    while i < x.len() && i < y.len() && x[i] == y[i]
        invariant
            i <= x.len(),
            i <= y.len(),
            lex_le(x@, y@) == lex_le(x@.skip(i as int), y@.skip(i as int)),
        decreases x.len() - i,
    {
        assert(x@.skip(i as int).drop_first() =~= x@.skip(i + 1 as int));
        assert(y@.skip(i as int).drop_first() =~= y@.skip(i + 1 as int));
        i = i + 1;
    }
    if i == x.len() {
        true
    } else if i == y.len() {
        false
    } else {
        x[i] < y[i]
    }
}

/// How many entries of `s` are false.
pub open spec fn count_false(s: Seq<bool>) -> nat
    decreases s.len(),
{
    if s.len() == 0 {
        0
    } else {
        count_false(s.drop_last()) + if s.last() {
            0nat
        } else {
            1nat
        }
    }
}

proof fn lemma_count_false_set(s: Seq<bool>, i: int)
    requires
        0 <= i < s.len(),
        !s[i],
    ensures
        count_false(s.update(i, true)) + 1 == count_false(s),
    decreases s.len(),
{
    if i < s.len() - 1 {
        lemma_count_false_set(s.drop_last(), i);
        assert(s.update(i, true).drop_last() =~= s.drop_last().update(i, true));
    } else {
        assert(s.update(i, true).drop_last() =~= s.drop_last());
    }
}

/// `a` stands before `b` in an album playlist: an album of better rank,
/// or the same album and track order.
pub open spec fn in_order<F>(ranked: Seq<String>, a: CacheEntry<F>, b: CacheEntry<F>) -> bool {
    album_rank(ranked, a) < album_rank(ranked, b) || (album_rank(ranked, a) == album_rank(ranked, b)
        && entry_le(a, b))
}

/// How many of the ranked albums the playlist takes: the seed's album and
/// `album_count` more, as far as there are.
pub open spec fn albums_taken(n: nat, album_count: nat) -> nat {
    if album_count < n {
        album_count + 1
    } else {
        n
    }
}

fn entry_before<F>(a: &CacheEntry<F>, b: &CacheEntry<F>) -> (r: bool)
    ensures
        r == entry_le(*a, *b),
{
    match (a.metadata.track_number, b.metadata.track_number) {
        (None, Some(_)) => true,
        (Some(_), None) => false,
        (Some(x), Some(y)) => x < y || (x == y && path_le(&a.path, &b.path)),
        (None, None) => path_le(&a.path, &b.path),
    }
}

fn album_is<F>(e: &CacheEntry<F>, name: &String) -> (r: bool)
    ensures
        r == (e.metadata.album matches Some(a) && a@ == name@),
{
    match &e.metadata.album {
        Some(a) => *a == *name,
        None => false,
    }
}

/// Whether `ranked[a]` already stands earlier in `ranked`.
fn seen_before(ranked: &Vec<String>, a: usize) -> (r: bool)
    requires
        a < ranked.len(),
    ensures
        r == exists|j: int| 0 <= j < a && #[trigger] ranked@[j]@ == ranked@[a as int]@,
{
    let mut j: usize = 0;
    while j < a
        invariant
            j <= a < ranked.len(),
            forall|m: int| 0 <= m < j ==> #[trigger] ranked@[m]@ != ranked@[a as int]@,
        decreases a - j,
    {
        if ranked[j] == ranked[a] {
            return true;
        }
        j = j + 1;
    }
    false
}

/// Arranges the analyzed entries of `pool` into an album playlist: the
/// albums of `ranked` in that order (the seed's album first, then
/// `album_count` more), each album's entries in track order. Returns pool
/// positions.
pub fn album_sequence<F>(ranked: &Vec<String>, pool: &Vec<CacheEntry<F>>, album_count: usize) -> (r:
    Vec<usize>)
    ensures
        r@.no_duplicates(),
        forall|x: int| 0 <= x < r.len() ==> #[trigger] r@[x] < pool.len(),
        forall|i: usize|
            #![trigger r@.contains(i)]
            r@.contains(i) <==> (i < pool.len() && pool@[i as int].analyzed && album_rank(
                ranked@,
                pool@[i as int],
            ) < albums_taken(ranked.len() as nat, album_count as nat)),
        forall|x: int, y: int|
            0 <= x < y < r.len() ==> in_order(
                ranked@,
                pool@[#[trigger] r@[x] as int],
                pool@[#[trigger] r@[y] as int],
            ),
{
    let n = pool.len();
    let k = if album_count < ranked.len() {
        album_count + 1
    } else {
        ranked.len()
    };
    let ghost rk = ranked@;
    let mut taken: Vec<bool> = Vec::new();
    let mut i: usize = 0;
    while i < n
        invariant
            n == pool.len(),
            i <= n,
            taken@.len() == i,
            forall|m: int| 0 <= m < i ==> !#[trigger] taken@[m],
        decreases n - i,
    {
        taken.push(false);
        i = i + 1;
    }
    let mut r: Vec<usize> = Vec::new();
    let mut a: usize = 0;
    while a < k
        invariant
            n == pool.len(),
            k <= ranked.len(),
            k == albums_taken(ranked.len() as nat, album_count as nat),
            a <= k,
            taken@.len() == n,
            r@.no_duplicates(),
            forall|x: int| 0 <= x < r.len() ==> #[trigger] r@[x] < n,
            forall|m: int| 0 <= m < n ==> (#[trigger] taken@[m] <==> r@.contains(m as usize)),
            forall|m: int|
                0 <= m < n ==> (#[trigger] taken@[m] <==> (pool@[m].analyzed && album_rank(
                    ranked@,
                    pool@[m],
                ) < a)),
            forall|x: int, y: int|
                0 <= x < y < r.len() ==> in_order(
                    ranked@,
                    pool@[#[trigger] r@[x] as int],
                    pool@[#[trigger] r@[y] as int],
                ),
        decreases k - a,
    {
        proof {
            lemma_rank_in(paths_of(ranked@), ranked@[a as int]@, 0);
        }
        if seen_before(ranked, a) {
            proof {
                assert forall|m: int| 0 <= m < n implies (#[trigger] taken@[m] <==> (
                pool@[m].analyzed && album_rank(ranked@, pool@[m]) < a + 1)) by {
                    if pool@[m].metadata.album is Some {
                        let al = pool@[m].metadata.album->Some_0;
                        lemma_rank_bounds(paths_of(ranked@), al@);
                        if album_rank(ranked@, pool@[m]) == a {
                            let j = choose|j: int| 0 <= j < a && #[trigger] ranked@[j]@ == ranked@[a as int]@;
                            assert(paths_of(ranked@)[a as int] == al@);
                            assert(paths_of(ranked@)[j] == al@);
                        }
                    }
                }
            }
        } else {
            assert forall|x: int| 0 <= x < r.len() implies album_rank(ranked@, pool@[#[trigger] r@[x] as int]) < a by {
                assert(r@.contains(r@[x]));
                assert(taken@[r@[x] as int]);
            }
            // Take the album's entries, smallest in track order first.
            loop
                invariant_except_break
                    n == pool.len(),
                    a < k <= ranked.len(),
                    taken@.len() == n,
                    forall|j: int| 0 <= j < a ==> #[trigger] ranked@[j]@ != ranked@[a as int]@,
                    r@.no_duplicates(),
                    forall|x: int| 0 <= x < r.len() ==> #[trigger] r@[x] < n,
                    forall|m: int| 0 <= m < n ==> (#[trigger] taken@[m] <==> r@.contains(m as usize)),
                    forall|m: int|
                        0 <= m < n ==> (#[trigger] taken@[m] ==> (pool@[m].analyzed && album_rank(
                            ranked@,
                            pool@[m],
                        ) <= a)),
                    forall|m: int|
                        0 <= m < n && pool@[m].analyzed && album_rank(ranked@, pool@[m]) < a
                            ==> #[trigger] taken@[m],
                    forall|x: int, y: int|
                        0 <= x < y < r.len() ==> in_order(
                            ranked@,
                            pool@[#[trigger] r@[x] as int],
                            pool@[#[trigger] r@[y] as int],
                        ),
                    forall|x: int, m: int|
                        0 <= x < r.len() && 0 <= m < n && album_rank(ranked@, pool@[r@[x] as int])
                            == a && !taken@[m] && pool@[m].analyzed && album_rank(ranked@, pool@[m])
                            == a ==> entry_le(pool@[#[trigger] r@[x] as int], #[trigger] pool@[m]),
                invariant
                    n == pool.len(),
                    a < k <= ranked.len(),
                    taken@.len() == n,
                    r@.no_duplicates(),
                    forall|x: int| 0 <= x < r.len() ==> #[trigger] r@[x] < n,
                    forall|m: int| 0 <= m < n ==> (#[trigger] taken@[m] <==> r@.contains(m as usize)),
                    forall|x: int, y: int|
                        0 <= x < y < r.len() ==> in_order(
                            ranked@,
                            pool@[#[trigger] r@[x] as int],
                            pool@[#[trigger] r@[y] as int],
                        ),
                ensures
                    forall|m: int|
                        0 <= m < n ==> (#[trigger] taken@[m] <==> (pool@[m].analyzed && album_rank(
                            ranked@,
                            pool@[m],
                        ) < a + 1)),
                decreases count_false(taken@),
            {
                let mut best: usize = n;
                let mut m: usize = 0;
                while m < n
                    invariant
                        n == pool.len(),
                        a < ranked.len(),
                        taken@.len() == n,
                        m <= n,
                        best <= n,
                        best < n ==> best < m && !taken@[best as int] && pool@[best as int].analyzed
                            && (pool@[best as int].metadata.album matches Some(al) && al@
                            == ranked@[a as int]@),
                        forall|j: int|
                            0 <= j < m && !taken@[j] && pool@[j].analyzed && (
                            #[trigger] pool@[j].metadata.album matches Some(al) && al@
                                == ranked@[a as int]@) ==> best < n && entry_le(
                                pool@[best as int],
                                pool@[j],
                            ),
                    decreases n - m,
                {
                    if !taken[m] && pool[m].analyzed && album_is(&pool[m], &ranked[a]) {
                        if best == n {
                            best = m;
                            proof {
                                lemma_entry_total(pool@[m as int], pool@[m as int]);
                            }
                        } else if !entry_before(&pool[best], &pool[m]) {
                            proof {
                                lemma_entry_total(pool@[best as int], pool@[m as int]);
                                assert forall|j: int|
                                    0 <= j < m && !taken@[j] && pool@[j].analyzed && (
                                    #[trigger] pool@[j].metadata.album matches Some(al) && al@
                                        == ranked@[a as int]@) implies entry_le(
                                    pool@[m as int],
                                    pool@[j],
                                ) by {
                                    lemma_entry_trans(pool@[m as int], pool@[best as int], pool@[j]);
                                }
                                lemma_entry_total(pool@[m as int], pool@[m as int]);
                            }
                            best = m;
                        }
                    }
                    m = m + 1;
                }
                if best == n {
                    proof {
                        assert forall|mm: int|
                            0 <= mm < n && pool@[mm].analyzed && album_rank(ranked@, pool@[mm]) < a
                                + 1 implies #[trigger] taken@[mm] by {
                            if album_rank(ranked@, pool@[mm]) == a && !taken@[mm] {
                                let al = pool@[mm].metadata.album->Some_0;
                                lemma_rank_bounds(paths_of(ranked@), al@);
                                assert(paths_of(ranked@)[a as int] == al@);
                            }
                        }
                    }
                    break;
                }
                proof {
                    let al = pool@[best as int].metadata.album->Some_0;
                    lemma_rank_in(paths_of(ranked@), al@, a as int);
                    assert(paths_of(ranked@)[a as int] == al@);
                    assert(album_rank(ranked@, pool@[best as int]) == a);
                }
                let ghost old_r = r@;
                let ghost old_taken = taken@;
                r.push(best);
                taken.set(best, true);
                proof {
                    lemma_count_false_set(old_taken, best as int);
                    assert(!old_r.contains(best));
                    assert forall|mm: int| 0 <= mm < n implies (#[trigger] taken@[mm] <==> r@.contains(
                        mm as usize,
                    )) by {
                        if mm == best {
                            assert(r@[old_r.len() as int] == best);
                        } else {
                            if r@.contains(mm as usize) {
                                let x = choose|x: int| 0 <= x < r@.len() && r@[x] == mm as usize;
                                assert(old_r[x] == mm as usize);
                            }
                            if old_r.contains(mm as usize) {
                                let x = choose|x: int| 0 <= x < old_r.len() && old_r[x] == mm as usize;
                                assert(r@[x] == mm as usize);
                            }
                        }
                    }
                    assert forall|x: int| 0 <= x < r.len() implies #[trigger] r@[x] < n by {
                        if x < old_r.len() {
                            assert(r@[x] == old_r[x]);
                        }
                    }
                    assert forall|x: int, y: int|
                        0 <= x < y < r.len() implies in_order(
                            ranked@,
                            pool@[#[trigger] r@[x] as int],
                            pool@[#[trigger] r@[y] as int],
                        ) by {
                        if y == old_r.len() {
                            assert(r@[x] == old_r[x]);
                            let px = pool@[old_r[x] as int];
                            if album_rank(ranked@, px) == a {
                                assert(entry_le(pool@[old_r[x] as int], pool@[best as int]));
                            } else {
                                assert(old_taken[old_r[x] as int]);
                            }
                        } else {
                            assert(r@[x] == old_r[x]);
                            assert(r@[y] == old_r[y]);
                        }
                    }
                    assert forall|x: int, mm: int|
                        0 <= x < r.len() && 0 <= mm < n && album_rank(ranked@, pool@[r@[x] as int])
                            == a && !taken@[mm] && pool@[mm].analyzed && album_rank(
                            ranked@,
                            pool@[mm],
                        ) == a implies entry_le(pool@[#[trigger] r@[x] as int], #[trigger] pool@[mm]) by {
                        let al = pool@[mm].metadata.album->Some_0;
                        lemma_rank_bounds(paths_of(ranked@), al@);
                        assert(paths_of(ranked@)[a as int] == al@);
                        if x == old_r.len() {
                        } else {
                            assert(r@[x] == old_r[x]);
                            assert(old_taken[mm] == taken@[mm]);
                        }
                    }
                }
            }
        }
        a = a + 1;
    }
    proof {
        assert forall|ii: usize| #![trigger r@.contains(ii)]
            r@.contains(ii) <==> (ii < pool.len() && pool@[ii as int].analyzed && album_rank(
                ranked@,
                pool@[ii as int],
            ) < albums_taken(ranked.len() as nat, album_count as nat)) by {
            if r@.contains(ii) {
                let x = choose|x: int| 0 <= x < r@.len() && r@[x] == ii;
                assert(r@[x] < n);
                assert(taken@[ii as int]);
            }
            if ii < n {
                assert(taken@[ii as int] <==> r@.contains(ii));
            }
        }
    }
    r
}

} // verus!
