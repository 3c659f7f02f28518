//! Canonical paths: the remote library addresses each track of a cue sheet
//! (or of a flac file with an embedded one) as `<container>/trackNNNN`,
//! while the cache keys it as `<base>/<container>/CUE_TRACKNNN`.
use vstd::prelude::*;
use crate::cache::CacheEntry;
use crate::text::{
    ascii_lower, chars_of, decimal_digits, eq_ignore_case, parse_decimal, parse_spec, push_char,
    push_chars, push_zero_padded, starts_with_ignore_case, string_of, zero_padded,
};

verus! {

#[derive(Debug, PartialEq, Eq, Structural, Clone, Copy)]
pub enum PathError {
    /// A cue track whose track number is not recorded.
    MissingTrackNumber,
    /// A path that does not lie under the library's base path.
    OutsideBase,
}

/// A remote path split into the file it lives in and, for a track of a cue
/// sheet, its track number.
#[derive(Debug)]
pub struct RemotePath {
    pub container: String,
    pub track: Option<usize>,
}

/// The position of the last `/` of `s`, or -1.
pub open spec fn last_slash(s: Seq<char>) -> int
    decreases s.len(),
{
    if s.len() == 0 {
        -1
    } else if s.last() == '/' {
        s.len() - 1
    } else {
        last_slash(s.drop_last())
    }
}

pub open spec fn track_word() -> Seq<char> {
    seq!['t', 'r', 'a', 'c', 'k']
}

pub open spec fn cue_suffix() -> Seq<char> {
    seq!['.', 'c', 'u', 'e']
}

pub open spec fn flac_suffix() -> Seq<char> {
    seq!['.', 'f', 'l', 'a', 'c']
}

pub open spec fn ends_with_ignore_case(s: Seq<char>, pat: Seq<char>) -> bool {
    s.len() >= pat.len() && eq_ignore_case(s.subrange(s.len() - pat.len(), s.len() as int), pat)
}

/// `s` is `<container>/track<n>`, its container a `.cue` or `.flac` file,
/// the marker in any ASCII case, and `n` a number that fits a `usize`.
pub open spec fn is_virtual_track(s: Seq<char>) -> bool {
    let i = last_slash(s);
    &&& i >= 0
    &&& i + 6 <= s.len()
    &&& eq_ignore_case(s.subrange(i + 1, i + 6), track_word())
    &&& (ends_with_ignore_case(s.subrange(0, i), cue_suffix()) || ends_with_ignore_case(
        s.subrange(0, i),
        flac_suffix(),
    ))
    &&& parse_spec(s.subrange(i + 6, s.len() as int)) is Some
}

/// The digits after the track marker of a virtual track path.
pub open spec fn track_digits(s: Seq<char>) -> Seq<char> {
    s.subrange(last_slash(s) + 6, s.len() as int)
}

pub open spec fn track_container(s: Seq<char>) -> Seq<char> {
    s.subrange(0, last_slash(s))
}

/// `rel` taken relative to `base`, as `Path::join` does on Unix.
pub open spec fn join_spec(base: Seq<char>, rel: Seq<char>) -> Seq<char> {
    if base.len() == 0 || (rel.len() > 0 && rel[0] == '/') {
        rel
    } else if base.last() == '/' {
        base + rel
    } else {
        base.push('/') + rel
    }
}

pub open spec fn cue_track_word() -> Seq<char> {
    seq!['/', 'C', 'U', 'E', '_', 'T', 'R', 'A', 'C', 'K']
}

pub open spec fn remote_track_word() -> Seq<char> {
    seq!['/', 't', 'r', 'a', 'c', 'k']
}

/// The cache key of the remote path `s` under `base`.
pub open spec fn cache_key_spec(base: Seq<char>, s: Seq<char>) -> Seq<char> {
    if is_virtual_track(s) {
        join_spec(base, track_container(s)) + cue_track_word() + zero_padded(
            parse_spec(track_digits(s))->Some_0 as nat,
            3,
        )
    } else {
        join_spec(base, s)
    }
}

/// `full` relative to `base`, where `base` is a whole leading part of it.
pub open spec fn strip_base_spec(base: Seq<char>, full: Seq<char>) -> Option<Seq<char>> {
    if base.len() == 0 {
        Some(full)
    } else {
        let b = if base.last() == '/' {
            base.drop_last()
        } else {
            base
        };
        if full == b {
            Some(Seq::empty())
        } else if full.len() > b.len() && full.take(b.len() as int) == b && full[b.len() as int]
            == '/' {
            Some(full.skip(b.len() + 1 as int))
        } else {
            None
        }
    }
}

proof fn lemma_last_slash_bounds(s: Seq<char>)
    ensures
        -1 <= last_slash(s) < s.len(),
    decreases s.len(),
{
    if s.len() > 0 {
        lemma_last_slash_bounds(s.drop_last());
    }
}

/// The position of the last `/` of `cs`.
fn find_last_slash(cs: &Vec<char>) -> (r: Option<usize>)
    ensures
        r is None <==> last_slash(cs@) == -1,
        r matches Some(i) ==> i == last_slash(cs@) && i < cs.len(),
{
    proof {
        lemma_last_slash_bounds(cs@);
    }
    let mut i: usize = cs.len();
    assert(cs@.take(i as int) =~= cs@);
    while i > 0
        invariant
            i <= cs.len(),
            last_slash(cs@) == last_slash(cs@.take(i as int)),
        decreases i,
    {
        assert(cs@.take(i as int).drop_last() =~= cs@.take(i - 1 as int));
        if cs[i - 1] == '/' {
            return Some(i - 1);
        }
        i = i - 1;
    }
    None
}

fn word(w: &str) -> (r: Vec<char>)
    ensures
        r@ == w@,
{
    chars_of(w)
}

/// Whether `cs[..end]` ends with the lower-case `pat`, ignoring ASCII case.
fn ends_with_ci(cs: &Vec<char>, end: usize, pat: &Vec<char>) -> (r: bool)
    requires
        end <= cs.len(),
    ensures
        r == ends_with_ignore_case(cs@.subrange(0, end as int), pat@),
{
    if pat.len() > end {
        return false;
    }
    let r = starts_with_ignore_case(cs, end - pat.len(), pat);
    assert(cs@.subrange(0, end as int).subrange(end - pat.len(), end as int) =~= cs@.subrange(
        end - pat.len(),
        end as int,
    ));
    r
}

/// Splits a remote path into its container and, for a virtual track of a
/// cue sheet (`<file>.cue/trackNNNN`, `<file>.flac/trackNNNN`, the marker in
/// any ASCII case), its track number. Any other path, one whose track
/// number is not a number among them, is its own container.
pub fn normalize(remote: &str) -> (r: RemotePath)
    ensures
        !is_virtual_track(remote@) ==> r.container@ == remote@ && r.track is None,
        is_virtual_track(remote@) ==> r.container@ == track_container(remote@) && r.track
            == parse_spec(track_digits(remote@)),
{
    proof {
        reveal_strlit("track");
        reveal_strlit(".cue");
        reveal_strlit(".flac");
    }
    let cs = chars_of(remote);
    let whole = RemotePath { container: string_of(&cs, 0, cs.len()), track: None };
    assert(cs@.subrange(0, cs.len() as int) =~= cs@);
    let i = match find_last_slash(&cs) {
        Some(i) => i,
        None => {
            return whole;
        },
    };
    let track = word("track");
    if !(starts_with_ignore_case(&cs, i + 1, &track)) {
        return whole;
    }
    let cue = word(".cue");
    let flac = word(".flac");
    if !(ends_with_ci(&cs, i, &cue) || ends_with_ci(&cs, i, &flac)) {
        return whole;
    }
    match parse_decimal(&cs, i + 6, cs.len()) {
        Some(n) => RemotePath { container: string_of(&cs, 0, i), track: Some(n) },
        None => whole,
    }
}

/// Append `rel` to `base` as `Path::join` does on Unix.
pub fn join(base: &str, rel: &str) -> (r: String)
    ensures
        r@ == join_spec(base@, rel@),
{
    let b = chars_of(base);
    let rc = chars_of(rel);
    let mut s = String::new();
    if b.len() == 0 || (rc.len() > 0 && rc[0] == '/') {
        push_chars(&mut s, &rc, 0, rc.len());
    } else {
        push_chars(&mut s, &b, 0, b.len());
        if b[b.len() - 1] != '/' {
            push_char(&mut s, '/');
        }
        push_chars(&mut s, &rc, 0, rc.len());
    }
    assert(b@.subrange(0, b.len() as int) =~= b@);
    assert(rc@.subrange(0, rc.len() as int) =~= rc@);
    assert(s@ =~= join_spec(base@, rel@));
    s
}

/// The cache key of a path reported by the remote library: the path under
/// `base`, where a cue track becomes `<base>/<container>/CUE_TRACKNNN`
/// (the track number with at least three digits).
pub fn cache_key(base: &str, remote: &str) -> (r: String)
    ensures
        r@ == cache_key_spec(base@, remote@),
{
    let rp = normalize(remote);
    let mut key = join(base, rp.container.as_str());
    if let Some(n) = rp.track {
        let w = word("/CUE_TRACK");
        proof {
            reveal_strlit("/CUE_TRACK");
        }
        push_chars(&mut key, &w, 0, w.len());
        assert(w@.subrange(0, w.len() as int) =~= w@);
        push_zero_padded(&mut key, n, 3);
    }
    key
}

/// The file to analyze for a remote path: its container (the cue sheet of
/// a cue track) under `base`.
pub fn analysis_source(base: &str, remote: &str) -> (r: String)
    ensures
        r@ == join_spec(
            base@,
            if is_virtual_track(remote@) {
                track_container(remote@)
            } else {
                remote@
            },
        ),
{
    let rp = normalize(remote);
    join(base, rp.container.as_str())
}

/// Whether `a[at..]` starts with all of `b`.
fn starts_with_at(a: &Vec<char>, at: usize, b: &Vec<char>, blen: usize) -> (r: bool)
    requires
        at <= a.len(),
        blen <= b.len(),
    ensures
        r == (at + blen <= a.len() && a@.subrange(at as int, at + blen as int) == b@.take(
            blen as int,
        )),
{
    if blen > a.len() - at {
        return false;
    }
    let mut j: usize = 0;
    while j < blen
        invariant
            at + blen <= a.len(),
            blen <= b.len(),
            j <= blen,
            forall|k: int| 0 <= k < j ==> a@[at + k] == b@[k],
        decreases blen - j,
    {
        if a[at + j] != b[j] {
            assert(a@.subrange(at as int, at + blen as int)[j as int] != b@.take(blen as int)[j as int]);
            return false;
        }
        j = j + 1;
    }
    assert(a@.subrange(at as int, at + blen as int) =~= b@.take(blen as int));
    true
}

/// `full` relative to `base`, where `base` is a whole leading part of it.
pub fn strip_base(base: &str, full: &str) -> (r: Option<String>)
    ensures
        r is Some == strip_base_spec(base@, full@) is Some,
        r matches Some(s) ==> s@ == strip_base_spec(base@, full@)->Some_0,
{
    let b = chars_of(base);
    let f = chars_of(full);
    if b.len() == 0 {
        assert(f@.subrange(0, f.len() as int) =~= f@);
        return Some(string_of(&f, 0, f.len()));
    }
    let blen = if b[b.len() - 1] == '/' {
        b.len() - 1
    } else {
        b.len()
    };
    let ghost bb = if base@.last() == '/' {
        base@.drop_last()
    } else {
        base@
    };
    assert(b@.take(blen as int) =~= bb);
    if f.len() == blen && starts_with_at(&f, 0, &b, blen) {
        assert(f@ =~= f@.subrange(0, blen as int));
        return Some(String::new());
    }
    assert(f@ == bb ==> f@.subrange(0, blen as int) =~= f@);
    if f.len() > blen && starts_with_at(&f, 0, &b, blen) && f[blen] == '/' {
        assert(f@.take(blen as int) =~= f@.subrange(0, blen as int));
        let s = string_of(&f, blen + 1, f.len());
        assert(f@.subrange(blen + 1 as int, f.len() as int) =~= f@.skip(blen + 1 as int));
        return Some(s);
    }
    assert(f@.len() > blen && f@.take(blen as int) == bb ==> f@.take(blen as int) =~= f@.subrange(
        0,
        blen as int,
    ));
    None
}

/// The remote library's full path of a cached entry: a cue track is
/// `<cue sheet>/trackNNNN` (at least four digits), which needs its track
/// number; anything else is its own key.
pub open spec fn remote_full_path<F>(e: CacheEntry<F>) -> Option<Seq<char>> {
    match e.container {
        Some(c) => match e.metadata.track_number {
            Some(n) => Some(c@ + remote_track_word() + zero_padded(n as nat, 4)),
            None => None,
        },
        None => Some(e.path@),
    }
}

/// The path under which the remote library knows a cached entry, relative
/// to `base`. A cue track without a track number cannot be addressed, and
/// an entry outside `base` is not the remote library's.
pub fn remote_path<F>(entry: &CacheEntry<F>, base: &str) -> (r: Result<String, PathError>)
    ensures
        r matches Err(PathError::MissingTrackNumber) <==> remote_full_path(*entry) is None,
        r matches Err(PathError::OutsideBase) <==> (remote_full_path(*entry) matches Some(full)
            && strip_base_spec(base@, full) is None),
        r matches Ok(s) ==> s@ == strip_base_spec(base@, remote_full_path(*entry)->Some_0)->Some_0,
{
    let full = match &entry.container {
        Some(c) => match entry.metadata.track_number {
            Some(n) => {
                let mut f = c.clone();
                let w = word("/track");
                proof {
                    reveal_strlit("/track");
                }
                push_chars(&mut f, &w, 0, w.len());
                assert(w@.subrange(0, w.len() as int) =~= w@);
                assert(w@ =~= remote_track_word());
                push_zero_padded(&mut f, n, 4);
                assert(f@ =~= c@ + remote_track_word() + zero_padded(n as nat, 4));
                f
            },
            None => {
                return Err(PathError::MissingTrackNumber);
            },
        },
        None => entry.path.clone(),
    };
    assert(remote_full_path(*entry) == Some(full@));
    match strip_base(base, full.as_str()) {
        Some(s) => Ok(s),
        None => Err(PathError::OutsideBase),
    }
}

} // verus!
