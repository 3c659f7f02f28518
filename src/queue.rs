//! The remote play queue as a sequence of paths, the primitive edits that
//! can be made to it, and an in-memory queue that performs them.
use vstd::prelude::*;

verus! {

/// One primitive edit of the play queue. Positions are read against the
/// queue as it stands right before the edit.
#[derive(Debug)]
pub enum Mutation {
    /// Remove the items at positions `start..end`; later items shift left.
    DeleteRange { start: usize, end: usize },
    /// Insert `item` at position `pos`; items from `pos` on shift right.
    InsertAt { item: String, pos: usize },
    /// Cut the items at `start..end` out and put them back so that the
    /// first of them lands at position `dest` of the resulting queue.
    MoveRange { start: usize, end: usize, dest: usize },
}

/// The paths of a queue, as character sequences.
pub open spec fn paths_of(v: Seq<String>) -> Seq<Seq<char>> {
    v.map_values(|s: String| s@)
}

/// Whether `m` can be applied to a queue `q`.
pub open spec fn valid_mutation(q: Seq<Seq<char>>, m: Mutation) -> bool {
    match m {
        Mutation::DeleteRange { start, end } => start <= end && end <= q.len(),
        Mutation::InsertAt { item, pos } => pos <= q.len(),
        Mutation::MoveRange { start, end, dest } => start <= end && end <= q.len() && dest + (end
            - start) <= q.len(),
    }
}

/// The queue after `m` is applied to `q` (meaningful where `m` is valid).
pub open spec fn apply_mutation(q: Seq<Seq<char>>, m: Mutation) -> Seq<Seq<char>> {
    match m {
        Mutation::DeleteRange { start, end } => q.subrange(0, start as int) + q.subrange(
            end as int,
            q.len() as int,
        ),
        Mutation::InsertAt { item, pos } => q.insert(pos as int, item@),
        Mutation::MoveRange { start, end, dest } => {
            let rest = q.subrange(0, start as int) + q.subrange(end as int, q.len() as int);
            rest.subrange(0, dest as int) + q.subrange(start as int, end as int) + rest.subrange(
                dest as int,
                rest.len() as int,
            )
        },
    }
}

/// The queue after the mutations `ms` are applied to `q` in order, or `None`
/// where one of them is not valid against the queue it meets.
pub open spec fn run(q: Seq<Seq<char>>, ms: Seq<Mutation>) -> Option<Seq<Seq<char>>>
    decreases ms.len(),
{
    if ms.len() == 0 {
        Some(q)
    } else {
        match run(q, ms.drop_last()) {
            Some(before) => if valid_mutation(before, ms.last()) {
                Some(apply_mutation(before, ms.last()))
            } else {
                None
            },
            None => None,
        }
    }
}

/// The items that the mutations `ms` insert, in order.
pub open spec fn inserted_items(ms: Seq<Mutation>) -> Seq<String>
    decreases ms.len(),
{
    if ms.len() == 0 {
        Seq::empty()
    } else {
        match ms.last() {
            Mutation::InsertAt { item, pos } => inserted_items(ms.drop_last()).push(item),
            _ => inserted_items(ms.drop_last()),
        }
    }
}

pub proof fn lemma_run_push(q: Seq<Seq<char>>, ms: Seq<Mutation>, m: Mutation)
    ensures
        run(q, ms.push(m)) == (match run(q, ms) {
            Some(before) => if valid_mutation(before, m) {
                Some(apply_mutation(before, m))
            } else {
                None
            },
            None => None,
        }),
        inserted_items(ms.push(m)) == (match m {
            Mutation::InsertAt { item, pos } => inserted_items(ms).push(item),
            _ => inserted_items(ms),
        }),
{
    assert(ms.push(m).drop_last() =~= ms);
}

pub proof fn lemma_inserted_items_append(a: Seq<Mutation>, b: Seq<Mutation>)
    ensures
        inserted_items(a + b) == inserted_items(a) + inserted_items(b),
    decreases b.len(),
{
    if b.len() == 0 {
        assert(a + b =~= a);
        assert(inserted_items(b) =~= Seq::<String>::empty());
        assert(inserted_items(a) + inserted_items(b) =~= inserted_items(a));
    } else {
        lemma_inserted_items_append(a, b.drop_last());
        assert((a + b).drop_last() =~= a + b.drop_last());
        assert((a + b).last() == b.last());
        match b.last() {
            Mutation::InsertAt { item, pos } => {
                assert(inserted_items(a) + inserted_items(b.drop_last()).push(item) =~= (
                inserted_items(a) + inserted_items(b.drop_last())).push(item));
            },
            _ => {},
        }
    }
}

/// Whether `s` is among `v`.
pub(crate) fn contains_path(v: &Vec<String>, s: &String) -> (r: bool)
    ensures
        r == paths_of(v@).contains(s@),
{
    let mut i: usize = 0;
    while i < v.len()
        invariant
            i <= v.len(),
            forall|j: int| 0 <= j < i ==> v@[j]@ != s@,
        decreases v.len() - i,
    {
        if v[i] == *s {
            assert(paths_of(v@)[i as int] == s@);
            return true;
        }
        i = i + 1;
    }
    proof {
        if paths_of(v@).contains(s@) {
            let j = choose|j: int| 0 <= j < paths_of(v@).len() && paths_of(v@)[j] == s@;
            assert(v@[j]@ == s@);
        }
    }
    false
}

/// A play queue held in memory, edited by the same primitives as the remote
/// one; it stands in for the remote queue where none is at hand.
pub struct MockMPDClient {
    pub mpd_queue: Vec<String>,
}

/// A primitive edit whose positions do not fit the queue it was applied to.
#[derive(Debug, PartialEq, Eq, Structural, Clone, Copy)]
pub struct MutationError {
    /// Where in the list of mutations the rejected one stands.
    pub index: usize,
}

impl MockMPDClient {
    pub open spec fn view(&self) -> Seq<Seq<char>> {
        paths_of(self.mpd_queue@)
    }

    /// An empty queue.
    pub fn new() -> (r: MockMPDClient)
        ensures
            r.view() == Seq::<Seq<char>>::empty(),
    {
        let r = MockMPDClient { mpd_queue: Vec::new() };
        assert(r.view() =~= Seq::<Seq<char>>::empty());
        r
    }

    /// A queue that holds `items`, in order.
    pub fn from_queue(items: Vec<String>) -> (r: MockMPDClient)
        ensures
            r.view() == paths_of(items@),
    {
        MockMPDClient { mpd_queue: items }
    }

    /// The queue's items.
    pub fn queue(&self) -> (r: &Vec<String>)
        ensures
            paths_of(r@) == self.view(),
    {
        &self.mpd_queue
    }

    /// Append `item` at the end of the queue.
    pub fn push(&mut self, item: String)
        ensures
            final(self).view() == old(self).view().push(item@),
    {
        self.mpd_queue.push(item);
        assert(self.view() =~= old(self).view().push(item@));
    }

    /// Apply one primitive edit; an edit that does not fit leaves the queue
    /// as it was.
    pub fn apply(&mut self, m: &Mutation) -> (r: bool)
        ensures
            r == valid_mutation(old(self).view(), *m),
            r ==> final(self).view() == apply_mutation(old(self).view(), *m),
            !r ==> final(self).view() == old(self).view(),
    {
        let ghost q = self.view();
        let len = self.mpd_queue.len();
        match m {
            Mutation::DeleteRange { start, end } => {
                if !(*start <= *end && *end <= len) {
                    return false;
                }
                let mut tail = self.mpd_queue.split_off(*end);
                self.mpd_queue.truncate(*start);
                self.mpd_queue.append(&mut tail);
                assert(self.view() =~= apply_mutation(q, *m));
                true
            },
            Mutation::InsertAt { item, pos } => {
                if !(*pos <= len) {
                    return false;
                }
                self.mpd_queue.insert(*pos, item.clone());
                assert(self.view() =~= apply_mutation(q, *m));
                true
            },
            Mutation::MoveRange { start, end, dest } => {
                if !(*start <= *end && *end <= len && *dest <= len && *end - *start <= len - *dest) {
                    return false;
                }
                let mut tail = self.mpd_queue.split_off(*end);
                let mut block = self.mpd_queue.split_off(*start);
                self.mpd_queue.append(&mut tail);
                let ghost rest = self.mpd_queue@;
                let mut rest_tail = self.mpd_queue.split_off(*dest);
                self.mpd_queue.append(&mut block);
                self.mpd_queue.append(&mut rest_tail);
                assert(paths_of(rest) =~= q.subrange(0, *start as int) + q.subrange(
                    *end as int,
                    q.len() as int,
                ));
                assert(self.view() =~= apply_mutation(q, *m));
                true
            },
        }
    }

    /// Apply `ms` in order, stopping at the first edit that does not fit.
    /// Nothing is rolled back: on an error the queue holds the effect of the
    /// edits before the rejected one.
    pub fn apply_all(&mut self, ms: &Vec<Mutation>) -> (r: Result<(), MutationError>)
        ensures
            r is Ok <==> run(old(self).view(), ms@) is Some,
            r is Ok ==> run(old(self).view(), ms@) == Some(final(self).view()),
            r matches Err(e) ==> e.index < ms.len() && run(
                old(self).view(),
                ms@.take(e.index as int),
            ) == Some(final(self).view()) && !valid_mutation(final(self).view(), ms@[e.index as int]),
    {
        let ghost q = self.view();
        let mut i: usize = 0;
        while i < ms.len()
            invariant
                i <= ms.len(),
                q == old(self).view(),
                run(q, ms@.take(i as int)) == Some(self.view()),
            decreases ms.len() - i,
        {
            proof {
                lemma_run_push(q, ms@.take(i as int), ms@[i as int]);
                assert(ms@.take(i as int).push(ms@[i as int]) =~= ms@.take(i + 1 as int));
            }
            if !self.apply(&ms[i]) {
                proof {
                    assert(run(q, ms@.take(i + 1 as int)) is None);
                    lemma_run_none_extends(q, ms@.take(i + 1 as int), ms@);
                    assert(run(q, ms@) is None);
                    assert(!valid_mutation(self.view(), ms@[i as int]));
                }
                return Err(MutationError { index: i });
            }
            i = i + 1;
        }
        assert(ms@.take(i as int) =~= ms@);
        Ok(())
    }
}

/// A run that fails on a prefix fails on the whole.
pub proof fn lemma_run_none_extends(q: Seq<Seq<char>>, pre: Seq<Mutation>, ms: Seq<Mutation>)
    requires
        pre.len() <= ms.len(),
        pre =~= ms.take(pre.len() as int),
        run(q, pre) is None,
    ensures
        run(q, ms) is None,
    decreases ms.len() - pre.len(),
{
    if pre.len() < ms.len() {
        let next = ms.take(pre.len() + 1 as int);
        assert(next.drop_last() =~= pre);
        lemma_run_none_extends(q, next, ms);
    } else {
        assert(pre =~= ms);
    }
}

} // verus!
