//! Plans the primitive edits that merge a target sequence into the live
//! play queue around its anchor (the item the playlist is built around).
use vstd::prelude::*;
use crate::queue::{
    MockMPDClient, Mutation, paths_of, run, inserted_items, lemma_run_push, lemma_inserted_items_append,
};

verus! {

/// How the rest of the queue is treated.
#[derive(Debug, PartialEq, Eq, Structural, Clone, Copy)]
pub enum QueueMode {
    /// Nothing but the anchor survives; the queue becomes the target.
    Replace,
    /// The queue stays; the new items go in right after the anchor's block.
    Preserve,
}

#[derive(Debug, PartialEq, Eq, Structural, Clone, Copy)]
pub enum ReconcileError {
    /// There is no anchor in the queue ("play something first").
    NoAnchor,
    /// The target does not start with the anchor's path.
    TargetMismatch,
    /// The block kept with the anchor runs past the end of the queue.
    BlockOutOfRange,
    /// The album playlist does not hold what the queue's anchor implies.
    AlbumNotInPlaylist,
}

/// The edits to issue, and the items they add, in order.
pub struct Reconciliation {
    pub mutations: Vec<Mutation>,
    pub additions: Vec<String>,
}

/// Insert `adds` one after the other, the first at position `start`.
pub open spec fn insert_run(adds: Seq<String>, start: int) -> Seq<Mutation> {
    Seq::new(adds.len(), |i: int| Mutation::InsertAt { item: adds[i], pos: (start + i) as usize })
}

/// Replace mode: drop everything before and after the anchor, then insert
/// the additions right after it.
pub open spec fn replace_plan(len: nat, p: nat, adds: Seq<String>) -> Seq<Mutation> {
    let before = if p > 0 {
        seq![Mutation::DeleteRange { start: 0, end: p as usize }]
    } else {
        Seq::empty()
    };
    let after = if len - p > 1 {
        seq![Mutation::DeleteRange { start: 1, end: (len - p) as usize }]
    } else {
        Seq::empty()
    };
    before + after + insert_run(adds, 1)
}

/// Preserve mode: insert the additions at the anchor's position, then move
/// the displaced block of `block` items that starts with the anchor back in
/// front of them.
pub open spec fn preserve_plan(p: nat, block: nat, adds: Seq<String>) -> Seq<Mutation> {
    let k = adds.len();
    insert_run(adds, p as int) + if k > 0 && block > 0 {
        seq![
            Mutation::MoveRange {
                start: (p + k) as usize,
                end: (p + k + block) as usize,
                dest: p as usize,
            },
        ]
    } else {
        Seq::empty()
    }
}

/// The queue that Replace mode leaves: the anchor, then the additions.
pub open spec fn replaced_queue(q: Seq<Seq<char>>, p: int, adds: Seq<String>) -> Seq<Seq<char>> {
    seq![q[p]] + paths_of(adds)
}

/// The queue that Preserve mode leaves: everything up to the end of the
/// anchor's block, the additions, then the rest of the old queue.
pub open spec fn preserved_queue(q: Seq<Seq<char>>, p: int, block: int, adds: Seq<String>) -> Seq<
    Seq<char>,
> {
    q.subrange(0, p + block) + paths_of(adds) + q.subrange(p + block, q.len() as int)
}

pub proof fn lemma_insert_run_items(adds: Seq<String>, start: int)
    ensures
        inserted_items(insert_run(adds, start)) == adds,
    decreases adds.len(),
{
    if adds.len() > 0 {
        lemma_insert_run_items(adds.drop_last(), start);
        assert(insert_run(adds, start).drop_last() =~= insert_run(adds.drop_last(), start));
        assert(adds.drop_last().push(adds.last()) =~= adds);
    } else {
        assert(insert_run(adds, start) =~= Seq::<Mutation>::empty());
    }
}

/// Both plans insert exactly the additions, in order, and nothing else.
pub proof fn lemma_plans_insert_additions(len: nat, p: nat, block: nat, adds: Seq<String>)
    ensures
        inserted_items(replace_plan(len, p, adds)) == adds,
        inserted_items(preserve_plan(p, block, adds)) == adds,
{
    let before = if p > 0 {
        seq![Mutation::DeleteRange { start: 0, end: p as usize }]
    } else {
        Seq::empty()
    };
    let after = if len - p > 1 {
        seq![Mutation::DeleteRange { start: 1, end: (len - p) as usize }]
    } else {
        Seq::empty()
    };
    lemma_insert_run_items(adds, 1);
    lemma_insert_run_items(adds, p as int);
    lemma_inserted_items_append(before, after);
    lemma_inserted_items_append(before + after, insert_run(adds, 1));
    assert(before.len() > 0 ==> before.drop_last() =~= Seq::<Mutation>::empty());
    assert(after.len() > 0 ==> after.drop_last() =~= Seq::<Mutation>::empty());
    reveal_with_fuel(inserted_items, 2);
    assert(inserted_items(before) =~= Seq::<String>::empty());
    assert(inserted_items(after) =~= Seq::<String>::empty());
    let k = adds.len();
    let tail = if k > 0 && block > 0 {
        seq![
            Mutation::MoveRange {
                start: (p + k) as usize,
                end: (p + k + block) as usize,
                dest: p as usize,
            },
        ]
    } else {
        Seq::empty()
    };
    lemma_inserted_items_append(insert_run(adds, p as int), tail);
    assert(tail.len() > 0 ==> tail.drop_last() =~= Seq::<Mutation>::empty());
    assert(inserted_items(tail) =~= Seq::<String>::empty());
    assert(adds + Seq::<String>::empty() =~= adds);
    assert(Seq::<String>::empty() + Seq::<String>::empty() + adds =~= adds);
}

/// Clone each of `v`'s paths.
fn clone_paths(v: &Vec<String>, from: usize) -> (r: Vec<String>)
    requires
        from <= v.len(),
    ensures
        r@ == v@.subrange(from as int, v.len() as int),
{
    let mut r: Vec<String> = Vec::new();
    let mut i: usize = from;
    while i < v.len()
        invariant
            from <= i <= v.len(),
            r@ == v@.subrange(from as int, i as int),
        decreases v.len() - i,
    {
        r.push(v[i].clone());
        assert(r@ =~= v@.subrange(from as int, i + 1 as int));
        i = i + 1;
    }
    r
}

/// The Replace-mode edits for a queue of `len` items with its anchor at `p`.
fn replace_mutations(len: usize, p: usize, adds: &Vec<String>, Ghost(q): Ghost<Seq<Seq<char>>>) -> (r:
    Vec<Mutation>)
    requires
        p < len,
        q.len() == len,
    ensures
        r@ == replace_plan(len as nat, p as nat, adds@),
        run(q, r@) == Some(replaced_queue(q, p as int, adds@)),
{
    let mut ms: Vec<Mutation> = Vec::new();
    if p > 0 {
        proof {
            lemma_run_push(q, ms@, Mutation::DeleteRange { start: 0, end: p });
        }
        ms.push(Mutation::DeleteRange { start: 0, end: p });
    }
    assert(run(q, ms@) == Some(q.subrange(p as int, len as int))) by {
        if p > 0 {
            assert(ms@ =~= Seq::<Mutation>::empty().push(ms@[0]));
            assert(q.subrange(0, 0) + q.subrange(p as int, len as int) =~= q.subrange(
                p as int,
                len as int,
            ));
        } else {
            assert(q.subrange(0, len as int) =~= q);
        }
    }
    if len - p > 1 {
        proof {
            lemma_run_push(q, ms@, Mutation::DeleteRange { start: 1, end: (len - p) as usize });
        }
        ms.push(Mutation::DeleteRange { start: 1, end: len - p });
        let ghost rest = q.subrange(p as int, len as int);
        assert(rest.subrange(0, 1) + rest.subrange((len - p) as int, rest.len() as int) =~= seq![
            q[p as int],
        ]);
    } else {
        assert(q.subrange(p as int, len as int) =~= seq![q[p as int]]);
    }
    let ghost prefix = ms@;
    assert(run(q, ms@) == Some(replaced_queue(q, p as int, adds@.take(0)))) by {
        assert(seq![q[p as int]] + paths_of(adds@.take(0)) =~= seq![q[p as int]]);
    }
    let mut i: usize = 0;
    while i < adds.len()
        invariant
            i <= adds.len(),
            q.len() == len,
            p < len,
            ms@ == prefix + insert_run(adds@.take(i as int), 1),
            run(q, ms@) == Some(replaced_queue(q, p as int, adds@.take(i as int))),
        decreases adds.len() - i,
    {
        let m = Mutation::InsertAt { item: adds[i].clone(), pos: i + 1 };
        proof {
            lemma_run_push(q, ms@, m);
        }
        ms.push(m);
        assert(insert_run(adds@.take(i + 1 as int), 1) =~= insert_run(adds@.take(i as int), 1).push(
            m,
        ));
        assert(replaced_queue(q, p as int, adds@.take(i as int)).insert(i + 1 as int, adds@[i as int]@)
            =~= replaced_queue(q, p as int, adds@.take(i + 1 as int)));
        i = i + 1;
    }
    assert(adds@.take(i as int) =~= adds@);
    assert(prefix =~= (if p > 0 {
        seq![Mutation::DeleteRange { start: 0, end: p }]
    } else {
        Seq::empty()
    }) + (if len - p > 1 {
        seq![Mutation::DeleteRange { start: 1, end: (len - p) as usize }]
    } else {
        Seq::empty()
    }));
    ms
}

/// The Preserve-mode edits for a queue whose anchor is at `p`, keeping the
/// `block` items that start at the anchor in front of the additions.
fn preserve_mutations(p: usize, block: usize, adds: &Vec<String>, Ghost(q): Ghost<Seq<Seq<char>>>) -> (r:
    Vec<Mutation>)
    requires
        p + block <= q.len(),
        q.len() + adds.len() <= usize::MAX,
    ensures
        r@ == preserve_plan(p as nat, block as nat, adds@),
        run(q, r@) == Some(preserved_queue(q, p as int, block as int, adds@)),
{
    let mut ms: Vec<Mutation> = Vec::new();
    let ghost len = q.len();
    assert(run(q, ms@) == Some(q.subrange(0, p as int) + paths_of(adds@.take(0)) + q.subrange(
        p as int,
        len as int,
    ))) by {
        assert(q.subrange(0, p as int) + paths_of(adds@.take(0)) + q.subrange(p as int, len as int)
            =~= q);
    }
    let mut i: usize = 0;
    while i < adds.len()
        invariant
            i <= adds.len(),
            p + block <= q.len(),
            len == q.len(),
            q.len() + adds.len() <= usize::MAX,
            ms@ == insert_run(adds@.take(i as int), p as int),
            run(q, ms@) == Some(
                q.subrange(0, p as int) + paths_of(adds@.take(i as int)) + q.subrange(
                    p as int,
                    len as int,
                ),
            ),
        decreases adds.len() - i,
    {
        let m = Mutation::InsertAt { item: adds[i].clone(), pos: p + i };
        proof {
            lemma_run_push(q, ms@, m);
        }
        ms.push(m);
        assert(insert_run(adds@.take(i + 1 as int), p as int) =~= insert_run(
            adds@.take(i as int),
            p as int,
        ).push(m));
        assert((q.subrange(0, p as int) + paths_of(adds@.take(i as int)) + q.subrange(
            p as int,
            len as int,
        )).insert(p + i as int, adds@[i as int]@) =~= q.subrange(0, p as int) + paths_of(
            adds@.take(i + 1 as int),
        ) + q.subrange(p as int, len as int));
        i = i + 1;
    }
    assert(adds@.take(i as int) =~= adds@);
    let k = adds.len();
    let ghost mid = q.subrange(0, p as int) + paths_of(adds@) + q.subrange(p as int, len as int);
    if k > 0 && block > 0 {
        let m = Mutation::MoveRange { start: p + k, end: p + k + block, dest: p };
        proof {
            lemma_run_push(q, ms@, m);
            let rest = mid.subrange(0, p + k as int) + mid.subrange(
                p + k + block as int,
                mid.len() as int,
            );
            assert(rest =~= q.subrange(0, p as int) + paths_of(adds@) + q.subrange(
                p + block as int,
                len as int,
            ));
            assert(mid.subrange(p + k as int, p + k + block as int) =~= q.subrange(
                p as int,
                p + block as int,
            ));
            assert(rest.subrange(0, p as int) + mid.subrange(p + k as int, p + k + block as int)
                + rest.subrange(p as int, rest.len() as int) =~= preserved_queue(
                q,
                p as int,
                block as int,
                adds@,
            ));
        }
        ms.push(m);
    } else {
        assert(mid =~= preserved_queue(q, p as int, block as int, adds@));
        assert(ms@ + Seq::<Mutation>::empty() =~= ms@);
    }
    ms
}

/// The edits issued for the given inputs: none in a dry run.
pub open spec fn planned(
    len: nat,
    p: nat,
    block: nat,
    adds: Seq<String>,
    mode: QueueMode,
    dry_run: bool,
) -> Seq<Mutation> {
    if dry_run {
        Seq::empty()
    } else if mode == QueueMode::Replace {
        replace_plan(len, p, adds)
    } else {
        preserve_plan(p, block, adds)
    }
}

/// The queue that the edits leave behind.
pub open spec fn reconciled_queue(
    q: Seq<Seq<char>>,
    p: int,
    block: int,
    adds: Seq<String>,
    mode: QueueMode,
) -> Seq<Seq<char>> {
    if mode == QueueMode::Replace {
        replaced_queue(q, p, adds)
    } else {
        preserved_queue(q, p, block, adds)
    }
}

fn plan_core(
    len: usize,
    p: usize,
    block: usize,
    additions: Vec<String>,
    mode: QueueMode,
    dry_run: bool,
    Ghost(q): Ghost<Seq<Seq<char>>>,
) -> (r: Reconciliation)
    requires
        q.len() == len,
        p < len,
        mode == QueueMode::Preserve ==> p + block <= len,
        len + additions.len() <= usize::MAX,
    ensures
        r.additions@ == additions@,
        r.mutations@ == planned(len as nat, p as nat, block as nat, additions@, mode, dry_run),
        !dry_run ==> run(q, r.mutations@) == Some(
            reconciled_queue(q, p as int, block as int, additions@, mode),
        ),
{
    let mutations = if dry_run {
        Vec::new()
    } else {
        match mode {
            QueueMode::Replace => replace_mutations(len, p, &additions, Ghost(q)),
            QueueMode::Preserve => preserve_mutations(p, block, &additions, Ghost(q)),
        }
    };
    Reconciliation { mutations, additions }
}

/// Plans the edits that put `additions` into `queue` next to the anchor at
/// position `anchor`. In Replace mode the queue ends as the anchor followed
/// by the additions. In Preserve mode the `block` items that start at the
/// anchor stay in front, the additions follow them, and the rest of the
/// queue comes after. A dry run plans no edit and still lists the additions.
pub fn plan_insertion(
    queue: &Vec<String>,
    anchor: usize,
    block: usize,
    additions: Vec<String>,
    mode: QueueMode,
    dry_run: bool,
) -> (r: Result<Reconciliation, ReconcileError>)
    requires
        queue.len() + additions.len() <= usize::MAX,
    ensures
        r matches Err(ReconcileError::NoAnchor) <==> anchor >= queue.len(),
        r matches Err(ReconcileError::BlockOutOfRange) <==> anchor < queue.len() && mode
            == QueueMode::Preserve && anchor + block > queue.len(),
        r is Err ==> r matches Err(ReconcileError::NoAnchor) || r matches Err(
            ReconcileError::BlockOutOfRange,
        ),
        r matches Ok(rec) ==> rec.additions@ == additions@ && rec.mutations@ == planned(
            queue.len() as nat,
            anchor as nat,
            block as nat,
            additions@,
            mode,
            dry_run,
        ) && (!dry_run ==> run(paths_of(queue@), rec.mutations@) == Some(
            reconciled_queue(paths_of(queue@), anchor as int, block as int, additions@, mode),
        )),
{
    if anchor >= queue.len() {
        return Err(ReconcileError::NoAnchor);
    }
    if mode == QueueMode::Preserve && block > queue.len() - anchor {
        return Err(ReconcileError::BlockOutOfRange);
    }
    Ok(plan_core(queue.len(), anchor, block, additions, mode, dry_run, Ghost(paths_of(queue@))))
}

/// Plans the edits that turn `queue` into `target` around the anchor at
/// position `anchor`; `target` starts with the anchor's path. Replace mode
/// leaves exactly `target`; Preserve mode puts the rest of `target` right
/// after the anchor and keeps the rest of the queue behind it. A dry run
/// plans no edit and lists the items that would be inserted. The edits are
/// not atomic: a failure on the remote side leaves the edits before it done.
pub fn reconcile(
    queue: &Vec<String>,
    anchor: Option<usize>,
    target: &Vec<String>,
    mode: QueueMode,
    dry_run: bool,
) -> (r: Result<Reconciliation, ReconcileError>)
    requires
        queue.len() + target.len() <= usize::MAX,
    ensures
        r matches Err(ReconcileError::NoAnchor) <==> !(anchor matches Some(p) && p
            < queue.len()),
        r matches Err(ReconcileError::TargetMismatch) <==> (anchor matches Some(p) && p
            < queue.len() && (target.len() == 0 || target@[0]@ != queue@[p as int]@)),
        r is Err ==> r matches Err(ReconcileError::NoAnchor) || r matches Err(
            ReconcileError::TargetMismatch,
        ),
        r matches Ok(rec) ==> {
            let p = anchor->Some_0;
            let adds = target@.subrange(1, target.len() as int);
            &&& rec.additions@ == adds
            &&& rec.mutations@ == planned(
                queue.len() as nat,
                p as nat,
                1,
                adds,
                mode,
                dry_run,
            )
            &&& !dry_run ==> run(paths_of(queue@), rec.mutations@) == Some(
                reconciled_queue(paths_of(queue@), p as int, 1, adds, mode),
            )
        },
        r is Ok && !dry_run && mode == QueueMode::Replace ==> run(
            paths_of(queue@),
            r->Ok_0.mutations@,
        ) == Some(paths_of(target@)),
{
    let p = match anchor {
        Some(p) => p,
        None => {
            return Err(ReconcileError::NoAnchor);
        },
    };
    if p >= queue.len() {
        return Err(ReconcileError::NoAnchor);
    }
    if target.len() == 0 || target[0] != queue[p] {
        return Err(ReconcileError::TargetMismatch);
    }
    let additions = clone_paths(target, 1);
    let rec = plan_core(queue.len(), p, 1, additions, mode, dry_run, Ghost(paths_of(queue@)));
    assert(replaced_queue(paths_of(queue@), p as int, additions@) =~= paths_of(target@));
    Ok(rec)
}

/// Plans the edits that append `additions` at the end of `queue`, as a
/// playlist that continues the whole queue does. The queue must not be
/// empty: it is what the playlist was built from.
pub fn append_to_queue(queue: &Vec<String>, additions: Vec<String>, dry_run: bool) -> (r: Result<
    Reconciliation,
    ReconcileError,
>)
    requires
        queue.len() + additions.len() <= usize::MAX,
    ensures
        r is Err <==> queue.len() == 0,
        r matches Err(e) ==> e == ReconcileError::NoAnchor,
        r matches Ok(rec) ==> rec.additions@ == additions@ && rec.mutations@ == (if dry_run {
            Seq::empty()
        } else {
            insert_run(additions@, queue.len() as int)
        }) && (!dry_run ==> run(paths_of(queue@), rec.mutations@) == Some(
            paths_of(queue@) + paths_of(additions@),
        )),
{
    if queue.len() == 0 {
        return Err(ReconcileError::NoAnchor);
    }
    let len = queue.len();
    let ghost q = paths_of(queue@);
    let mutations = if dry_run {
        Vec::new()
    } else {
        let ms = preserve_mutations(len, 0, &additions, Ghost(q));
        assert(ms@ =~= insert_run(additions@, len as int));
        assert(preserved_queue(q, len as int, 0, additions@) =~= q + paths_of(additions@));
        ms
    };
    Ok(Reconciliation { mutations, additions })
}

/// Plans the edits for a playlist seeded by a chosen song rather than by
/// the anchor: the whole target goes after the anchor once everything else
/// is removed (Replace), or after the end of the queue (Preserve).
pub fn reconcile_from_song(
    queue: &Vec<String>,
    anchor: Option<usize>,
    target: Vec<String>,
    mode: QueueMode,
    dry_run: bool,
) -> (r: Result<Reconciliation, ReconcileError>)
    requires
        queue.len() + target.len() <= usize::MAX,
    ensures
        r is Err <==> !(anchor matches Some(p) && p < queue.len()),
        r matches Err(e) ==> e == ReconcileError::NoAnchor,
        r matches Ok(rec) ==> {
            let p = anchor->Some_0;
            &&& rec.additions@ == target@
            &&& dry_run ==> rec.mutations@.len() == 0
            &&& mode == QueueMode::Replace ==> rec.mutations@ == planned(
                queue.len() as nat,
                p as nat,
                1,
                target@,
                mode,
                dry_run,
            )
            &&& (mode == QueueMode::Preserve && !dry_run) ==> rec.mutations@ == insert_run(
                target@,
                queue.len() as int,
            )
            &&& (!dry_run && mode == QueueMode::Replace) ==> run(
                paths_of(queue@),
                rec.mutations@,
            ) == Some(seq![paths_of(queue@)[p as int]] + paths_of(target@))
            &&& (!dry_run && mode == QueueMode::Preserve) ==> run(
                paths_of(queue@),
                rec.mutations@,
            ) == Some(paths_of(queue@) + paths_of(target@))
        },
{
    let p = match anchor {
        Some(p) => p,
        None => {
            return Err(ReconcileError::NoAnchor);
        },
    };
    if p >= queue.len() {
        return Err(ReconcileError::NoAnchor);
    }
    match mode {
        QueueMode::Replace => plan_insertion(queue, p, 1, target, mode, dry_run),
        QueueMode::Preserve => append_to_queue(queue, target, dry_run),
    }
}

impl MockMPDClient {
    /// Merges `target` into this queue around the anchor at `anchor`, as
    /// `reconcile` plans it, and returns the items added. Where no plan
    /// can be made, nothing changes.
    pub fn merge_target(
        &mut self,
        anchor: Option<usize>,
        target: &Vec<String>,
        mode: QueueMode,
        dry_run: bool,
    ) -> (r: Result<Vec<String>, ReconcileError>)
        requires
            old(self).mpd_queue.len() + target.len() <= usize::MAX,
        ensures
            r matches Err(ReconcileError::NoAnchor) <==> !(anchor matches Some(p) && p
                < old(self).view().len()),
            r matches Err(ReconcileError::TargetMismatch) <==> (anchor matches Some(p) && p
                < old(self).view().len() && (target.len() == 0 || target@[0]@ != old(
                self,
            ).view()[p as int])),
            r is Err ==> r matches Err(ReconcileError::NoAnchor) || r matches Err(
                ReconcileError::TargetMismatch,
            ),
            r is Err || dry_run ==> final(self).view() == old(self).view(),
            r matches Ok(adds) ==> adds@ == target@.subrange(1, target.len() as int),
            r is Ok && !dry_run ==> final(self).view() == reconciled_queue(
                old(self).view(),
                anchor->Some_0 as int,
                1,
                target@.subrange(1, target.len() as int),
                mode,
            ),
            r is Ok && !dry_run && mode == QueueMode::Replace ==> final(self).view() == paths_of(
                target@,
            ),
    {
        let rec = reconcile(&self.mpd_queue, anchor, target, mode, dry_run)?;
        let applied = self.apply_all(&rec.mutations);
        assert(applied is Ok);
        Ok(rec.additions)
    }
}

/// A queue or playlist item with the album it belongs to.
pub struct Track {
    pub path: String,
    pub album: Option<String>,
}

pub open spec fn track_paths(ts: Seq<Track>) -> Seq<Seq<char>> {
    ts.map_values(|t: Track| t.path@)
}

pub open spec fn track_path_strings(ts: Seq<Track>) -> Seq<String> {
    ts.map_values(|t: Track| t.path)
}

pub open spec fn on_album(t: Track, album: Seq<char>) -> bool {
    t.album matches Some(a) && a@ == album
}

/// How many items at the front of `ts` belong to `album`.
pub open spec fn album_run(ts: Seq<Track>, album: Seq<char>) -> nat
    decreases ts.len(),
{
    if ts.len() > 0 && on_album(ts[0], album) {
        1 + album_run(ts.drop_first(), album)
    } else {
        0
    }
}

proof fn lemma_album_run_step(ts: Seq<Track>, i: int, album: Seq<char>)
    requires
        0 <= i < ts.len(),
    ensures
        on_album(ts[i], album) ==> album_run(ts.skip(i), album) == 1 + album_run(
            ts.skip(i + 1),
            album,
        ),
        !on_album(ts[i], album) ==> album_run(ts.skip(i), album) == 0,
{
    assert(ts.skip(i).drop_first() =~= ts.skip(i + 1));
}

fn is_on_album(t: &Track, album: &String) -> (r: bool)
    ensures
        r == on_album(*t, album@),
{
    match &t.album {
        Some(a) => *a == *album,
        None => false,
    }
}

/// How many items of `ts`, from position `from` on, belong to `album`
/// without a break.
pub fn album_run_from(ts: &Vec<Track>, from: usize, album: &String) -> (r: usize)
    requires
        from <= ts.len(),
    ensures
        r == album_run(ts@.skip(from as int), album@),
        from + r <= ts.len(),
{
    let mut i: usize = from;
    while i < ts.len() && is_on_album(&ts[i], album)
        invariant
            from <= i <= ts.len(),
            album_run(ts@.skip(from as int), album@) == (i - from) + album_run(
                ts@.skip(i as int),
                album@,
            ),
        decreases ts.len() - i,
    {
        proof {
            lemma_album_run_step(ts@, i as int, album@);
        }
        i = i + 1;
    }
    proof {
        if i < ts.len() {
            lemma_album_run_step(ts@, i as int, album@);
        } else {
            assert(ts@.skip(i as int).len() == 0);
        }
    }
    i - from
}

/// Where `path` first stands among the tracks `ts`, or `ts.len()`.
pub open spec fn path_pos(ts: Seq<Track>, path: Seq<char>) -> nat
    decreases ts.len(),
{
    if ts.len() == 0 {
        0
    } else if ts[0].path@ == path {
        0
    } else {
        1 + path_pos(ts.drop_first(), path)
    }
}

proof fn lemma_path_pos_step(ts: Seq<Track>, i: int, path: Seq<char>)
    requires
        0 <= i < ts.len(),
    ensures
        ts[i].path@ != path ==> path_pos(ts.skip(i), path) == 1 + path_pos(ts.skip(i + 1), path),
        ts[i].path@ == path ==> path_pos(ts.skip(i), path) == 0,
{
    assert(ts.skip(i).drop_first() =~= ts.skip(i + 1));
}

/// Where `path` first stands among `ts`, or `ts.len()`.
fn find_path(ts: &Vec<Track>, path: &String) -> (r: usize)
    ensures
        r == path_pos(ts@, path@),
        r <= ts.len(),
{
    let mut i: usize = 0;
    assert(ts@.skip(0) =~= ts@);
    while i < ts.len() && ts[i].path != *path
        invariant
            i <= ts.len(),
            path_pos(ts@, path@) == i + path_pos(ts@.skip(i as int), path@),
        decreases ts.len() - i,
    {
        proof {
            lemma_path_pos_step(ts@, i as int, path@);
        }
        i = i + 1;
    }
    proof {
        if i < ts.len() {
            lemma_path_pos_step(ts@, i as int, path@);
        } else {
            assert(ts@.skip(i as int).len() == 0);
        }
    }
    i
}

/// Where the additions start in an album playlist that begins with the
/// current album: in Replace mode right after the anchor's own entry, in
/// Preserve mode after every leading item of the current album.
pub open spec fn album_start(
    playlist: Seq<Track>,
    album: Seq<char>,
    anchor_path: Seq<char>,
    mode: QueueMode,
) -> int {
    if mode == QueueMode::Replace {
        path_pos(playlist, anchor_path) + 1int
    } else {
        album_run(playlist, album) as int
    }
}

/// Plans the edits that queue an album playlist (the current album first,
/// then similar albums, each in track order) after the anchor. Replace mode
/// leaves the anchor and the playlist's items past the anchor's own entry.
/// Preserve mode queues the albums after the current one right behind the
/// anchor's run of same-album items and keeps the rest of the queue.
pub fn reconcile_album(
    queue: &Vec<Track>,
    anchor: Option<usize>,
    playlist: &Vec<Track>,
    current_album: &String,
    mode: QueueMode,
    dry_run: bool,
) -> (r: Result<Reconciliation, ReconcileError>)
    requires
        queue.len() + playlist.len() <= usize::MAX,
    ensures
        r matches Err(ReconcileError::NoAnchor) <==> !(anchor matches Some(p) && p
            < queue.len()),
        r matches Err(ReconcileError::AlbumNotInPlaylist) <==> (anchor matches Some(p) && p
            < queue.len() && (if mode == QueueMode::Replace {
            album_start(playlist@, current_album@, queue@[p as int].path@, mode) > playlist.len()
        } else {
            album_start(playlist@, current_album@, queue@[p as int].path@, mode) == playlist.len()
        })),
        r is Err ==> r matches Err(ReconcileError::NoAnchor) || r matches Err(
            ReconcileError::AlbumNotInPlaylist,
        ),
        r matches Ok(rec) ==> {
            let p = anchor->Some_0;
            let start = album_start(playlist@, current_album@, queue@[p as int].path@, mode);
            let block = if mode == QueueMode::Replace {
                1
            } else {
                album_run(queue@.skip(p as int), current_album@)
            };
            let adds = track_path_strings(playlist@.subrange(start, playlist.len() as int));
            &&& rec.additions@ == adds
            &&& rec.mutations@ == planned(
                queue.len() as nat,
                p as nat,
                block,
                adds,
                mode,
                dry_run,
            )
            &&& !dry_run ==> run(track_paths(queue@), rec.mutations@) == Some(
                reconciled_queue(track_paths(queue@), p as int, block as int, adds, mode),
            )
        },
{
    let p = match anchor {
        Some(p) => p,
        None => {
            return Err(ReconcileError::NoAnchor);
        },
    };
    if p >= queue.len() {
        return Err(ReconcileError::NoAnchor);
    }
    let (start, block) = match mode {
        QueueMode::Replace => {
            let at = find_path(playlist, &queue[p].path);
            if at == playlist.len() {
                return Err(ReconcileError::AlbumNotInPlaylist);
            }
            (at + 1, 1)
        },
        QueueMode::Preserve => {
            let start = album_run_from(playlist, 0, current_album);
            assert(playlist@.skip(0) =~= playlist@);
            if start == playlist.len() {
                return Err(ReconcileError::AlbumNotInPlaylist);
            }
            (start, album_run_from(queue, p, current_album))
        },
    };
    let mut additions: Vec<String> = Vec::new();
    let mut i: usize = start;
    while i < playlist.len()
        invariant
            start <= i <= playlist.len(),
            additions@ == track_path_strings(playlist@.subrange(start as int, i as int)),
        decreases playlist.len() - i,
    {
        additions.push(playlist[i].path.clone());
        assert(additions@ =~= track_path_strings(playlist@.subrange(start as int, i + 1 as int)));
        i = i + 1;
    }
    let ghost q = track_paths(queue@);
    Ok(plan_core(queue.len(), p, block, additions, mode, dry_run, Ghost(q)))
}

/// The number of edits is bounded by the target: at most two deletions and
/// one insertion per addition in Replace mode, one insertion per addition
/// and one move in Preserve mode.
pub proof fn lemma_plan_size(len: nat, p: nat, block: nat, adds: Seq<String>)
    ensures
        replace_plan(len, p, adds).len() <= adds.len() + 2,
        preserve_plan(p, block, adds).len() <= adds.len() + 1,
{
}

/// A dry run plans no edit, and the items it lists are exactly those that
/// the same call without the dry run inserts, in the same order.
pub proof fn lemma_dry_run_lists_insertions(
    len: nat,
    p: nat,
    block: nat,
    adds: Seq<String>,
    mode: QueueMode,
)
    ensures
        planned(len, p, block, adds, mode, true).len() == 0,
        inserted_items(planned(len, p, block, adds, mode, false)) == adds,
{
    lemma_plans_insert_additions(len, p, block, adds);
}

} // verus!
