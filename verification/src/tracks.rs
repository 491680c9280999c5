//! Track bookkeeping: identifiers, detection counts and per-batch association.
//!
//! The table stores, for each track, its identifier, how many detections it has
//! absorbed and a caller-defined state (its motion).

use vstd::prelude::*;

verus! {

/// One track of the table.
pub struct TrackEntry<T> {
    /// Identifier, unique in the table.
    pub id: usize,
    /// Number of detections the track has absorbed.
    pub detections: usize,
    /// Caller-defined state of the track.
    pub state: T,
}

/// Whether some entry carries identifier `id`.
pub open spec fn has_id<T>(entries: Seq<TrackEntry<T>>, id: usize) -> bool {
    exists|i: int| 0 <= i < entries.len() && #[trigger] entries[i].id == id
}

/// The entries whose identifiers are not listed in `ids`, in the same relative order.
pub open spec fn kept<T>(entries: Seq<TrackEntry<T>>, ids: Seq<usize>) -> Seq<TrackEntry<T>>
    decreases entries.len(),
{
    if entries.len() == 0 {
        Seq::empty()
    } else {
        let rest = kept(entries.drop_last(), ids);
        if ids.contains(entries.last().id) {
            rest
        } else {
            rest.push(entries.last())
        }
    }
}

/// The identifiers of the entries not listed in `used`, in table order.
pub open spec fn unused_of<T>(entries: Seq<TrackEntry<T>>, used: Seq<usize>) -> Seq<usize>
    decreases entries.len(),
{
    if entries.len() == 0 {
        Seq::empty()
    } else {
        let rest = unused_of(entries.drop_last(), used);
        if used.contains(entries.last().id) {
            rest
        } else {
            rest.push(entries.last().id)
        }
    }
}

/// Abstract value of a track table: the next identifier to issue and the entries.
pub struct TableView<T> {
    pub next_id: nat,
    pub entries: Seq<TrackEntry<T>>,
}

/// Table of tracks with fresh identifiers issued from 1 upward.
///
/// The tracks are kept in a vector, in creation order, rather than in a map keyed by
/// identifier. Association walks the tracks and keeps the first nearest one, and the
/// listings report them in turn; a `HashMap` walks its keys in an order that depends on
/// a hasher seeded anew in each process, so neither the outcome of a tie nor the order
/// of a listing could be stated. The distinct-identifier invariant keeps lookups by
/// identifier exact.
pub struct TrackTable<T> {
    next_id: usize,
    entries: Vec<TrackEntry<T>>,
}

impl<T> View for TrackTable<T> {
    type V = TableView<T>;

    closed spec fn view(&self) -> TableView<T> {
        TableView { next_id: self.next_id as nat, entries: self.entries@ }
    }
}

/// Identifiers are positive, distinct and below `next_id`, and every track has absorbed at
/// least one detection.
pub open spec fn entries_wf<T>(next_id: nat, entries: Seq<TrackEntry<T>>) -> bool {
    &&& next_id >= 1
    &&& forall|i: int| 0 <= i < entries.len() ==> 1 <= #[trigger] entries[i].id < next_id
    &&& forall|i: int| 0 <= i < entries.len() ==> #[trigger] entries[i].detections >= 1
    &&& forall|i: int, j: int|
        0 <= i < j < entries.len() ==> #[trigger] entries[i].id != #[trigger] entries[j].id
}

/// Abstract value of a batch: the tracks updated so far and the identifiers handed out,
/// one per detection.
pub struct BatchView {
    pub used: Seq<usize>,
    pub assigned: Seq<usize>,
}

/// Bookkeeping of one batch of detections: each track is updated at most once per
/// batch.
pub struct Batch {
    used: Vec<usize>,
    assigned: Vec<usize>,
}

impl View for Batch {
    type V = BatchView;

    closed spec fn view(&self) -> BatchView {
        BatchView { used: self.used@, assigned: self.assigned@ }
    }
}

/// A batch fits a table when no track was updated twice and every track it updated or
/// handed out is in the table.
pub open spec fn batch_fits<T>(t: TableView<T>, b: BatchView) -> bool {
    &&& b.used.no_duplicates()
    &&& forall|k: int| 0 <= k < b.used.len() ==> has_id(t.entries, #[trigger] b.used[k])
    &&& forall|k: int| 0 <= k < b.assigned.len() ==> has_id(t.entries, #[trigger] b.assigned[k])
}

/// Whether a detection with association `choice` updates a track: the chosen track
/// exists and was not updated earlier in the batch.
pub open spec fn updates_track<T>(t: TableView<T>, b: BatchView, choice: Option<usize>) -> bool {
    &&& choice is Some
    &&& has_id(t.entries, choice->0)
    &&& !b.used.contains(choice->0)
}

/// The table, the batch and the identifier after associating one detection: the chosen
/// track takes `state` and one more detection when it exists and was not updated yet in
/// the batch; otherwise a track is created with the next identifier.
pub open spec fn assign_step<T>(t: TableView<T>, b: BatchView, choice: Option<usize>, state: T) -> (
    TableView<T>,
    BatchView,
    usize,
) {
    if updates_track(t, b, choice) {
        let id = choice->0;
        let i = choose|i: int| 0 <= i < t.entries.len() && #[trigger] t.entries[i].id == id;
        (
            TableView {
                next_id: t.next_id,
                entries: t.entries.update(
                    i,
                    TrackEntry { id: id, detections: (t.entries[i].detections + 1) as usize, state: state },
                ),
            },
            BatchView { used: b.used.push(id), assigned: b.assigned.push(id) },
            id,
        )
    } else {
        let id = t.next_id as usize;
        (
            TableView {
                next_id: t.next_id + 1,
                entries: t.entries.push(TrackEntry { id: id, detections: 1, state: state }),
            },
            BatchView { used: b.used, assigned: b.assigned.push(id) },
            id,
        )
    }
}

/// The table and the batch after associating each detection of `steps` in order; each
/// step is a chosen track (if any) and the state to record.
pub open spec fn assign_run<T>(t: TableView<T>, b: BatchView, steps: Seq<(Option<usize>, T)>) -> (
    TableView<T>,
    BatchView,
)
    decreases steps.len(),
{
    if steps.len() == 0 {
        (t, b)
    } else {
        let prev = assign_run(t, b, steps.drop_last());
        let next = assign_step(prev.0, prev.1, steps.last().0, steps.last().1);
        (next.0, next.1)
    }
}

impl Batch {
    /// A batch with nothing updated or handed out yet.
    pub fn new() -> (b: Self)
        ensures
            b@.used.len() == 0,
            b@.assigned.len() == 0,
    {
        Batch { used: Vec::new(), assigned: Vec::new() }
    }

    /// Identifiers of the tracks updated so far in this batch.
    pub fn used(&self) -> (u: &Vec<usize>)
        ensures
            u@ == self@.used,
    {
        &self.used
    }

    /// Identifiers handed out so far, one per detection, in order.
    pub fn into_assigned(self) -> (ids: Vec<usize>)
        ensures
            ids@ == self@.assigned,
    {
        self.assigned
    }
}

impl<T> TrackTable<T> {
    /// Identifiers stay positive, distinct and below the next one to issue, and every
    /// track has absorbed at least one detection.
    #[verifier::type_invariant]
    spec fn inv(self) -> bool {
        entries_wf(self.next_id as nat, self.entries@)
    }

    /// An empty table; the first track created gets identifier 1.
    pub fn new() -> (t: Self)
        ensures
            entries_wf(t@.next_id, t@.entries),
            t@.next_id == 1,
            t@.entries.len() == 0,
    {
        TrackTable { next_id: 1, entries: Vec::new() }
    }

    /// Number of tracks.
    pub fn len(&self) -> (n: usize)
        ensures
            n == self@.entries.len(),
            entries_wf(self@.next_id, self@.entries),
    {
        proof {
            use_type_invariant(self);
        }
        self.entries.len()
    }

    /// The identifier the next created track will get.
    pub fn next_id(&self) -> (n: usize)
        ensures
            n == self@.next_id,
            entries_wf(self@.next_id, self@.entries),
    {
        proof {
            use_type_invariant(self);
        }
        self.next_id
    }

    /// The `i`-th track, in table order.
    pub fn entry(&self, i: usize) -> (e: &TrackEntry<T>)
        requires
            i < self@.entries.len(),
        ensures
            *e == self@.entries[i as int],
    {
        &self.entries[i]
    }

    /// Position of the track with identifier `id`, if there is one.
    pub fn position(&self, id: usize) -> (p: Option<usize>)
        ensures
            p matches Some(i) ==> i < self@.entries.len() && self@.entries[i as int].id == id,
            p is None ==> !has_id(self@.entries, id),
    {
        let mut i: usize = 0;
        while i < self.entries.len()
            invariant
                i <= self@.entries.len(),
                forall|k: int| 0 <= k < i ==> #[trigger] self@.entries[k].id != id,
            decreases self@.entries.len() - i,
        {
            if self.entries[i].id == id {
                return Some(i);
            }
            i = i + 1;
        }
        None
    }

    /// The track with identifier `id`, if there is one.
    pub fn get(&self, id: usize) -> (e: Option<&TrackEntry<T>>)
        ensures
            e matches Some(t) ==> t.id == id && exists|i: int|
                0 <= i < self@.entries.len() && self@.entries[i] == *t,
            e is None ==> !has_id(self@.entries, id),
    {
        match self.position(id) {
            Some(i) => Some(&self.entries[i]),
            None => None,
        }
    }

    /// Create a track with `state` and one detection; it gets the next identifier.
    pub fn create(&mut self, state: T) -> (id: usize)
        requires
            old(self)@.next_id < usize::MAX,
        ensures
            entries_wf(final(self)@.next_id, final(self)@.entries),
            id == old(self)@.next_id,
            !has_id(old(self)@.entries, id),
            final(self)@.next_id == old(self)@.next_id + 1,
            final(self)@.entries == old(self)@.entries.push(
                TrackEntry { id: id, detections: 1, state: state },
            ),
    {
        proof {
            use_type_invariant(&*self);
        }
        let ghost e0 = self@.entries;
        let id = self.next_id;
        let mut entries: Vec<TrackEntry<T>> = Vec::new();
        std::mem::swap(&mut entries, &mut self.entries);
        self.next_id = id + 1;
        entries.push(TrackEntry { id, detections: 1, state });
        assert forall|i: int| 0 <= i < e0.len() implies #[trigger] entries@[i] == e0[i] by {}
        assert(entries@[e0.len() as int].id == id);
        self.entries = entries;
        id
    }

    /// Replace the state of track `id` and count one more detection; returns whether the
    /// track exists. The table is unchanged when it does not.
    pub fn record(&mut self, id: usize, state: T) -> (found: bool)
        requires
            forall|i: int|
                0 <= i < old(self)@.entries.len() && old(self)@.entries[i].id == id
                    ==> #[trigger] old(self)@.entries[i].detections < usize::MAX,
        ensures
            entries_wf(final(self)@.next_id, final(self)@.entries),
            found == has_id(old(self)@.entries, id),
            final(self)@.next_id == old(self)@.next_id,
            !found ==> final(self)@.entries == old(self)@.entries,
            found ==> exists|i: int|
                0 <= i < old(self)@.entries.len() && old(self)@.entries[i].id == id
                    && final(self)@.entries == old(self)@.entries.update(
                    i,
                    TrackEntry { id: id, detections: (old(self)@.entries[i].detections + 1) as usize, state: state },
                ),
    {
        proof {
            use_type_invariant(&*self);
        }
        match self.position(id) {
            Some(i) => {
                let ghost e0 = self@.entries;
                let d = self.entries[i].detections;
                let mut entries: Vec<TrackEntry<T>> = Vec::new();
                std::mem::swap(&mut entries, &mut self.entries);
                entries.set(i, TrackEntry { id, detections: d + 1, state });
                assert forall|k: int| 0 <= k < e0.len() implies #[trigger] entries@[k].id == e0[k].id by {}
                self.entries = entries;
                true
            },
            None => {
                proof {
                    use_type_invariant(&*self);
                }
                false
            },
        }
    }

    /// Remove every track whose identifier is listed in `ids`, keeping the order of the
    /// others; returns how many tracks were removed.
    pub fn remove_ids(&mut self, ids: &Vec<usize>) -> (removed: usize)
        ensures
            entries_wf(final(self)@.next_id, final(self)@.entries),
            final(self)@.next_id == old(self)@.next_id,
            final(self)@.entries == kept(old(self)@.entries, ids@),
            removed == old(self)@.entries.len() - final(self)@.entries.len(),
            removed == listed_present(old(self)@.entries, ids@).len(),
    {
        proof {
            use_type_invariant(&*self);
        }
        let ghost e0 = self@.entries;
        let ghost n0 = self.next_id;
        let mut entries: Vec<TrackEntry<T>> = Vec::new();
        std::mem::swap(&mut entries, &mut self.entries);
        assert(entries.len() == e0.len());
        let mut i: usize = 0;
        let mut k: usize = 0;
        let mut removed: usize = 0;
        proof {
            lemma_kept_props(e0.take(0), ids@);
        }
        while i < entries.len()
            invariant
                e0.len() <= usize::MAX,
                entries_wf(n0 as nat, e0),
                kept(e0.take(k as int), ids@).len() <= k,
                k <= e0.len(),
                i == kept(e0.take(k as int), ids@).len(),
                entries@ == kept(e0.take(k as int), ids@) + e0.skip(k as int),
                removed == k - i,
            decreases e0.len() - k,
        {
            proof {
                assert(e0.take(k + 1).drop_last() =~= e0.take(k as int));
                assert(e0.take(k + 1).last() == e0[k as int]);
                assert(entries@[i as int] == e0[k as int]);
                lemma_kept_props(e0.take(k + 1), ids@);
            }
            let id = entries[i].id;
            if vec_contains(ids, id) {
                entries.remove(i);
                assert(entries@ =~= kept(e0.take(k + 1), ids@) + e0.skip(k + 1));
                removed = removed + 1;
            } else {
                assert(entries@ =~= kept(e0.take(k + 1), ids@) + e0.skip(k + 1));
                i = i + 1;
            }
            k = k + 1;
        }
        proof {
            assert(e0.take(k as int) =~= e0);
            assert(entries@ =~= kept(e0, ids@));
            lemma_kept_wf(n0 as nat, e0, ids@);
            prune_count(n0 as nat, e0, ids@);
        }
        self.entries = entries;
        removed
    }

    /// Associate one detection of `batch`: when `choice` names a track of the table not
    /// yet updated in this batch, that track takes `state` and one more detection;
    /// otherwise a new track is created with `state`. Returns the track's identifier,
    /// which is also appended to the batch.
    pub fn assign(&mut self, batch: &mut Batch, choice: Option<usize>, state: T) -> (id: usize)
        requires
            updates_track(old(self)@, old(batch)@, choice) ==> forall|i: int|
                0 <= i < old(self)@.entries.len() && old(self)@.entries[i].id == choice->0
                    ==> #[trigger] old(self)@.entries[i].detections < usize::MAX,
            !updates_track(old(self)@, old(batch)@, choice) ==> old(self)@.next_id < usize::MAX,
        ensures
            entries_wf(final(self)@.next_id, final(self)@.entries),
            final(batch)@.assigned == old(batch)@.assigned.push(id),
            updates_track(old(self)@, old(batch)@, choice) ==> {
                &&& id == choice->0
                &&& final(batch)@.used == old(batch)@.used.push(id)
                &&& final(self)@.next_id == old(self)@.next_id
                &&& exists|i: int|
                    0 <= i < old(self)@.entries.len() && old(self)@.entries[i].id == id
                        && final(self)@.entries == old(self)@.entries.update(
                        i,
                        TrackEntry { id: id, detections: (old(self)@.entries[i].detections + 1) as usize, state: state },
                    )
            },
            !updates_track(old(self)@, old(batch)@, choice) ==> {
                &&& id == old(self)@.next_id
                &&& final(batch)@.used == old(batch)@.used
                &&& final(self)@.next_id == old(self)@.next_id + 1
                &&& final(self)@.entries == old(self)@.entries.push(
                    TrackEntry { id: id, detections: 1, state: state },
                )
            },
            batch_fits(old(self)@, old(batch)@) ==> batch_fits(final(self)@, final(batch)@),
            (final(self)@, final(batch)@, id) == assign_step(old(self)@, old(batch)@, choice, state),
    {
        proof {
            use_type_invariant(&*self);
        }
        let ghost t0 = self@;
        let ghost b0 = batch@;
        let mut chosen: Option<usize> = None;
        if let Some(c) = choice {
            if !vec_contains(&batch.used, c) {
                if let Some(_) = self.position(c) {
                    chosen = Some(c);
                }
            }
        }
        assert(chosen is Some <==> updates_track(t0, b0, choice));
        let id = match chosen {
            Some(c) => {
                self.record(c, state);
                batch.used.push(c);
                c
            },
            None => self.create(state),
        };
        batch.assigned.push(id);
        proof {
            let step = assign_step(t0, b0, choice, state);
            if chosen is Some {
                let i = choose|i: int| 0 <= i < t0.entries.len() && #[trigger] t0.entries[i].id == id;
                let k = choose|k: int|
                    0 <= k < t0.entries.len() && t0.entries[k].id == id && self@.entries
                        == t0.entries.update(
                        k,
                        TrackEntry { id: id, detections: (t0.entries[k].detections + 1) as usize, state: state },
                    );
                assert(t0.entries[i].id == t0.entries[k].id);
                assert(i == k);
                assert(self@.entries =~= step.0.entries);
                assert(batch@.used =~= step.1.used);
                assert(batch@.assigned =~= step.1.assigned);
            } else {
                assert(self@.entries =~= step.0.entries);
                assert(batch@.used =~= step.1.used);
                assert(batch@.assigned =~= step.1.assigned);
            }
            assert forall|x: usize| has_id(t0.entries, x) implies has_id(self@.entries, x) by {
                let i = choose|i: int| 0 <= i < t0.entries.len() && #[trigger] t0.entries[i].id == x;
                assert(self@.entries[i].id == x);
            }
            assert(has_id(self@.entries, id)) by {
                if chosen is None {
                    assert(self@.entries[t0.entries.len() as int].id == id);
                }
            }
            if batch_fits(t0, b0) {
                assert forall|k: int| 0 <= k < batch@.used.len() implies has_id(self@.entries, #[trigger] batch@.used[k]) by {
                    if k < b0.used.len() {
                        assert(batch@.used[k] == b0.used[k]);
                    }
                }
                assert forall|k: int| 0 <= k < batch@.assigned.len() implies has_id(self@.entries, #[trigger] batch@.assigned[k]) by {
                    if k < b0.assigned.len() {
                        assert(batch@.assigned[k] == b0.assigned[k]);
                    }
                }
                assert(batch@.used.no_duplicates()) by {
                    if chosen is Some {
                        assert forall|i: int, j: int| 0 <= i < j < batch@.used.len() implies batch@.used[i] != batch@.used[j] by {
                            if j == b0.used.len() {
                                assert(batch@.used[i] == b0.used[i]);
                                assert(b0.used.contains(b0.used[i]));
                            } else {
                                assert(batch@.used[i] == b0.used[i] && batch@.used[j] == b0.used[j]);
                            }
                        }
                    }
                }
            }
        }
        id
    }

    /// Identifiers of the tracks not listed in `used`, in table order.
    pub fn unused_ids(&self, used: &Vec<usize>) -> (ids: Vec<usize>)
        ensures
            ids@ == unused_of(self@.entries, used@),
            forall|x: usize| #[trigger] ids@.contains(x) <==> (has_id(self@.entries, x) && !used@.contains(x)),
            ids@.no_duplicates(),
    {
        proof {
            use_type_invariant(self);
            unused_ids_are_the_unused_tracks(self@.next_id, self@.entries, used@);
        }
        let ghost e = self@.entries;
        let mut ids: Vec<usize> = Vec::new();
        let mut i: usize = 0;
        while i < self.entries.len()
            invariant
                e == self@.entries,
                i <= e.len(),
                ids@ == unused_of(e.take(i as int), used@),
            decreases e.len() - i,
        {
            let id = self.entries[i].id;
            proof {
                assert(e.take(i + 1).drop_last() =~= e.take(i as int));
            }
            if !vec_contains(used, id) {
                ids.push(id);
            }
            i = i + 1;
        }
        assert(e.take(e.len() as int) =~= e);
        ids
    }
}

/// Whether `id` is listed in `v`.
pub fn vec_contains(v: &Vec<usize>, id: usize) -> (b: bool)
    ensures
        b == v@.contains(id),
{
    let mut i: usize = 0;
    while i < v.len()
        invariant
            i <= v@.len(),
            forall|k: int| 0 <= k < i ==> v@[k] != id,
        decreases v@.len() - i,
    {
        if v[i] == id {
            return true;
        }
        i = i + 1;
    }
    false
}

/// What one association does to the table and the batch.
proof fn lemma_assign_step<T>(t: TableView<T>, b: BatchView, choice: Option<usize>, state: T)
    requires
        entries_wf(t.next_id, t.entries),
        t.next_id < usize::MAX,
        forall|i: int| 0 <= i < t.entries.len() ==> #[trigger] t.entries[i].detections < usize::MAX,
    ensures
        ({
            let (t2, b2, id) = assign_step(t, b, choice, state);
            &&& entries_wf(t2.next_id, t2.entries)
            &&& forall|i: int|
                0 <= i < t2.entries.len() ==> #[trigger] t2.entries[i].detections <= if i < t.entries.len() {
                    t.entries[i].detections + 1
                } else {
                    1
                }
            &&& b2.assigned == b.assigned.push(id)
            &&& t.next_id <= t2.next_id <= t.next_id + 1
            &&& forall|x: usize| #[trigger] has_id(t2.entries, x) == (has_id(t.entries, x) || x == id)
            &&& !has_id(t.entries, id) ==> id == t.next_id
            &&& t2.entries.len() >= t.entries.len()
            &&& forall|i: int|
                0 <= i < t.entries.len() ==> #[trigger] t2.entries[i].id == t.entries[i].id && (
                t.entries[i].id != id ==> t2.entries[i] == t.entries[i])
            &&& batch_fits(t, b) ==> batch_fits(t2, b2)
        }),
{
    let (t2, b2, id) = assign_step(t, b, choice, state);
    if updates_track(t, b, choice) {
        let i = choose|i: int| 0 <= i < t.entries.len() && #[trigger] t.entries[i].id == id;
        assert forall|k: int| 0 <= k < t.entries.len() implies #[trigger] t2.entries[k].id == t.entries[k].id
            && (t.entries[k].id != id ==> t2.entries[k] == t.entries[k]) by {}
        assert forall|x: usize| #[trigger] has_id(t2.entries, x) == (has_id(t.entries, x) || x == id) by {
            if has_id(t2.entries, x) {
                let k = choose|k: int| 0 <= k < t2.entries.len() && #[trigger] t2.entries[k].id == x;
                assert(t.entries[k].id == x);
            }
            if has_id(t.entries, x) {
                let k = choose|k: int| 0 <= k < t.entries.len() && #[trigger] t.entries[k].id == x;
                assert(t2.entries[k].id == x);
            }
        }
        assert forall|a: int, c: int|
            0 <= a < c < t2.entries.len() implies #[trigger] t2.entries[a].id != #[trigger] t2.entries[c].id by {
            assert(t.entries[a].id != t.entries[c].id);
        }
        if batch_fits(t, b) {
            assert forall|k: int| 0 <= k < b2.used.len() implies has_id(t2.entries, #[trigger] b2.used[k]) by {
                if k < b.used.len() {
                    assert(b2.used[k] == b.used[k]);
                }
            }
            assert forall|k: int| 0 <= k < b2.assigned.len() implies has_id(t2.entries, #[trigger] b2.assigned[k]) by {
                if k < b.assigned.len() {
                    assert(b2.assigned[k] == b.assigned[k]);
                }
            }
            assert forall|a: int, c: int| 0 <= a < c < b2.used.len() implies b2.used[a] != b2.used[c] by {
                if c == b.used.len() {
                    assert(b2.used[a] == b.used[a]);
                    assert(b.used.contains(b.used[a]));
                } else {
                    assert(b2.used[a] == b.used[a] && b2.used[c] == b.used[c]);
                }
            }
        }
    } else {
        let n = t.entries.len();
        assert(t2.entries[n as int].id == id);
        assert forall|k: int| 0 <= k < n implies #[trigger] t2.entries[k] == t.entries[k] by {}
        assert forall|k: int| 0 <= k < n implies #[trigger] t2.entries[k].id == t.entries[k].id
            && (t.entries[k].id != id ==> t2.entries[k] == t.entries[k]) by {
            assert(t2.entries[k] == t.entries[k]);
        }
        assert forall|x: usize| #[trigger] has_id(t2.entries, x) == (has_id(t.entries, x) || x == id) by {
            if has_id(t2.entries, x) {
                let k = choose|k: int| 0 <= k < t2.entries.len() && #[trigger] t2.entries[k].id == x;
                if k < n {
                    assert(t2.entries[k] == t.entries[k]);
                }
            }
            if has_id(t.entries, x) {
                let k = choose|k: int| 0 <= k < t.entries.len() && #[trigger] t.entries[k].id == x;
                assert(t2.entries[k] == t.entries[k]);
            }
        }
        assert forall|a: int, c: int|
            0 <= a < c < t2.entries.len() implies #[trigger] t2.entries[a].id != #[trigger] t2.entries[c].id by {
            assert(t2.entries[a] == t.entries[a]);
            if c < n {
                assert(t2.entries[c] == t.entries[c]);
            }
        }
        assert forall|k: int| 0 <= k < t2.entries.len() implies 1 <= #[trigger] t2.entries[k].id < t2.next_id
            && t2.entries[k].detections >= 1 by {
            if k < n {
                assert(t2.entries[k] == t.entries[k]);
            }
        }
        if has_id(t.entries, id) {
            let k = choose|k: int| 0 <= k < t.entries.len() && #[trigger] t.entries[k].id == id;
        }
        if batch_fits(t, b) {
            assert forall|k: int| 0 <= k < b2.used.len() implies has_id(t2.entries, #[trigger] b2.used[k]) by {}
            assert forall|k: int| 0 <= k < b2.assigned.len() implies has_id(t2.entries, #[trigger] b2.assigned[k]) by {
                if k < b.assigned.len() {
                    assert(b2.assigned[k] == b.assigned[k]);
                }
            }
        }
    }
}

/// Associating a whole batch of detections, one step per detection: one identifier is
/// handed out per detection; the tracks afterwards are the earlier ones plus those
/// handed out; an identifier that named no track before is fresh (at least the next
/// identifier the table would have issued, and below the one it issues afterwards);
/// earlier tracks keep their place and identifier, and those not handed out keep their
/// contents; no track is updated twice and every handed-out identifier names a track.
pub proof fn batch_law<T>(t0: TableView<T>, b0: BatchView, steps: Seq<(Option<usize>, T)>)
    requires
        entries_wf(t0.next_id, t0.entries),
        t0.next_id + steps.len() <= usize::MAX,
        forall|i: int|
            0 <= i < t0.entries.len() ==> #[trigger] t0.entries[i].detections + steps.len() < usize::MAX,
    ensures
        ({
            let (t1, b1) = assign_run(t0, b0, steps);
            let new_ids = b1.assigned.skip(b0.assigned.len() as int);
            &&& entries_wf(t1.next_id, t1.entries)
            &&& forall|i: int|
                0 <= i < t1.entries.len() ==> #[trigger] t1.entries[i].detections <= steps.len() + if i
                    < t0.entries.len() {
                    t0.entries[i].detections as int
                } else {
                    1
                }
            &&& b1.assigned.len() == b0.assigned.len() + steps.len()
            &&& b1.assigned.take(b0.assigned.len() as int) == b0.assigned
            &&& t0.next_id <= t1.next_id <= t0.next_id + steps.len()
            &&& forall|x: usize| #[trigger] has_id(t1.entries, x) == (has_id(t0.entries, x) || new_ids.contains(x))
            &&& forall|k: int|
                0 <= k < new_ids.len() && !has_id(t0.entries, #[trigger] new_ids[k]) ==> t0.next_id <= new_ids[k]
                    < t1.next_id
            &&& t1.entries.len() >= t0.entries.len()
            &&& forall|i: int|
                0 <= i < t0.entries.len() ==> #[trigger] t1.entries[i].id == t0.entries[i].id && (
                !new_ids.contains(t0.entries[i].id) ==> t1.entries[i] == t0.entries[i])
            &&& batch_fits(t0, b0) ==> batch_fits(t1, b1)
        }),
    decreases steps.len(),
{
    let (t1, b1) = assign_run(t0, b0, steps);
    let base = b0.assigned.len() as int;
    if steps.len() == 0 {
        assert(b1.assigned.skip(base) =~= Seq::<usize>::empty());
        assert(b1.assigned.take(base) =~= b0.assigned);
    } else {
        let front = steps.drop_last();
        batch_law(t0, b0, front);
        let (tp, bp) = assign_run(t0, b0, front);
        assert forall|i: int| 0 <= i < tp.entries.len() implies #[trigger] tp.entries[i].detections < usize::MAX by {
            if i < t0.entries.len() {
                assert(t0.entries[i].detections + steps.len() < usize::MAX);
            }
        }
        lemma_assign_step(tp, bp, steps.last().0, steps.last().1);
        let step = assign_step(tp, bp, steps.last().0, steps.last().1);
        let id = step.2;
        let new_p = bp.assigned.skip(base);
        let new_ids = b1.assigned.skip(base);
        assert(new_ids =~= new_p.push(id));
        assert(b1.assigned.take(base) =~= bp.assigned.take(base));
        assert forall|x: usize| #[trigger] has_id(t1.entries, x) == (has_id(t0.entries, x) || new_ids.contains(x)) by {
            assert(has_id(t1.entries, x) == (has_id(tp.entries, x) || x == id));
            assert(has_id(tp.entries, x) == (has_id(t0.entries, x) || new_p.contains(x)));
            if new_ids.contains(x) && x != id {
                let k = choose|k: int| 0 <= k < new_ids.len() && new_ids[k] == x;
                assert(new_p[k] == x);
            }
            if new_p.contains(x) {
                let k = choose|k: int| 0 <= k < new_p.len() && new_p[k] == x;
                assert(new_ids[k] == x);
            }
            if x == id {
                assert(new_ids[new_ids.len() - 1] == x);
            }
        }
        assert forall|k: int|
            0 <= k < new_ids.len() && !has_id(t0.entries, #[trigger] new_ids[k]) implies t0.next_id
                <= new_ids[k] < t1.next_id by {
            let x = new_ids[k];
            assert(has_id(t1.entries, x));
            let m = choose|m: int| 0 <= m < t1.entries.len() && #[trigger] t1.entries[m].id == x;
            if k < new_p.len() {
                assert(new_p[k] == x);
            } else {
                if has_id(tp.entries, id) {
                    assert(new_p.contains(id));
                    let q = choose|q: int| 0 <= q < new_p.len() && new_p[q] == id;
                    assert(new_p[q] == id);
                }
            }
        }
        assert forall|i: int| 0 <= i < t0.entries.len() implies #[trigger] t1.entries[i].id == t0.entries[i].id
            && (!new_ids.contains(t0.entries[i].id) ==> t1.entries[i] == t0.entries[i]) by {
            assert(tp.entries[i].id == t0.entries[i].id);
            if !new_ids.contains(t0.entries[i].id) {
                if new_p.contains(t0.entries[i].id) {
                    let q = choose|q: int| 0 <= q < new_p.len() && new_p[q] == t0.entries[i].id;
                    assert(new_ids[q] == new_p[q]);
                }
                if t0.entries[i].id == id {
                    assert(new_ids[new_ids.len() - 1] == id);
                }
            }
        }
    }
}

/// The unused identifiers of a batch are exactly the identifiers of the table's tracks
/// that the batch has not updated yet, whatever their position in the table, each listed
/// once.
pub proof fn unused_ids_are_the_unused_tracks<T>(next_id: nat, entries: Seq<TrackEntry<T>>, used: Seq<usize>)
    requires
        entries_wf(next_id, entries),
    ensures
        forall|x: usize|
            #[trigger] unused_of(entries, used).contains(x) <==> (has_id(entries, x) && !used.contains(x)),
        unused_of(entries, used).no_duplicates(),
    decreases entries.len(),
{
    if entries.len() > 0 {
        let front = entries.drop_last();
        let last = entries.last().id;
        lemma_front_wf(next_id, entries);
        unused_ids_are_the_unused_tracks(next_id, front, used);
        let rest = unused_of(front, used);
        let out = unused_of(entries, used);
        assert forall|x: usize| #[trigger] out.contains(x) <==> (has_id(entries, x) && !used.contains(x)) by {
            if !used.contains(last) {
                if out.contains(x) && x != last {
                    let k = choose|k: int| 0 <= k < out.len() && out[k] == x;
                    assert(rest[k] == x);
                }
                if rest.contains(x) {
                    let k = choose|k: int| 0 <= k < rest.len() && rest[k] == x;
                    assert(out[k] == x);
                }
                if x == last {
                    assert(out[out.len() - 1] == x);
                }
            }
        }
        if !used.contains(last) {
            assert forall|a: int, b: int| 0 <= a < b < out.len() implies out[a] != out[b] by {
                if b == rest.len() {
                    assert(out[a] == rest[a]);
                    assert(rest.contains(rest[a]));
                } else {
                    assert(out[a] == rest[a] && out[b] == rest[b]);
                }
            }
        }
    }
}

/// The distinct listed identifiers that name a track.
pub open spec fn listed_present<T>(entries: Seq<TrackEntry<T>>, ids: Seq<usize>) -> Set<usize> {
    Set::new(|x: usize| ids.contains(x) && has_id(entries, x))
}

/// Dropping the last entry keeps the invariant.
proof fn lemma_front_wf<T>(next_id: nat, entries: Seq<TrackEntry<T>>)
    requires
        entries_wf(next_id, entries),
        entries.len() > 0,
    ensures
        entries_wf(next_id, entries.drop_last()),
        !has_id(entries.drop_last(), entries.last().id),
        forall|x: usize| has_id(entries, x) == (has_id(entries.drop_last(), x) || x == entries.last().id),
{
    let front = entries.drop_last();
    assert forall|i: int, j: int|
        0 <= i < j < front.len() implies #[trigger] front[i].id != #[trigger] front[j].id by {
        assert(front[i] == entries[i] && front[j] == entries[j]);
        assert(entries[i].id != entries[j].id);
    }
    assert forall|i: int| 0 <= i < front.len() implies #[trigger] front[i] == entries[i] by {}
    if has_id(front, entries.last().id) {
        let i = choose|i: int| 0 <= i < front.len() && #[trigger] front[i].id == entries.last().id;
        assert(entries[i].id != entries[entries.len() - 1].id);
    }
    assert forall|x: usize| has_id(entries, x) == (has_id(front, x) || x == entries.last().id) by {
        if has_id(entries, x) {
            let i = choose|i: int| 0 <= i < entries.len() && #[trigger] entries[i].id == x;
            if i < front.len() {
                assert(front[i].id == x);
            }
        }
        if has_id(front, x) {
            let i = choose|i: int| 0 <= i < front.len() && #[trigger] front[i].id == x;
            assert(entries[i].id == x);
        }
        if x == entries.last().id {
            assert(entries[entries.len() - 1].id == x);
        }
    }
}

/// Pruning removes exactly as many tracks as there are distinct listed identifiers that
/// name a track.
pub proof fn prune_count<T>(next_id: nat, entries: Seq<TrackEntry<T>>, ids: Seq<usize>)
    requires
        entries_wf(next_id, entries),
    ensures
        listed_present(entries, ids).finite(),
        listed_present(entries, ids).len() == entries.len() - kept(entries, ids).len(),
    decreases entries.len(),
{
    lemma_kept_props(entries, ids);
    if entries.len() == 0 {
        assert(listed_present(entries, ids) =~= Set::<usize>::empty());
    } else {
        let front = entries.drop_last();
        let last = entries.last().id;
        lemma_front_wf(next_id, entries);
        prune_count(next_id, front, ids);
        lemma_kept_props(front, ids);
        let before = listed_present(front, ids);
        assert(!before.contains(last));
        if ids.contains(last) {
            assert(listed_present(entries, ids) =~= before.insert(last));
        } else {
            assert(listed_present(entries, ids) =~= before);
        }
    }
}

/// Dropping entries keeps the table invariant.
proof fn lemma_kept_wf<T>(next_id: nat, entries: Seq<TrackEntry<T>>, ids: Seq<usize>)
    requires
        entries_wf(next_id, entries),
    ensures
        entries_wf(next_id, kept(entries, ids)),
    decreases entries.len(),
{
    if entries.len() > 0 {
        let front = entries.drop_last();
        assert forall|i: int, j: int|
            0 <= i < j < front.len() implies #[trigger] front[i].id != #[trigger] front[j].id by {
            assert(front[i] == entries[i] && front[j] == entries[j]);
            assert(entries[i].id != entries[j].id);
        }
        assert forall|i: int| 0 <= i < front.len() implies #[trigger] front[i] == entries[i] by {}
        lemma_kept_wf(next_id, front, ids);
        lemma_kept_props(front, ids);
        let rest = kept(front, ids);
        if !ids.contains(entries.last().id) {
            let out = rest.push(entries.last());
            assert forall|i: int, j: int|
                0 <= i < j < out.len() implies #[trigger] out[i].id != #[trigger] out[j].id by {
                if j == rest.len() {
                    assert(out[i] == rest[i]);
                    let m = choose|m: int| 0 <= m < front.len() && rest[i] == front[m];
                    assert(entries[m] == front[m]);
                    assert(out[j] == entries[entries.len() - 1]);
                    assert(entries[m].id != entries[entries.len() - 1].id);
                } else {
                    assert(out[i] == rest[i] && out[j] == rest[j]);
                }
            }
            assert forall|i: int| 0 <= i < out.len() implies 1 <= #[trigger] out[i].id < next_id
                && out[i].detections >= 1 by {
                if i < rest.len() {
                    assert(out[i] == rest[i]);
                }
            }
        }
    }
}

/// Pruning keeps exactly the tracks whose identifiers are not listed: no listed track
/// survives, and every unlisted track does.
pub proof fn prune_keeps_exactly_unlisted<T>(entries: Seq<TrackEntry<T>>, ids: Seq<usize>)
    ensures
        forall|j: int|
            0 <= j < kept(entries, ids).len() ==> !ids.contains(#[trigger] kept(entries, ids)[j].id),
        forall|i: int|
            0 <= i < entries.len() && !ids.contains(#[trigger] entries[i].id) ==> kept(
                entries,
                ids,
            ).contains(entries[i]),
    decreases entries.len(),
{
    if entries.len() > 0 {
        let front = entries.drop_last();
        prune_keeps_exactly_unlisted(front, ids);
        let rest = kept(front, ids);
        let out = kept(entries, ids);
        assert forall|j: int| 0 <= j < out.len() implies !ids.contains(#[trigger] out[j].id) by {
            if j < rest.len() {
                assert(out[j] == rest[j]);
            }
        }
        assert forall|i: int|
            0 <= i < entries.len() && !ids.contains(#[trigger] entries[i].id) implies out.contains(
                entries[i],
            ) by {
            if i < front.len() {
                assert(front[i] == entries[i]);
                assert(rest.contains(front[i]));
                let k = choose|k: int| 0 <= k < rest.len() && rest[k] == front[i];
                assert(out[k] == rest[k]);
            } else {
                assert(out[out.len() - 1] == entries[i]);
            }
        }
    }
}

/// The kept entries are drawn from the given ones, and there are no more of them.
proof fn lemma_kept_props<T>(entries: Seq<TrackEntry<T>>, ids: Seq<usize>)
    ensures
        kept(entries, ids).len() <= entries.len(),
        forall|j: int|
            0 <= j < kept(entries, ids).len() ==> exists|i: int|
                0 <= i < entries.len() && #[trigger] kept(entries, ids)[j] == entries[i],
    decreases entries.len(),
{
    if entries.len() > 0 {
        lemma_kept_props(entries.drop_last(), ids);
    }
}

} // verus!
