//! Call-local fixed-timezone offsets, each retaining the owner used for
//! identity checks.

use vstd::prelude::*;

verus! {

/// Number of retained owners.
pub const CAPACITY: usize = 8;
/// Consecutive misses after which the cache stops looking and storing.
pub const MAX_MISSES: usize = 16;

/// Bounds retained owners independently of the number of serialized datetimes.
pub struct FixedOffsets<Owner> {
    entries: [Option<(Owner, i64)>; 8],
    // None disables the cache, either by caller choice or after repeated misses.
    next: Option<usize>,
    // Stops at MAX_MISSES; a successful lookup resets this to zero.
    consecutive_misses: usize,
}

/// The lookup function may be called on the slot's owner.
pub open spec fn callable<Owner, F: Fn(&Owner) -> bool>(f: F, slot: Option<(Owner, i64)>) -> bool {
    match slot {
        Some(entry) => call_requires(f, (&entry.0,)),
        None => true,
    }
}

/// The slot is empty or the lookup function rejected its owner.
pub open spec fn rejects<Owner, F: Fn(&Owner) -> bool>(f: F, slot: Option<(Owner, i64)>) -> bool {
    match slot {
        Some(entry) => call_ensures(f, (&entry.0,), false),
        None => true,
    }
}

/// The slot holds `seconds` with an owner that the lookup function accepted.
pub open spec fn accepts<Owner, F: Fn(&Owner) -> bool>(
    f: F,
    slot: Option<(Owner, i64)>,
    seconds: i64,
) -> bool {
    match slot {
        Some(entry) => entry.1 == seconds && call_ensures(f, (&entry.0,), true),
        None => false,
    }
}

/// How one lookup changes whether the cache is enabled and its run of
/// misses: a disabled cache stays as it is; a hit restarts the run; a miss
/// lengthens it and disables the cache when it reaches `MAX_MISSES`.
pub open spec fn lookup_step(state: (bool, nat), hit: bool) -> (bool, nat) {
    if !state.0 {
        state
    } else if hit {
        (true, 0)
    } else {
        (state.1 + 1 < MAX_MISSES, state.1 + 1)
    }
}

/// The state after lookups with these outcomes, `true` for a hit.
pub open spec fn after_lookups(state: (bool, nat), hits: Seq<bool>) -> (bool, nat)
    decreases hits.len(),
{
    if hits.len() == 0 {
        state
    } else {
        lookup_step(after_lookups(state, hits.drop_last()), hits.last())
    }
}

/// Misses since the last hit.
pub open spec fn trailing_misses(hits: Seq<bool>) -> nat
    decreases hits.len(),
{
    if hits.len() == 0 || hits.last() {
        0
    } else {
        trailing_misses(hits.drop_last()) + 1
    }
}

/// The `MAX_MISSES` lookups from `start` all missed.
pub open spec fn misses_from(hits: Seq<bool>, start: int) -> bool {
    &&& 0 <= start
    &&& start + MAX_MISSES <= hits.len()
    &&& forall|j: int| start <= j < start + MAX_MISSES ==> !#[trigger] hits[j]
}

/// Some `MAX_MISSES` consecutive lookups all missed.
pub open spec fn has_miss_run(hits: Seq<bool>) -> bool {
    exists|start: int| #[trigger] misses_from(hits, start)
}

proof fn lemma_trailing_misses_are_misses(hits: Seq<bool>)
    ensures
        trailing_misses(hits) <= hits.len(),
        forall|j: int| hits.len() - trailing_misses(hits) <= j < hits.len() ==> !#[trigger] hits[j],
    decreases hits.len(),
{
    if hits.len() > 0 && !hits.last() {
        let front = hits.drop_last();
        lemma_trailing_misses_are_misses(front);
        assert forall|j: int| hits.len() - trailing_misses(hits) <= j < hits.len() implies !#[trigger] hits[j] by {
            if j < hits.len() - 1 {
                assert(hits[j] == front[j]);
            }
        }
    }
}

proof fn lemma_misses_count_trailing(hits: Seq<bool>, k: int)
    requires
        0 <= k <= hits.len(),
        forall|j: int| hits.len() - k <= j < hits.len() ==> !#[trigger] hits[j],
    ensures
        trailing_misses(hits) >= k,
    decreases hits.len(),
{
    if k > 0 {
        let front = hits.drop_last();
        assert(!hits[hits.len() - 1]);
        assert forall|j: int| front.len() - (k - 1) <= j < front.len() implies !#[trigger] front[j] by {
            assert(front[j] == hits[j]);
        }
        lemma_misses_count_trailing(front, k - 1);
    }
}

/// Starting enabled with no misses, the cache is enabled after a series of
/// lookups exactly when no `MAX_MISSES` of them missed in a row, and then
/// counts the misses since the last hit; once disabled it stays disabled
/// whatever follows, and inserts change neither.
pub proof fn lemma_lookup_runs(hits: Seq<bool>)
    ensures
        after_lookups((true, 0), hits) == (if has_miss_run(hits) {
            (false, MAX_MISSES as nat)
        } else {
            (true, trailing_misses(hits))
        }),
    decreases hits.len(),
{
    if hits.len() == 0 {
        return;
    }
    let front = hits.drop_last();
    lemma_lookup_runs(front);
    let last = hits.len() - 1;
    assert forall|j: int| 0 <= j < front.len() implies front[j] == hits[j] by {}
    if has_miss_run(front) {
        let start = choose|start: int| misses_from(front, start);
        assert forall|j: int| start <= j < start + MAX_MISSES implies !#[trigger] hits[j] by {
            assert(!front[j]);
        }
        assert(misses_from(hits, start));
    } else {
        lemma_trailing_misses_are_misses(front);
        if trailing_misses(front) >= MAX_MISSES {
            let start = front.len() - MAX_MISSES;
            assert forall|j: int| start <= j < start + MAX_MISSES implies !#[trigger] front[j] by {}
            assert(misses_from(front, start));
        }
        if hits[last] {
            if has_miss_run(hits) {
                let start = choose|start: int| misses_from(hits, start);
                if start + MAX_MISSES == hits.len() {
                    assert(!hits[last]);
                } else {
                    assert forall|j: int| start <= j < start + MAX_MISSES implies !#[trigger] front[j] by {
                        assert(!hits[j]);
                    }
                    assert(misses_from(front, start));
                }
            }
        } else {
            lemma_trailing_misses_are_misses(hits);
            if trailing_misses(hits) == MAX_MISSES {
                let start = hits.len() - MAX_MISSES;
                assert forall|j: int| start <= j < start + MAX_MISSES implies !#[trigger] hits[j] by {}
                assert(misses_from(hits, start));
            } else if has_miss_run(hits) {
                let start = choose|start: int| misses_from(hits, start);
                if start + MAX_MISSES == hits.len() {
                    lemma_misses_count_trailing(hits, MAX_MISSES as int);
                } else {
                    assert forall|j: int| start <= j < start + MAX_MISSES implies !#[trigger] front[j] by {
                        assert(!hits[j]);
                    }
                    assert(misses_from(front, start));
                }
            }
        }
    }
}

/// A disabled cache stays disabled, with its count unchanged, whatever
/// lookups follow.
pub proof fn lemma_disabled_stays(misses: nat, hits: Seq<bool>)
    ensures
        after_lookups((false, misses), hits) == (false, misses),
    decreases hits.len(),
{
    if hits.len() > 0 {
        lemma_disabled_stays(misses, hits.drop_last());
    }
}

/// The slots after inserting these entries, in order, into an empty
/// enabled cache: each goes into the next slot round the eight.
pub open spec fn slots_after<Owner>(entries: Seq<(Owner, i64)>) -> Seq<Option<(Owner, i64)>>
    decreases entries.len(),
{
    if entries.len() == 0 {
        Seq::new(8, |i: int| None::<(Owner, i64)>)
    } else {
        let n = entries.len() - 1;
        slots_after(entries.drop_last()).update(n % (CAPACITY as int), Some(entries.last()))
    }
}

/// After inserting entries into an empty enabled cache, it retains exactly
/// the last eight: entry `k` of the last eight sits in slot `k % 8`, and
/// slots past the number of entries stay empty.
pub proof fn lemma_retains_last_eight<Owner>(entries: Seq<(Owner, i64)>)
    ensures
        slots_after(entries).len() == CAPACITY,
        forall|k: int|
            entries.len() - CAPACITY <= k < entries.len() && 0 <= k ==> slots_after(entries)[k % (
            CAPACITY as int)] == Some(#[trigger] entries[k]),
        forall|i: int| entries.len() <= i < CAPACITY ==> (#[trigger] slots_after(entries)[i]) is None,
    decreases entries.len(),
{
    if entries.len() > 0 {
        let front = entries.drop_last();
        let n = front.len() as int;
        lemma_retains_last_eight(front);
        let slots = slots_after(entries);
        assert forall|k: int| entries.len() - CAPACITY <= k < entries.len() && 0 <= k implies slots[k % (
        CAPACITY as int)] == Some(#[trigger] entries[k]) by {
            if k < n {
                assert(k % 8 != n % 8);
                assert(front[k] == entries[k]);
                assert(slots_after(front)[k % 8] == Some(front[k]));
            }
        }
        assert forall|i: int| entries.len() <= i < CAPACITY implies (#[trigger] slots[i]) is None by {
            assert(n % 8 == n);
            assert(slots_after(front)[i] is None);
        }
    }
}

impl<Owner> FixedOffsets<Owner> {
    /// The eight slots, in storage order.
    pub closed spec fn slots(&self) -> Seq<Option<(Owner, i64)>> {
        self.entries@
    }

    /// The slot the next insertion fills, or None when the cache is disabled.
    pub closed spec fn next_slot(&self) -> Option<usize> {
        self.next
    }

    /// Lookups that have failed since the last hit.
    pub closed spec fn misses(&self) -> usize {
        self.consecutive_misses
    }

    /// The next slot is in range, and an enabled cache has fewer than
    /// `MAX_MISSES` consecutive misses.
    pub closed spec fn wf(&self) -> bool {
        &&& self.entries@.len() == CAPACITY
        &&& self.next matches Some(i) ==> i < CAPACITY && self.consecutive_misses < MAX_MISSES
    }

    /// An empty cache, disabled when `enabled` is false.
    pub fn new(enabled: bool) -> (cache: Self)
        ensures
            cache.wf(),
            cache.slots() == Seq::new(8, |i: int| None::<(Owner, i64)>),
            cache.next_slot() == (if enabled { Some(0usize) } else { None }),
            cache.misses() == 0,
    {
        let cache = FixedOffsets {
            entries: [None, None, None, None, None, None, None, None],
            next: if enabled { Some(0) } else { None },
            consecutive_misses: 0,
        };
        proof {
            assert(cache.entries@ =~= Seq::new(8, |i: int| None::<(Owner, i64)>));
        }
        cache
    }

    /// Look up the offset stored with the first owner, in slot order, that
    /// `same_owner` accepts.
    ///
    /// A disabled cache returns None without calling `same_owner`. A hit
    /// resets the miss count; the `MAX_MISSES`-th consecutive miss disables
    /// the cache, which keeps its owners until it is dropped.
    pub fn get<F: Fn(&Owner) -> bool>(&mut self, same_owner: F) -> (found: Option<i64>)
        requires
            old(self).wf(),
            forall|i: int| 0 <= i < CAPACITY ==> callable(same_owner, #[trigger] old(self).slots()[i]),
        ensures
            final(self).wf(),
            final(self).slots() == old(self).slots(),
            (final(self).next_slot() is Some, final(self).misses() as nat) == lookup_step(
                (old(self).next_slot() is Some, old(self).misses() as nat),
                found is Some,
            ),
            old(self).next_slot() is None ==> found is None && final(self).next_slot() is None
                && final(self).misses() == old(self).misses(),
            old(self).next_slot() is Some && found is Some ==> {
                &&& exists|i: int|
                    0 <= i < CAPACITY && accepts(same_owner, #[trigger] old(self).slots()[i], found->0)
                        && forall|j: int| 0 <= j < i ==> rejects(same_owner, #[trigger] old(self).slots()[j])
                &&& final(self).misses() == 0
                &&& final(self).next_slot() == old(self).next_slot()
            },
            old(self).next_slot() is Some && found is None ==> {
                &&& forall|i: int| 0 <= i < CAPACITY ==> rejects(same_owner, #[trigger] old(self).slots()[i])
                &&& final(self).misses() == old(self).misses() + 1
                &&& final(self).next_slot() == (if old(self).misses() + 1 == MAX_MISSES {
                    None
                } else {
                    old(self).next_slot()
                })
            },
    {
        if self.next.is_none() {
            return None;
        }
        let mut found: Option<i64> = None;
        let mut index: usize = 0;
        while index < CAPACITY && found.is_none()
            invariant
                self == old(self),
                self.wf(),
                index <= CAPACITY,
                forall|i: int| 0 <= i < CAPACITY ==> callable(same_owner, #[trigger] self.slots()[i]),
                found is None ==> forall|j: int| 0 <= j < index ==> rejects(same_owner, #[trigger] self.slots()[j]),
                found is Some ==> exists|i: int|
                    0 <= i < CAPACITY && accepts(same_owner, #[trigger] self.slots()[i], found->0)
                        && forall|j: int| 0 <= j < i ==> rejects(same_owner, #[trigger] self.slots()[j]),
            decreases CAPACITY - index,
        {
            match &self.entries[index] {
                Some(entry) => {
                    proof {
                        assert(self.slots()[index as int] == Some(*entry));
                    }
                    if same_owner(&entry.0) {
                        found = Some(entry.1);
                        proof {
                            assert(accepts(same_owner, self.slots()[index as int], entry.1));
                        }
                    }
                },
                None => {},
            }
            index = index + 1;
        }
        if found.is_some() {
            self.consecutive_misses = 0;
        } else {
            self.consecutive_misses = self.consecutive_misses + 1;
            if self.consecutive_misses == MAX_MISSES {
                // Keep owners until the cache is dropped, rather than changing release order here.
                self.next = None;
            }
        }
        found
    }

    /// Whether lookups and insertions are still performed.
    pub fn enabled(&self) -> (enabled: bool)
        ensures
            enabled == self.next_slot() is Some,
    {
        self.next.is_some()
    }

    /// Store the entry built by `make_entry` in the next slot, replacing the
    /// oldest entry once all slots are full. A disabled cache does not call
    /// `make_entry`.
    pub fn insert<F: FnOnce() -> (Owner, i64)>(&mut self, make_entry: F)
        requires
            old(self).wf(),
            old(self).next_slot() is Some ==> call_requires(make_entry, ()),
        ensures
            final(self).wf(),
            final(self).misses() == old(self).misses(),
            (final(self).next_slot() is Some) == (old(self).next_slot() is Some),
            old(self).next_slot() is None ==> final(self).slots() == old(self).slots()
                && final(self).next_slot() is None,
            old(self).next_slot() matches Some(index) ==> {
                &&& final(self).next_slot() == Some(((index + 1) % (CAPACITY as int)) as usize)
                &&& exists|entry: (Owner, i64)|
                    call_ensures(make_entry, (), entry) && final(self).slots() == old(
                        self,
                    ).slots().update(index as int, Some(entry))
            },
    {
        let index = match self.next {
            Some(index) => index,
            None => {
                return;
            },
        };
        let entry = make_entry();
        let ghost made = entry;
        self.next = Some((index + 1) % CAPACITY);
        self.entries[index] = Some(entry);
        proof {
            assert(self.entries@ =~= old(self).entries@.update(index as int, Some(made)));
            assert(call_ensures(make_entry, (), made) && self.slots() == old(self).slots().update(
                index as int,
                Some(made),
            ));
        }
    }

    /// The retained slots, in storage order.
    pub fn entries(&self) -> (entries: &[Option<(Owner, i64)>; 8])
        ensures
            entries@ == self.slots(),
    {
        &self.entries
    }
}

} // verus!
