//! Mapping entries and the mathematical model of a set of mappings: a
//! sequence of entries, ordered by base address, whose intervals are
//! half-open and pairwise disjoint.

use std::sync::Arc;
use vstd::prelude::*;
use crate::flags::FlagBuilder;

verus! {

/// Why an operation on an address space was refused.
#[derive(Clone, Copy, Debug, PartialEq, Eq, Structural)]
pub enum MapError {
    /// No gap of the requested span is left, or the requested interval would
    /// run past the highest address.
    InsufficientSpace,
    /// The requested interval intersects an existing mapping.
    Overlap,
    /// No mapping starts at, or covers, the given address.
    NotMapped,
    /// The covering mapping does not hold a capability that was asked for.
    PermissionDenied,
    /// A mapping of span zero was asked for; every mapping covers at least
    /// one address.
    EmptySpan,
    /// The address is covered, but the offset in the source that it stands
    /// for lies past the highest representable offset.
    OffsetOverflow,
}

/// One mapping: the interval `[addr, addr + span)` of the address space
/// stands for the part of `source` that begins at `offset`.
pub struct MapEntry<S: ?Sized> {
    /// Shared handle to the backing data source.
    pub source: Arc<S>,
    /// Where in the source the mapping's content begins.
    pub offset: usize,
    /// Length of the mapping.
    pub span: usize,
    /// Base address of the mapping.
    pub addr: usize,
    /// Capabilities that the mapping grants.
    pub flags: FlagBuilder,
}

impl<S: ?Sized> MapEntry<S> {
    /// The first address after the mapping.
    pub open spec fn end(self) -> int {
        self.addr + self.span
    }

    /// A mapping is valid when it covers at least one address and its
    /// interval does not run past the highest address.
    pub open spec fn valid(self) -> bool {
        &&& self.span > 0
        &&& self.addr + self.span <= usize::MAX
    }

    /// Whether `a` lies in `[addr, addr + span)`.
    pub open spec fn contains(self, a: int) -> bool {
        self.addr <= a < self.addr + self.span
    }

    /// Whether `[addr, addr + span)` and `[start, start + span)` share an
    /// address, for a non-empty second interval.
    pub open spec fn overlaps(self, start: int, span: int) -> bool {
        self.addr < start + span && start < self.addr + self.span
    }

    /// The offset in the source that the address `a` stands for.
    pub open spec fn offset_of(self, a: int) -> int {
        self.offset + (a - self.addr)
    }

    /// What a translation of `a`, an address that this mapping covers,
    /// yields for a request with the capabilities `access`: the source and
    /// the offset that `a` stands for, unless a capability is missing or
    /// that offset is not representable.
    pub open spec fn resolve(self, a: int, access: FlagBuilder) -> Result<(Arc<S>, usize), MapError> {
        if !self.flags.allows(access) {
            Err(MapError::PermissionDenied)
        } else if self.offset_of(a) > usize::MAX {
            Err(MapError::OffsetOverflow)
        } else {
            Ok((self.source, self.offset_of(a) as usize))
        }
    }
}

/// Every entry is valid.
pub open spec fn all_valid<S: ?Sized>(s: Seq<MapEntry<S>>) -> bool {
    forall|i: int| 0 <= i < s.len() ==> (#[trigger] s[i]).valid()
}

/// Base addresses ascend along the sequence.
pub open spec fn ordered<S: ?Sized>(s: Seq<MapEntry<S>>) -> bool {
    forall|i: int, j: int| 0 <= i < j < s.len() ==> (#[trigger] s[i]).addr <= (#[trigger] s[j]).addr
}

/// No two entries share an address.
pub open spec fn disjoint<S: ?Sized>(s: Seq<MapEntry<S>>) -> bool {
    forall|i: int, j: int|
        0 <= i < s.len() && 0 <= j < s.len() && i != j ==> !(#[trigger] s[i]).overlaps(
            (#[trigger] s[j]).addr as int,
            s[j].span as int,
        )
}

/// The invariant of an address space's entries.
pub open spec fn well_formed<S: ?Sized>(s: Seq<MapEntry<S>>) -> bool {
    all_valid(s) && ordered(s) && disjoint(s)
}

/// No entry shares an address with `[start, start + span)`.
pub open spec fn free<S: ?Sized>(s: Seq<MapEntry<S>>, start: int, span: int) -> bool {
    forall|i: int| 0 <= i < s.len() ==> !(#[trigger] s[i]).overlaps(start, span)
}

/// `[start, start + span)` lies within the address range and is free.
pub open spec fn fits<S: ?Sized>(s: Seq<MapEntry<S>>, start: int, span: int) -> bool {
    start + span <= usize::MAX && free(s, start, span)
}

/// `start` is the lowest address at which an interval of length `span` fits.
pub open spec fn lowest_fit<S: ?Sized>(s: Seq<MapEntry<S>>, start: int, span: int) -> bool {
    &&& 0 <= start
    &&& fits(s, start, span)
    &&& forall|b: int| 0 <= b < start ==> !#[trigger] fits(s, b, span)
}

/// The number of entries whose base address lies below `addr`. In an ordered
/// sequence this is the index at which an entry with base `addr` belongs.
pub open spec fn slot<S: ?Sized>(s: Seq<MapEntry<S>>, addr: int) -> int
    decreases s.len(),
{
    if s.len() == 0 {
        0
    } else if s.last().addr < addr {
        slot(s.drop_last(), addr) + 1
    } else {
        slot(s.drop_last(), addr)
    }
}

/// The sequence with `e` added at the place that its base address gives it.
pub open spec fn placed<S: ?Sized>(s: Seq<MapEntry<S>>, e: MapEntry<S>) -> Seq<MapEntry<S>> {
    s.insert(slot(s, e.addr as int), e)
}

/// Whether an entry starts exactly at `addr`.
pub open spec fn starts_at<S: ?Sized>(s: Seq<MapEntry<S>>, addr: int) -> bool {
    exists|i: int| 0 <= i < s.len() && (#[trigger] s[i]).addr == addr
}

/// The sequence without the entry that starts at `addr`.
pub open spec fn without<S: ?Sized>(s: Seq<MapEntry<S>>, addr: int) -> Seq<MapEntry<S>> {
    s.remove(slot(s, addr))
}

/// Whether some entry covers `a`.
pub open spec fn mapped<S: ?Sized>(s: Seq<MapEntry<S>>, a: int) -> bool {
    exists|i: int| 0 <= i < s.len() && (#[trigger] s[i]).contains(a)
}

/// For non-empty intervals, `overlaps` says that the two intervals have an
/// address in common.
pub proof fn lemma_overlaps_shares_address<S: ?Sized>(e: MapEntry<S>, start: int, span: int)
    requires
        e.span > 0,
        span > 0,
    ensures
        e.overlaps(start, span) <==> exists|a: int|
            #[trigger] e.contains(a) && start <= a < start + span,
{
    if e.overlaps(start, span) {
        let a = if e.addr >= start { e.addr as int } else { start };
        assert(e.contains(a) && start <= a < start + span);
    }
}

/// In a well-formed sequence each entry ends where, or before, every later
/// one begins.
pub proof fn lemma_ends_before<S: ?Sized>(s: Seq<MapEntry<S>>, i: int, j: int)
    requires
        well_formed(s),
        0 <= i < j < s.len(),
    ensures
        s[i].end() <= s[j].addr,
{
    assert(s[i].valid() && s[j].valid());
    assert(s[i].addr <= s[j].addr);
    assert(!s[i].overlaps(s[j].addr as int, s[j].span as int));
}

/// In an ordered sequence, `slot` splits the entries into those that start
/// below `addr` and those that start at or above it.
pub proof fn lemma_slot_splits<S: ?Sized>(s: Seq<MapEntry<S>>, addr: int)
    requires
        ordered(s),
    ensures
        0 <= slot(s, addr) <= s.len(),
        forall|j: int| 0 <= j < slot(s, addr) ==> (#[trigger] s[j]).addr < addr,
        forall|j: int| slot(s, addr) <= j < s.len() ==> (#[trigger] s[j]).addr >= addr,
    decreases s.len(),
{
    if s.len() > 0 {
        let t = s.drop_last();
        assert forall|i: int, j: int| 0 <= i < j < t.len() implies (#[trigger] t[i]).addr <= (
        #[trigger] t[j]).addr by {
            assert(t[i] == s[i] && t[j] == s[j]);
        }
        lemma_slot_splits(t, addr);
        let k = slot(t, addr);
        assert forall|j: int| 0 <= j < slot(s, addr) implies (#[trigger] s[j]).addr < addr by {
            if j < t.len() {
                assert(t[j] == s[j]);
                if j >= k {
                    assert(s[j].addr <= s[s.len() - 1].addr);
                }
            }
        }
        assert forall|j: int| slot(s, addr) <= j < s.len() implies (#[trigger] s[j]).addr
            >= addr by {
            if j < t.len() {
                assert(t[j] == s[j]);
            }
        }
    }
}

/// The index that splits an ordered sequence around `addr` is `slot`.
pub proof fn lemma_slot_is<S: ?Sized>(s: Seq<MapEntry<S>>, addr: int, k: int)
    requires
        ordered(s),
        0 <= k <= s.len(),
        forall|j: int| 0 <= j < k ==> (#[trigger] s[j]).addr < addr,
        forall|j: int| k <= j < s.len() ==> (#[trigger] s[j]).addr >= addr,
    ensures
        slot(s, addr) == k,
{
    lemma_slot_splits(s, addr);
    let m = slot(s, addr);
    if m < k {
        assert(s[m].addr < addr);
    } else if k < m {
        assert(s[k].addr >= addr);
    }
}

/// Adding a valid entry whose interval is free keeps the sequence
/// well-formed: ordered by base address, with no two entries sharing an
/// address.
pub proof fn lemma_placed_well_formed<S: ?Sized>(s: Seq<MapEntry<S>>, e: MapEntry<S>)
    requires
        well_formed(s),
        e.valid(),
        free(s, e.addr as int, e.span as int),
    ensures
        well_formed(placed(s, e)),
        placed(s, e).len() == s.len() + 1,
        placed(s, e)[slot(s, e.addr as int)] == e,
{
    lemma_slot_splits(s, e.addr as int);
    let k = slot(s, e.addr as int);
    let t = placed(s, e);
    assert forall|i: int| 0 <= i < t.len() implies (#[trigger] t[i]).valid() by {
        if i < k {
            assert(t[i] == s[i]);
        } else if i > k {
            assert(t[i] == s[i - 1]);
        }
    }
    assert forall|i: int, j: int| 0 <= i < j < t.len() implies (#[trigger] t[i]).addr <= (
    #[trigger] t[j]).addr by {
        let a = if i < k { s[i] } else if i == k { e } else { s[i - 1] };
        let b = if j < k { s[j] } else if j == k { e } else { s[j - 1] };
        assert(t[i] == a && t[j] == b);
    }
    assert forall|i: int, j: int|
        0 <= i < t.len() && 0 <= j < t.len() && i != j implies !(#[trigger] t[i]).overlaps(
        (#[trigger] t[j]).addr as int,
        t[j].span as int,
    ) by {
        let a = if i < k { s[i] } else if i == k { e } else { s[i - 1] };
        let b = if j < k { s[j] } else if j == k { e } else { s[j - 1] };
        assert(t[i] == a && t[j] == b);
    }
}

/// Taking the entry at `k` out keeps the sequence well-formed.
pub proof fn lemma_remove_well_formed<S: ?Sized>(s: Seq<MapEntry<S>>, k: int)
    requires
        well_formed(s),
        0 <= k < s.len(),
    ensures
        well_formed(s.remove(k)),
{
    let t = s.remove(k);
    assert forall|i: int| 0 <= i < t.len() implies (#[trigger] t[i]).valid() by {
        assert(t[i] == if i < k { s[i] } else { s[i + 1] });
    }
    assert forall|i: int, j: int| 0 <= i < j < t.len() implies (#[trigger] t[i]).addr <= (
    #[trigger] t[j]).addr by {
        assert(t[i] == if i < k { s[i] } else { s[i + 1] });
        assert(t[j] == if j < k { s[j] } else { s[j + 1] });
    }
    assert forall|i: int, j: int|
        0 <= i < t.len() && 0 <= j < t.len() && i != j implies !(#[trigger] t[i]).overlaps(
        (#[trigger] t[j]).addr as int,
        t[j].span as int,
    ) by {
        assert(t[i] == if i < k { s[i] } else { s[i + 1] });
        assert(t[j] == if j < k { s[j] } else { s[j + 1] });
    }
}

/// In a well-formed sequence the entry that starts at `addr`, if there is
/// one, stands at `slot(s, addr)`, and no other entry starts there.
pub proof fn lemma_starts_at_slot<S: ?Sized>(s: Seq<MapEntry<S>>, addr: int)
    requires
        well_formed(s),
    ensures
        starts_at(s, addr) <==> (slot(s, addr) < s.len() && s[slot(s, addr)].addr == addr),
        forall|i: int| 0 <= i < s.len() && (#[trigger] s[i]).addr == addr ==> i == slot(s, addr),
{
    lemma_slot_splits(s, addr);
    let k = slot(s, addr);
    assert forall|i: int| 0 <= i < s.len() && (#[trigger] s[i]).addr == addr implies i == k by {
        if i > k {
            lemma_ends_before(s, k, i);
            assert(s[k].valid());
        }
    }
}

/// Adding a mapping and then removing the mapping that starts at its base
/// address gives back the entries that were there before.
pub proof fn lemma_place_then_remove<S: ?Sized>(s: Seq<MapEntry<S>>, e: MapEntry<S>)
    requires
        well_formed(s),
        e.valid(),
        free(s, e.addr as int, e.span as int),
    ensures
        starts_at(placed(s, e), e.addr as int),
        without(placed(s, e), e.addr as int) == s,
{
    lemma_slot_splits(s, e.addr as int);
    lemma_placed_well_formed(s, e);
    let k = slot(s, e.addr as int);
    let t = placed(s, e);
    assert(t[k].addr == e.addr);
    lemma_starts_at_slot(t, e.addr as int);
    assert(t.remove(k) =~= s);
}

/// In a well-formed sequence at most one entry covers an address.
pub proof fn lemma_cover_unique<S: ?Sized>(s: Seq<MapEntry<S>>, a: int, i: int, j: int)
    requires
        well_formed(s),
        0 <= i < s.len(),
        0 <= j < s.len(),
        s[i].contains(a),
        s[j].contains(a),
    ensures
        i == j,
{
    if i < j {
        lemma_ends_before(s, i, j);
    } else if j < i {
        lemma_ends_before(s, j, i);
    }
}

} // verus!
