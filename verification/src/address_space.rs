//! The address space: an ordered collection of mappings over disjoint
//! half-open intervals, with placement, removal and translation.

use std::sync::Arc;
use vstd::prelude::*;
use crate::flags::FlagBuilder;
use crate::mapping::{
    fits, free, lemma_cover_unique, lemma_ends_before, lemma_placed_well_formed,
    lemma_remove_well_formed, lemma_slot_is, lemma_starts_at_slot, lowest_fit, mapped, placed,
    starts_at, well_formed, without, MapEntry, MapError,
};

verus! {

/// An address within an address space.
pub type VirtualAddress = usize;

/// An address space.
///
/// `S` is the type of the data sources that back the mappings; the address
/// space hands sources through and never looks inside one.
pub struct AddressSpace<S: ?Sized> {
    name: String,
    mappings: Vec<MapEntry<S>>,
}

/// What a request to map `[start, start + span)` meets, given the entries
/// `s`.
pub open spec fn admission<S: ?Sized>(s: Seq<MapEntry<S>>, span: int, start: int) -> Result<
    (),
    MapError,
> {
    if span == 0 {
        Err(MapError::EmptySpan)
    } else if start + span > usize::MAX {
        Err(MapError::InsufficientSpace)
    } else if !free(s, start, span) {
        Err(MapError::Overlap)
    } else {
        Ok(())
    }
}

/// `Arc::clone`: another handle to the same source. This contract is taken
/// on trust: a handle is modelled as the value it points to, and the new
/// handle points to the same value as the old one.
#[verifier::external_body]
fn share<S: ?Sized>(source: &Arc<S>) -> (r: Arc<S>)
    ensures
        r == *source,
{
    Arc::clone(source)
}

impl<S: ?Sized> View for AddressSpace<S> {
    type V = Seq<MapEntry<S>>;

    /// The entries, in the order in which they are kept.
    closed spec fn view(&self) -> Seq<MapEntry<S>> {
        self.mappings@
    }
}

impl<S: ?Sized> AddressSpace<S> {
    /// The label that the address space was created with.
    pub closed spec fn label(&self) -> Seq<char> {
        self.name@
    }

    /// The invariant: every entry is valid, base addresses ascend, and no
    /// two entries share an address.
    pub open spec fn wf(&self) -> bool {
        well_formed(self@)
    }

    /// An empty address space with the given label.
    #[must_use]
    pub fn new(name: &str) -> (r: Self)
        ensures
            r@ == Seq::<MapEntry<S>>::empty(),
            r.label() == name@,
            r.wf(),
    {
        AddressSpace { name: name.to_owned(), mappings: Vec::new() }
    }

    /// The label that the address space was created with.
    pub fn name(&self) -> (r: &str)
        ensures
            r@ == self.label(),
    {
        self.name.as_str()
    }

    /// The base address and the span of every mapping, in the order in which
    /// the mappings are kept.
    pub fn intervals(&self) -> (r: Vec<(VirtualAddress, usize)>)
        ensures
            r@.len() == self@.len(),
            forall|i: int|
                0 <= i < self@.len() ==> (#[trigger] r@[i]) == (self@[i].addr, self@[i].span),
    {
        let n: usize = self.mappings.len();
        let mut out: Vec<(VirtualAddress, usize)> = Vec::new();
        let mut i: usize = 0;
        while i < n
            invariant
                i <= n,
                n == self.mappings.len(),
                out@.len() == i,
                forall|j: int|
                    0 <= j < i ==> (#[trigger] out@[j]) == (
                        self.mappings@[j].addr,
                        self.mappings@[j].span,
                    ),
            decreases n - i,
        {
            out.push((self.mappings[i].addr, self.mappings[i].span));
            i += 1;
        }
        out
    }

    /// Add a mapping of `span` addresses at the lowest address at which it
    /// fits, and return that address.
    ///
    /// # Errors
    /// `EmptySpan` for a span of zero, `InsufficientSpace` where no gap of
    /// `span` addresses is left. The address space is then unchanged.
    pub fn add_mapping(
        &mut self,
        source: Arc<S>,
        offset: usize,
        span: usize,
        flags: FlagBuilder,
    ) -> (r: Result<VirtualAddress, MapError>)
        requires
            old(self).wf(),
        ensures
            final(self).wf(),
            final(self).label() == old(self).label(),
            r is Err <==> (span == 0 || forall|a: int|
                0 <= a ==> !#[trigger] fits(old(self)@, a, span as int)),
            match r {
                Ok(a) => lowest_fit(old(self)@, a as int, span as int) && final(self)@ == placed(
                    old(self)@,
                    (MapEntry { source, offset, span, addr: a, flags }),
                ),
                Err(e) => final(self)@ == old(self)@ && e == (if span == 0 {
                    MapError::EmptySpan
                } else {
                    MapError::InsufficientSpace
                }),
            },
    {
        if span == 0 {
            return Err(MapError::EmptySpan);
        }
        let ghost s = self@;
        let n: usize = self.mappings.len();
        let mut spot: usize = 0;
        let mut i: usize = 0;
        while i < n
            invariant
                i <= n,
                n == self.mappings.len(),
                s == self.mappings@,
                well_formed(s),
                span > 0,
                forall|j: int| 0 <= j < i ==> !(#[trigger] s[j]).overlaps(spot as int, span as int),
                forall|b: int| 0 <= b < spot ==> !#[trigger] fits(s, b, span as int),
            decreases n - i,
        {
            let base: usize = self.mappings[i].addr;
            let len: usize = self.mappings[i].span;
            assert(s[i as int].valid());
            if !(span <= base && spot <= base - span) {
                let next: usize = base + len;
                proof {
                    assert forall|j: int| 0 <= j < i + 1 implies !(#[trigger] s[j]).overlaps(
                        next as int,
                        span as int,
                    ) by {
                        if j < i {
                            lemma_ends_before(s, j, i as int);
                        }
                    }
                    assert forall|b: int| 0 <= b < next implies !#[trigger] fits(
                        s,
                        b,
                        span as int,
                    ) by {
                        if b >= spot {
                            assert(s[i as int].overlaps(b, span as int));
                        }
                    }
                }
                spot = next;
            }
            i += 1;
        }
        if span > usize::MAX - spot {
            return Err(MapError::InsufficientSpace);
        }
        assert(fits(s, spot as int, span as int));
        match self.add_mapping_at(source, offset, span, spot, flags) {
            Ok(()) => Ok(spot),
            Err(e) => Err(e),
        }
    }

    /// Add a mapping of `span` addresses that starts exactly at `start`.
    ///
    /// # Errors
    /// `EmptySpan` for a span of zero, `InsufficientSpace` where
    /// `start + span` is not representable, `Overlap` where
    /// `[start, start + span)` shares an address with an existing mapping.
    /// The address space is then unchanged.
    pub fn add_mapping_at(
        &mut self,
        source: Arc<S>,
        offset: usize,
        span: usize,
        start: VirtualAddress,
        flags: FlagBuilder,
    ) -> (r: Result<(), MapError>)
        requires
            old(self).wf(),
        ensures
            final(self).wf(),
            final(self).label() == old(self).label(),
            r == admission(old(self)@, span as int, start as int),
            final(self)@ == (if r is Ok {
                placed(old(self)@, (MapEntry { source, offset, span, addr: start, flags }))
            } else {
                old(self)@
            }),
    {
        if span == 0 {
            return Err(MapError::EmptySpan);
        }
        if span > usize::MAX - start {
            return Err(MapError::InsufficientSpace);
        }
        let ghost s = self@;
        let n: usize = self.mappings.len();
        let mut i: usize = 0;
        while i < n && self.mappings[i].addr + self.mappings[i].span <= start
            invariant
                i <= n,
                n == self.mappings.len(),
                s == self.mappings@,
                well_formed(s),
                forall|j: int| 0 <= j < i ==> (#[trigger] s[j]).end() <= start,
            decreases n - i,
        {
            assert(s[i as int].valid());
            i += 1;
        }
        if i < n && self.mappings[i].addr < start + span {
            assert(s[i as int].overlaps(start as int, span as int));
            return Err(MapError::Overlap);
        }
        let entry = MapEntry { source, offset, span, addr: start, flags };
        proof {
            assert forall|j: int| 0 <= j < s.len() implies !(#[trigger] s[j]).overlaps(
                start as int,
                span as int,
            ) by {
                if j > i {
                    lemma_ends_before(s, i as int, j);
                }
            }
            assert forall|j: int| 0 <= j < i implies (#[trigger] s[j]).addr < start by {
                assert(s[j].valid());
            }
            assert forall|j: int| i <= j < s.len() implies (#[trigger] s[j]).addr >= start by {
                if j > i {
                    lemma_ends_before(s, i as int, j);
                }
            }
            lemma_slot_is(s, start as int, i as int);
            lemma_placed_well_formed(s, entry);
        }
        self.mappings.insert(i, entry);
        Ok(())
    }

    /// Remove the mapping that starts at `start`.
    ///
    /// The mapping is found by its base address alone: `source` is taken for
    /// the caller's convenience and is not compared with the handle that the
    /// mapping holds.
    ///
    /// # Errors
    /// `NotMapped` where no mapping starts exactly at `start`. The address
    /// space is then unchanged.
    pub fn remove_mapping(&mut self, source: Arc<S>, start: VirtualAddress) -> (r: Result<
        (),
        MapError,
    >)
        requires
            old(self).wf(),
        ensures
            final(self).wf(),
            final(self).label() == old(self).label(),
            starts_at(old(self)@, start as int) ==> r == Ok::<(), MapError>(()) && final(self)@
                == without(old(self)@, start as int),
            !starts_at(old(self)@, start as int) ==> r == Err::<(), MapError>(MapError::NotMapped)
                && final(self)@ == old(self)@,
    {
        let ghost s = self@;
        let n: usize = self.mappings.len();
        let mut i: usize = 0;
        while i < n && self.mappings[i].addr != start
            invariant
                i <= n,
                n == self.mappings.len(),
                s == self.mappings@,
                forall|j: int| 0 <= j < i ==> (#[trigger] s[j]).addr != start,
            decreases n - i,
        {
            i += 1;
        }
        if i == n {
            return Err(MapError::NotMapped);
        }
        proof {
            lemma_starts_at_slot(s, start as int);
            lemma_remove_well_formed(s, i as int);
        }
        let _ = self.mappings.remove(i);
        Ok(())
    }

    /// Translate `addr`: find the mapping that covers it and return a handle
    /// to its source together with the offset in that source that `addr`
    /// stands for.
    ///
    /// # Errors
    /// `NotMapped` where no mapping covers `addr`; `PermissionDenied` where
    /// the covering mapping lacks a capability that `access_type` names;
    /// `OffsetOverflow` where the request is permitted and the offset that
    /// `addr` stands for is not representable.
    pub fn get_source_for_addr(&self, addr: VirtualAddress, access_type: FlagBuilder) -> (r: Result<
        (Arc<S>, usize),
        MapError,
    >)
        requires
            self.wf(),
        ensures
            !mapped(self@, addr as int) ==> r == Err::<(Arc<S>, usize), MapError>(
                MapError::NotMapped,
            ),
            forall|i: int|
                0 <= i < self@.len() && (#[trigger] self@[i]).contains(addr as int) ==> r
                    == self@[i].resolve(addr as int, access_type),
    {
        let n: usize = self.mappings.len();
        let mut i: usize = 0;
        while i < n && !(self.mappings[i].addr <= addr && addr - self.mappings[i].addr
            < self.mappings[i].span)
            invariant
                i <= n,
                n == self.mappings.len(),
                forall|j: int| 0 <= j < i ==> !(#[trigger] self@[j]).contains(addr as int),
            decreases n - i,
        {
            i += 1;
        }
        if i == n {
            return Err(MapError::NotMapped);
        }
        let entry = &self.mappings[i];
        assert(entry.valid());
        let distance: usize = addr - entry.addr;
        let r = if !entry.flags.permits(access_type) {
            Err(MapError::PermissionDenied)
        } else if distance > usize::MAX - entry.offset {
            Err(MapError::OffsetOverflow)
        } else {
            Ok((share(&entry.source), entry.offset + distance))
        };
        proof {
            assert forall|j: int|
                0 <= j < self@.len() && (#[trigger] self@[j]).contains(addr as int) implies r
                == self@[j].resolve(addr as int, access_type) by {
                lemma_cover_unique(self@, addr as int, i as int, j);
            }
        }
        r
    }
}

} // verus!
