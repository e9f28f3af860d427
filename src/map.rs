use vstd::prelude::*;

verus! {

/// A handle into one identity map: the map's tag and a slot index.
#[derive(Clone, Copy, Debug, PartialEq, Eq, Structural, PartialOrd, Ord, Hash)]
pub struct Id {
    pub map_tag: u64,
    pub index: usize,
}

/// Hands out distinct tags for new identity maps.
pub struct TagSource {
    pub next: u64,
}

/// An arena that stores payloads and hands out ids tagged with the map's own tag.
pub struct IdentityMap<T> {
    pub tag: u64,
    pub items: Vec<T>,
}

/// Why a lookup failed.
#[derive(Clone, Copy, Debug, PartialEq, Eq, Structural)]
pub enum MapError {
    InvalidIdentifier,
    TagsExhausted,
}

impl TagSource {
    pub fn new() -> (r: TagSource)
        ensures
            r.next == 0,
    {
        TagSource { next: 0 }
    }

    /// An empty map with a tag that this source has not handed out before.
    pub fn new_map<T>(&mut self) -> (r: Result<IdentityMap<T>, MapError>)
        ensures
            old(self).next < u64::MAX ==> (r matches Ok(m) && m.tag == old(self).next && m.items@.len() == 0
                && final(self).next == old(self).next + 1),
            old(self).next == u64::MAX ==> (r == Err::<IdentityMap<T>, MapError>(MapError::TagsExhausted)
                && final(self).next == old(self).next),
    {
        if self.next == u64::MAX {
            return Err(MapError::TagsExhausted);
        }
        let m = IdentityMap { tag: self.next, items: Vec::new() };
        self.next = self.next + 1;
        Ok(m)
    }
}

impl<T> IdentityMap<T> {
    pub open spec fn contains_id(&self, id: Id) -> bool {
        id.map_tag == self.tag && id.index < self.items@.len()
    }

    /// Stores `payload` under a fresh id.
    pub fn insert(&mut self, payload: T) -> (r: Id)
        ensures
            r == (Id { map_tag: old(self).tag, index: old(self).items@.len() as usize }),
            final(self).tag == old(self).tag,
            final(self).items@ == old(self).items@.push(payload),
            !old(self).contains_id(r),
            final(self).contains_id(r),
    {
        let r = Id { map_tag: self.tag, index: self.items.len() };
        self.items.push(payload);
        r
    }

    /// The payload stored under `id`; ids of other maps are refused.
    pub fn get(&self, id: Id) -> (r: Result<&T, MapError>)
        ensures
            self.contains_id(id) ==> r == Ok::<&T, MapError>(&self.items@[id.index as int]),
            !self.contains_id(id) ==> r == Err::<&T, MapError>(MapError::InvalidIdentifier),
    {
        if id.map_tag == self.tag && id.index < self.items.len() {
            Ok(&self.items[id.index])
        } else {
            Err(MapError::InvalidIdentifier)
        }
    }

    pub fn len(&self) -> (r: usize)
        ensures
            r == self.items@.len(),
    {
        self.items.len()
    }
}

/// Ids from maps with different tags never coincide, so an id of one map is never taken for an id of another.
pub proof fn lemma_no_cross_map_alias<S, T>(m1: IdentityMap<S>, m2: IdentityMap<T>, i1: Id, i2: Id)
    requires
        m1.tag != m2.tag,
        m1.contains_id(i1),
        m2.contains_id(i2),
    ensures
        i1 != i2,
        !m2.contains_id(i1),
        !m1.contains_id(i2),
{
}

} // verus!
