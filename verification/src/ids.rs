use vstd::prelude::*;

verus! {

/// Identifier of a node: either taken from the map data (`Osm`) or assigned by an [`IdProvider`].
#[derive(Clone, Copy, Debug, PartialEq, Eq, Hash, PartialOrd, Ord, Structural)]
pub enum NodeId {
    Osm(i64),
    Custom(i64),
}

/// Identifier of a way: either taken from map data or assigned by an [`IdProvider`].
#[derive(Clone, Copy, Debug, PartialEq, Eq, Hash, PartialOrd, Ord, Structural)]
pub enum WayId {
    Osm(i64),
    Custom(i64),
}

/// Identifier of an area, formed by a way, by a relation or custom.
#[derive(Clone, Copy, Debug, PartialEq, Eq, Hash, PartialOrd, Ord, Structural)]
pub enum AreaId {
    Way(i64),
    Relation(i64),
    Custom(i64),
}

/// Identifier of a relation: either taken from map data or assigned by an [`IdProvider`].
#[derive(Clone, Copy, Debug, PartialEq, Eq, Hash, PartialOrd, Ord, Structural)]
pub enum RelationId {
    Osm(i64),
    Custom(i64),
}

/// Hands out custom identifiers `1, 2, 3, ...`, one number per request,
/// shared between all object kinds.
#[derive(Clone, Debug)]
pub struct IdProvider {
    next_id: i64,
}

impl View for IdProvider {
    type V = int;

    /// The number that the next request hands out.
    closed spec fn view(&self) -> int {
        self.next_id as int
    }
}

impl IdProvider {
    pub fn new() -> (r: IdProvider)
        ensures
            r@ == 1,
    {
        IdProvider { next_id: 1 }
    }

    fn advance(&mut self)
        requires
            old(self)@ < i64::MAX,
        ensures
            final(self)@ == old(self)@ + 1,
    {
        self.next_id = self.next_id + 1;
    }

    pub fn node(&mut self) -> (r: NodeId)
        requires
            old(self)@ < i64::MAX,
        ensures
            r == NodeId::Custom(old(self)@ as i64),
            final(self)@ == old(self)@ + 1,
    {
        let id = NodeId::Custom(self.next_id);
        self.advance();
        id
    }

    pub fn way(&mut self) -> (r: WayId)
        requires
            old(self)@ < i64::MAX,
        ensures
            r == WayId::Custom(old(self)@ as i64),
            final(self)@ == old(self)@ + 1,
    {
        let id = WayId::Custom(self.next_id);
        self.advance();
        id
    }

    pub fn area(&mut self) -> (r: AreaId)
        requires
            old(self)@ < i64::MAX,
        ensures
            r == AreaId::Custom(old(self)@ as i64),
            final(self)@ == old(self)@ + 1,
    {
        let id = AreaId::Custom(self.next_id);
        self.advance();
        id
    }

    pub fn relation(&mut self) -> (r: RelationId)
        requires
            old(self)@ < i64::MAX,
        ensures
            r == RelationId::Custom(old(self)@ as i64),
            final(self)@ == old(self)@ + 1,
    {
        let id = RelationId::Custom(self.next_id);
        self.advance();
        id
    }
}


/// The numbers of a provider before each of a run of draws from it, in any
/// mix of `node`, `way`, `area` and `relation`: `counters[0]` is that of a new
/// provider, and each draw carries the number before it and adds one. Then
/// the draw at position `i` carries `i + 1`, and every draw carries a larger
/// number than all draws before it, so no two ids drawn from one provider
/// are equal.
pub proof fn lemma_drawn_ids_increase(counters: Seq<int>)
    requires
        counters.len() > 0,
        counters[0] == 1,
        forall|i: int| 0 <= i < counters.len() - 1 ==> #[trigger] counters[i + 1] == counters[i] + 1,
    ensures
        forall|i: int| 0 <= i < counters.len() ==> #[trigger] counters[i] == i + 1,
        forall|i: int, j: int| 0 <= i < j < counters.len() ==> #[trigger] counters[i] < #[trigger] counters[j],
    decreases counters.len(),
{
    if counters.len() > 1 {
        let shorter = counters.drop_last();
        assert forall|i: int| 0 <= i < shorter.len() - 1 implies #[trigger] shorter[i + 1] == shorter[i] + 1 by {
            assert(shorter[i + 1] == counters[i + 1]);
            assert(shorter[i] == counters[i]);
        }
        lemma_drawn_ids_increase(shorter);
        assert forall|i: int| 0 <= i < counters.len() implies #[trigger] counters[i] == i + 1 by {
            if i < counters.len() - 1 {
                assert(counters[i] == shorter[i]);
            } else {
                assert(counters[i - 1] == shorter[i - 1]);
                assert(counters[(i - 1) + 1] == counters[i - 1] + 1);
            }
        }
    }
}
} // verus!
