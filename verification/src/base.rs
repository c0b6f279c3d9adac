use vstd::prelude::*;
use crate::map::ResourceType;

verus! {

/// The base's stores: the units of energy and of crystal delivered so far.
pub struct Base {
    energy: u32,
    crystals: u32,
}

/// `b1` is `b0` after depositing `quantity` units of `resource_type`: that
/// store grows by `quantity`, the other stays.
pub open spec fn deposit_step(b0: Base, b1: Base, resource_type: ResourceType, quantity: u32) -> bool {
    &&& b1.energy() == b0.energy() + match resource_type {
        ResourceType::Energy => quantity,
        ResourceType::Crystal => 0u32,
    }
    &&& b1.crystals() == b0.crystals() + match resource_type {
        ResourceType::Energy => 0u32,
        ResourceType::Crystal => quantity,
    }
}

/// The units of kind `kind` among the deposits `ds`.
pub open spec fn deposited(ds: Seq<(ResourceType, u32)>, kind: ResourceType) -> int
    decreases ds.len(),
{
    if ds.len() == 0 {
        0
    } else {
        deposited(ds.drop_last(), kind) + if ds.last().0 == kind { ds.last().1 as int } else { 0 }
    }
}

/// After the deposits `ds`, made one after the other through the bases
/// `bs`, each store has grown by the units of its kind among `ds`.
pub proof fn lemma_deposits_sum(bs: Seq<Base>, ds: Seq<(ResourceType, u32)>)
    requires
        bs.len() == ds.len() + 1,
        forall|i: int| 0 <= i < ds.len() ==> #[trigger] deposit_step(bs[i], bs[i + 1], ds[i].0, ds[i].1),
    ensures
        bs.last().energy() == bs[0].energy() + deposited(ds, ResourceType::Energy),
        bs.last().crystals() == bs[0].crystals() + deposited(ds, ResourceType::Crystal),
    decreases ds.len(),
{
    if ds.len() > 0 {
        let n = ds.len() - 1;
        assert(deposit_step(bs[n], bs[n + 1], ds[n].0, ds[n].1));
        lemma_deposits_sum(bs.drop_last(), ds.drop_last());
        assert(bs.drop_last().last() == bs[n]);
    }
}

/// Taking one deposit out of a list takes its units out of the total.
proof fn lemma_deposited_remove(ds: Seq<(ResourceType, u32)>, j: int, kind: ResourceType)
    requires
        0 <= j < ds.len(),
    ensures
        deposited(ds, kind) == deposited(ds.remove(j), kind)
            + if ds[j].0 == kind { ds[j].1 as int } else { 0 },
    decreases ds.len(),
{
    if j == ds.len() - 1 {
        assert(ds.remove(j) =~= ds.drop_last());
    } else {
        assert(ds.remove(j).drop_last() =~= ds.drop_last().remove(j));
        assert(ds.remove(j).last() == ds.last());
        lemma_deposited_remove(ds.drop_last(), j, kind);
    }
}

/// The order of deposits does not matter: the same deposits in any order
/// make the same totals.
pub proof fn lemma_deposited_any_order(a: Seq<(ResourceType, u32)>, b: Seq<(ResourceType, u32)>, kind: ResourceType)
    requires
        a.to_multiset() == b.to_multiset(),
    ensures
        deposited(a, kind) == deposited(b, kind),
    decreases a.len(),
{
    broadcast use vstd::seq_lib::group_to_multiset_ensures;
    if a.len() == 0 {
        assert(b.to_multiset().len() == 0);
        assert(b.len() == 0);
    } else {
        let x = a.last();
        let a1 = a.drop_last();
        assert(a =~= a1.push(x));
        assert(a.to_multiset().count(x) > 0);
        assert(b.contains(x));
        let j = choose|j: int| 0 <= j < b.len() && b[j] == x;
        let b1 = b.remove(j);
        assert(b1.to_multiset() =~= b.to_multiset().remove(x));
        assert(a1.to_multiset() =~= a.to_multiset().remove(x));
        lemma_deposited_any_order(a1, b1, kind);
        lemma_deposited_remove(b, j, kind);
    }
}

/// Two runs of the same deposits from the same base, each in its own
/// order, end with the same totals of each kind.
pub proof fn lemma_deposit_order_irrelevant(
    bs: Seq<Base>,
    ds: Seq<(ResourceType, u32)>,
    cs: Seq<Base>,
    es: Seq<(ResourceType, u32)>,
)
    requires
        bs.len() == ds.len() + 1,
        cs.len() == es.len() + 1,
        forall|i: int| 0 <= i < ds.len() ==> #[trigger] deposit_step(bs[i], bs[i + 1], ds[i].0, ds[i].1),
        forall|i: int| 0 <= i < es.len() ==> #[trigger] deposit_step(cs[i], cs[i + 1], es[i].0, es[i].1),
        bs[0] == cs[0],
        ds.to_multiset() == es.to_multiset(),
    ensures
        bs.last().energy() == cs.last().energy(),
        bs.last().crystals() == cs.last().crystals(),
{
    lemma_deposits_sum(bs, ds);
    lemma_deposits_sum(cs, es);
    lemma_deposited_any_order(ds, es, ResourceType::Energy);
    lemma_deposited_any_order(ds, es, ResourceType::Crystal);
}

impl Base {
    /// Units of energy delivered so far.
    pub closed spec fn energy(&self) -> u32 {
        self.energy
    }

    /// Units of crystal delivered so far.
    pub closed spec fn crystals(&self) -> u32 {
        self.crystals
    }

    /// Whether depositing `quantity` units of `resource_type` keeps its
    /// store within `u32`.
    pub open spec fn can_deposit(&self, resource_type: ResourceType, quantity: u32) -> bool {
        match resource_type {
            ResourceType::Energy => self.energy() + quantity <= u32::MAX,
            ResourceType::Crystal => self.crystals() + quantity <= u32::MAX,
        }
    }

    /// An empty base.
    pub fn new() -> (b: Base)
        ensures
            b.energy() == 0,
            b.crystals() == 0,
    {
        Base { energy: 0, crystals: 0 }
    }

    /// Adds `quantity` units to the store of `resource_type`.
    pub fn deposit_resource(&mut self, resource_type: ResourceType, quantity: u32)
        requires
            old(self).can_deposit(resource_type, quantity),
        ensures
            deposit_step(*old(self), *final(self), resource_type, quantity),
    {
        match resource_type {
            ResourceType::Energy => {
                self.energy = self.energy + quantity;
            },
            ResourceType::Crystal => {
                self.crystals = self.crystals + quantity;
            },
        }
    }

    pub fn get_total_energy(&self) -> (e: u32)
        ensures
            e == self.energy(),
    {
        self.energy
    }

    pub fn get_total_crystals(&self) -> (c: u32)
        ensures
            c == self.crystals(),
    {
        self.crystals
    }
}

impl Default for Base {
    fn default() -> (b: Base)
        ensures
            b.energy() == 0,
            b.crystals() == 0,
    {
        Base::new()
    }
}

} // verus!
