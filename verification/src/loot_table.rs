//! The loot-table model and its evaluator: pools of weighted entries whose
//! functions draw counts and enchantments from the shared generator, the
//! split-shuffle-place walk that fills a chest, and the fast replay that
//! rejects a candidate seed as soon as its partial loot cannot match an
//! observed chest.

use vstd::prelude::*;

verus! {

use crate::math::{Math, range_value, range_state};
use crate::random::{
    JavaRandom, bounded_value, bounded_state, spec_shuffle, shuffle, vec_swap,
};

/// An extra attribute on a generated stack: remaining durability or an
/// enchantment.
#[derive(Clone, Copy, PartialEq, Eq, Structural, Debug)]
pub enum ItemProperty {
    Damage { max_durability: i32, damage: i32 },
    Enchantment { enchantment: i32, level: i32 },
}

/// A stack of one item kind, as stored in a chest slot.
#[derive(Debug, Clone)]
pub struct ItemStack {
    pub item: usize,
    pub count: i32,
    pub max_count: i32,
    pub properties: Vec<ItemProperty>,
}

/// The mathematical value of a stack: the same fields with the property list
/// as a sequence.
pub struct ItemStackV {
    pub item: int,
    pub count: int,
    pub max_count: int,
    pub properties: Seq<ItemProperty>,
}

impl View for ItemStack {
    type V = ItemStackV;

    open spec fn view(&self) -> ItemStackV {
        ItemStackV {
            item: self.item as int,
            count: self.count as int,
            max_count: self.max_count as int,
            properties: self.properties@,
        }
    }
}

impl ItemStack {
    /// A stack with the default maximum size of 64 and no properties.
    pub fn of(item: usize, count: i32) -> (r: Self)
        ensures
            r@ == (ItemStackV {
                item: item as int,
                count: count as int,
                max_count: 64,
                properties: Seq::empty(),
            }),
    {
        let r = Self { item, count, max_count: 64, properties: Vec::new() };
        proof {
            assert(r@.properties =~= Seq::<ItemProperty>::empty());
        }
        r
    }

    /// A stack with an explicit maximum size and no properties.
    pub fn new(item: usize, count: i32, max_count: i32) -> (r: Self)
        ensures
            r@ == (ItemStackV {
                item: item as int,
                count: count as int,
                max_count: max_count as int,
                properties: Seq::empty(),
            }),
    {
        let r = Self { item, count, max_count, properties: Vec::new() };
        proof {
            assert(r@.properties =~= Seq::<ItemProperty>::empty());
        }
        r
    }

    /// A stack with explicit properties.
    pub fn with_properties(item: usize, count: i32, max_count: i32, properties: &[ItemProperty])
        -> (r: Self)
        ensures
            r@ == (ItemStackV {
                item: item as int,
                count: count as int,
                max_count: max_count as int,
                properties: properties@,
            }),
    {
        let mut props: Vec<ItemProperty> = Vec::new();
        let mut i: usize = 0;
        while i < properties.len()
            invariant
                i <= properties.len(),
                props@ == properties@.take(i as int),
            decreases properties.len() - i,
        {
            props.push(properties[i]);
            proof {
                assert(props@ =~= properties@.take(i + 1));
            }
            i = i + 1;
        }
        proof {
            assert(properties@.take(properties@.len() as int) =~= properties@);
        }
        Self { item, count, max_count, properties: props }
    }

    /// Splits off at most `count` items: the first stack carries the split
    /// amount, the second what remains.
    pub fn split(&self, count: i32) -> (r: (ItemStack, ItemStack))
        requires
            count >= 0,
        ensures
            r.0@ == (ItemStackV { count: spec_split_count(self@, count as int), ..self@ }),
            r.1@ == (ItemStackV {
                count: self@.count - spec_split_count(self@, count as int),
                ..self@
            }),
    {
        let c = if count < self.count {
            count
        } else {
            self.count
        };
        let a = ItemStack {
            item: self.item,
            count: c,
            max_count: self.max_count,
            properties: clone_properties(&self.properties),
        };
        let b = ItemStack {
            item: self.item,
            count: self.count - c,
            max_count: self.max_count,
            properties: clone_properties(&self.properties),
        };
        (a, b)
    }
}

/// The amount `split` actually takes: `count` capped by the stack's count.
pub open spec fn spec_split_count(st: ItemStackV, count: int) -> int {
    if count < st.count {
        count
    } else {
        st.count
    }
}

/// Copies a property list.
fn clone_properties(properties: &Vec<ItemProperty>) -> (r: Vec<ItemProperty>)
    ensures
        r@ == properties@,
{
    let mut r: Vec<ItemProperty> = Vec::new();
    let mut i: usize = 0;
    while i < properties.len()
        invariant
            i <= properties.len(),
            r@ == properties@.take(i as int),
        decreases properties.len() - i,
    {
        r.push(properties[i]);
        proof {
            assert(r@ =~= properties@.take(i + 1));
        }
        i = i + 1;
    }
    proof {
        assert(properties@.take(properties@.len() as int) =~= properties@);
    }
    r
}

/// Structural equality of two stacks, property by property.
pub fn stacks_equal(a: &ItemStack, b: &ItemStack) -> (r: bool)
    ensures
        r == (a@ == b@),
{
    if a.item != b.item || a.count != b.count || a.max_count != b.max_count {
        proof {
            assert(a@ != b@);
        }
        return false;
    }
    if a.properties.len() != b.properties.len() {
        proof {
            assert(a@.properties.len() != b@.properties.len());
        }
        return false;
    }
    let mut i: usize = 0;
    while i < a.properties.len()
        invariant
            i <= a.properties.len(),
            a.properties.len() == b.properties.len(),
            forall|j: int| 0 <= j < i ==> a.properties@[j] == b.properties@[j],
        decreases a.properties.len() - i,
    {
        if a.properties[i] != b.properties[i] {
            return false;
        }
        i = i + 1;
    }
    proof {
        assert(a@.properties =~= b@.properties);
    }
    true
}

/// One row of nine chest slots.
#[derive(Debug, Clone)]
pub struct ChestRow {
    pub items: Vec<Option<ItemStack>>,
}

/// A single chest: three rows of nine optional stacks.
#[derive(Debug, Clone)]
pub struct SingleChest {
    pub rows: Vec<ChestRow>,
}

/// The value of an optional stack.
pub open spec fn slot_view(s: Option<ItemStack>) -> Option<ItemStackV> {
    match s {
        Some(st) => Some(st@),
        None => None,
    }
}

impl SingleChest {
    /// Shape: exactly three rows of exactly nine slots.
    pub open spec fn wf(self) -> bool {
        &&& self.rows@.len() == 3
        &&& forall|i: int| 0 <= i < 3 ==> (#[trigger] self.rows@[i]).items@.len() == 9
    }

    /// The chest as one row-major sequence of 27 slots.
    pub open spec fn contents(self) -> Seq<Option<ItemStackV>> {
        Seq::new(27, |i: int| slot_view(self.rows@[i / 9].items@[i % 9]))
    }

    /// An empty chest.
    pub fn new() -> (r: Self)
        ensures
            r.wf(),
            forall|i: int| 0 <= i < 27 ==> r.contents()[i] is None,
    {
        let mut rows: Vec<ChestRow> = Vec::new();
        let mut i: usize = 0;
        while i < 3
            invariant
                i <= 3,
                rows@.len() == i,
                forall|a: int|
                    0 <= a < i ==> (#[trigger] rows@[a]).items@.len() == 9 && forall|b: int|
                        0 <= b < 9 ==> (#[trigger] rows@[a].items@[b]) is None,
            decreases 3 - i,
        {
            let mut items: Vec<Option<ItemStack>> = Vec::new();
            let mut j: usize = 0;
            while j < 9
                invariant
                    j <= 9,
                    items@.len() == j,
                    forall|b: int| 0 <= b < j ==> (#[trigger] items@[b]) is None,
                decreases 9 - j,
            {
                items.push(None);
                j = j + 1;
            }
            rows.push(ChestRow { items });
            i = i + 1;
        }
        SingleChest { rows }
    }

    /// The slot at `slot`, or `None` when the index is out of range.
    pub fn get_slot(&self, slot: i32) -> (r: Option<Option<&ItemStack>>)
        requires
            self.wf(),
        ensures
            (0 <= slot < 27) <==> r is Some,
            r matches Some(inner) ==> slot_view_ref(inner) == self.contents()[slot as int],
    {
        if slot < 0 || slot >= 27 {
            None
        } else {
            let row = &self.rows[(slot as usize) / 9];
            Some(row.items[(slot as usize) % 9].as_ref())
        }
    }

    /// Stores `item` at `slot`; indices out of range are ignored.
    pub fn set_item(&mut self, slot: i32, item: Option<ItemStack>)
        requires
            old(self).wf(),
        ensures
            final(self).wf(),
            0 <= slot < 27 ==> final(self).contents() == old(self).contents().update(
                slot as int,
                slot_view(item),
            ),
            !(0 <= slot < 27) ==> final(self).contents() == old(self).contents(),
    {
        if slot < 0 || slot >= 27 {
            proof {
                assert(final(self).contents() =~= old(self).contents());
            }
            return;
        }
        let r = (slot as usize) / 9;
        let c = (slot as usize) % 9;
        let ghost item_v = slot_view(item);
        let mut row = self.rows.remove(r);
        row.items.set(c, item);
        self.rows.insert(r, row);
        proof {
            assert forall|i: int| 0 <= i < 27 implies final(self).contents()[i] == old(
                self,
            ).contents().update(slot as int, item_v)[i] by {
                assert(final(self).rows@.len() == 3);
                if i != slot {
                    assert(final(self).rows@[i / 9].items@[i % 9] == old(self).rows@[i / 9].items@[i
                        % 9]);
                }
            }
            assert(final(self).contents() =~= old(self).contents().update(slot as int, item_v));
        }
    }

    /// The stack at `slot`, or `None` for empty or out-of-range slots.
    pub fn get_item(&self, slot: i32) -> (r: Option<&ItemStack>)
        requires
            self.wf(),
        ensures
            0 <= slot < 27 ==> slot_view_ref(r) == self.contents()[slot as int],
            !(0 <= slot < 27) ==> r is None,
    {
        match self.get_slot(slot) {
            Some(inner) => inner,
            None => None,
        }
    }

    /// Takes the stack out of `slot`, leaving it empty.
    pub fn remove_item(&mut self, slot: i32) -> (r: Option<ItemStack>)
        requires
            old(self).wf(),
        ensures
            final(self).wf(),
            0 <= slot < 27 ==> {
                &&& slot_view(r) == old(self).contents()[slot as int]
                &&& final(self).contents() == old(self).contents().update(slot as int, None)
            },
            !(0 <= slot < 27) ==> r is None && final(self).contents() == old(self).contents(),
    {
        if slot < 0 || slot >= 27 {
            proof {
                assert(final(self).contents() =~= old(self).contents());
            }
            return None;
        }
        let r = (slot as usize) / 9;
        let c = (slot as usize) % 9;
        let mut row = self.rows.remove(r);
        let taken = row.items.remove(c);
        row.items.insert(c, None);
        self.rows.insert(r, row);
        proof {
            assert forall|i: int| 0 <= i < 27 implies final(self).contents()[i] == old(
                self,
            ).contents().update(slot as int, None)[i] by {
                if i != slot {
                    assert(final(self).rows@[i / 9].items@[i % 9] == old(self).rows@[i / 9].items@[i
                        % 9]);
                }
            }
            assert(final(self).contents() =~= old(self).contents().update(slot as int, None));
        }
        taken
    }

    /// Empties every slot.
    pub fn clear(&mut self)
        requires
            old(self).wf(),
        ensures
            final(self).wf(),
            forall|i: int| 0 <= i < 27 ==> final(self).contents()[i] is None,
    {
        let mut slot: i32 = 0;
        while slot < 27
            invariant
                0 <= slot <= 27,
                self.wf(),
                forall|i: int| 0 <= i < slot ==> self.contents()[i] is None,
            decreases 27 - slot,
        {
            self.set_item(slot, None);
            slot = slot + 1;
        }
    }

    /// The number of slots.
    pub fn slot_count(&self) -> (r: i32)
        ensures
            r == 27,
    {
        27
    }
}

/// The value of an optional borrowed stack.
pub open spec fn slot_view_ref(s: Option<&ItemStack>) -> Option<ItemStackV> {
    match s {
        Some(st) => Some(st@),
        None => None,
    }
}

/// Structural equality of two chests, slot by slot.
pub fn chests_equal(a: &SingleChest, b: &SingleChest) -> (r: bool)
    requires
        a.wf(),
        b.wf(),
    ensures
        r == (a.contents() == b.contents()),
{
    let mut slot: i32 = 0;
    while slot < 27
        invariant
            0 <= slot <= 27,
            a.wf(),
            b.wf(),
            forall|i: int| 0 <= i < slot ==> a.contents()[i] == b.contents()[i],
        decreases 27 - slot,
    {
        let sa = a.get_item(slot);
        let sb = b.get_item(slot);
        let same = match (sa, sb) {
            (None, None) => true,
            (Some(x), Some(y)) => stacks_equal(x, y),
            _ => false,
        };
        if !same {
            proof {
                assert(a.contents()[slot as int] != b.contents()[slot as int]);
            }
            return false;
        }
        slot = slot + 1;
    }
    proof {
        assert(a.contents() =~= b.contents());
    }
    true
}


/// An inclusive integer range, or a constant.
#[derive(Debug, Clone, Copy, PartialEq, Eq, Structural)]
pub enum LootTableRange {
    Uniform { min: i32, max: i32 },
    Constant { value: i32 },
}

impl LootTableRange {
    /// Sane bounds: drawn values always land in `[0, 255]`, so counts and
    /// roll numbers stay far from any overflow.  A reversed range is allowed
    /// and always yields its `min`.
    pub open spec fn wf(self) -> bool {
        match self {
            LootTableRange::Uniform { min, max } => 0 <= min <= 0xFF && 0 <= max <= 0xFF,
            LootTableRange::Constant { value } => 0 <= value <= 0xFF,
        }
    }

    /// The drawn value and the state left behind: a bounded draw shifted into
    /// the range, or the constant with no draw at all.
    pub open spec fn spec_apply(self, s: int) -> (int, int) {
        match self {
            LootTableRange::Uniform { min, max } => (
                range_value(s, min as int, max as int),
                range_state(s, min as int, max as int),
            ),
            LootTableRange::Constant { value } => (value as int, s),
        }
    }

    /// Draws from the range.
    pub fn apply(&self, rng: &mut JavaRandom) -> (r: i32)
        requires
            old(rng).wf(),
            self.wf(),
        ensures
            final(rng).wf(),
            r == self.spec_apply(old(rng).state()).0,
            final(rng).state() == self.spec_apply(old(rng).state()).1,
            0 <= r,
    {
        match self {
            LootTableRange::Uniform { min, max } => Math::next_int(rng, *min, *max),
            LootTableRange::Constant { value } => *value,
        }
    }
}

/// A count or enchantment modifier applied to a freshly rolled stack.
#[derive(Debug, Clone)]
pub enum LootFunction {
    /// Replaces the stack count with a draw from the range.
    SetCount(SetCountFunction),
    /// Adds one enchantment picked uniformly from a list, with a level drawn
    /// from the enchantment's own range.
    SetEnchantsRandomly(SetEnchantsRandomlyFunction),
}

/// The mathematical value of a loot function.
pub enum LootFunctionV {
    SetCount(LootTableRange),
    SetEnchantsRandomly(Seq<(i32, i32, i32)>),
}

impl View for LootFunction {
    type V = LootFunctionV;

    open spec fn view(&self) -> LootFunctionV {
        match self {
            LootFunction::SetCount(f) => LootFunctionV::SetCount(f.range),
            LootFunction::SetEnchantsRandomly(f) => LootFunctionV::SetEnchantsRandomly(
                f.enchantments@,
            ),
        }
    }
}

/// Bounds under which a function can be applied without overflow.
pub open spec fn function_wf(f: LootFunctionV) -> bool {
    match f {
        LootFunctionV::SetCount(range) => range.wf(),
        LootFunctionV::SetEnchantsRandomly(enchantments) => {
            &&& enchantments.len() <= i32::MAX
            &&& forall|i: int|
                0 <= i < enchantments.len() ==> {
                    let (_e, min, max) = #[trigger] enchantments[i];
                    min < max ==> max - min + 1 <= i32::MAX
                }
        },
    }
}

/// Replaces the stack count with a drawn value.
#[derive(Debug, Clone)]
pub struct SetCountFunction {
    pub range: LootTableRange,
}

impl SetCountFunction {
    pub fn new(range: LootTableRange) -> (r: Self)
        ensures
            r.range == range,
    {
        Self { range }
    }

    pub fn constant(value: i32) -> (r: Self)
        ensures
            r.range == (LootTableRange::Constant { value }),
    {
        Self::new(LootTableRange::Constant { value })
    }

    pub fn uniform(min: i32, max: i32) -> (r: Self)
        ensures
            r.range == (LootTableRange::Uniform { min, max }),
    {
        Self::new(LootTableRange::Uniform { min, max })
    }

    pub fn as_function(self) -> (r: LootFunction)
        ensures
            r@ == LootFunctionV::SetCount(self.range),
    {
        LootFunction::SetCount(self)
    }
}

/// Adds one enchantment picked from a list of `(id, min_level, max_level)`.
#[derive(Debug, Clone)]
pub struct SetEnchantsRandomlyFunction {
    pub enchantments: Vec<(i32, i32, i32)>,
}

impl SetEnchantsRandomlyFunction {
    pub fn builder() -> (r: SetEnchantsRandomlyFunctionBuilder)
        ensures
            r.func.enchantments@ == Seq::<(i32, i32, i32)>::empty(),
    {
        SetEnchantsRandomlyFunctionBuilder {
            func: SetEnchantsRandomlyFunction { enchantments: Vec::new() },
        }
    }

    pub fn as_function(self) -> (r: LootFunction)
        ensures
            r@ == LootFunctionV::SetEnchantsRandomly(self.enchantments@),
    {
        LootFunction::SetEnchantsRandomly(self)
    }
}

/// Builder for [`SetEnchantsRandomlyFunction`].
#[derive(Debug, Clone)]
pub struct SetEnchantsRandomlyFunctionBuilder {
    pub func: SetEnchantsRandomlyFunction,
}

impl SetEnchantsRandomlyFunctionBuilder {
    pub fn build(self) -> (r: SetEnchantsRandomlyFunction)
        ensures
            r.enchantments@ == self.func.enchantments@,
    {
        self.func
    }

    pub fn enchantment(self, enchantment: i32, min_level: i32, max_level: i32) -> (r: Self)
        ensures
            r.func.enchantments@ == self.func.enchantments@.push((enchantment, min_level, max_level)),
    {
        let mut b = self;
        b.func.enchantments.push((enchantment, min_level, max_level));
        b
    }

    pub fn enchant(self, enchantment: (i32, i32, i32)) -> (r: Self)
        ensures
            r.func.enchantments@ == self.func.enchantments@.push(enchantment),
    {
        let mut b = self;
        b.func.enchantments.push(enchantment);
        b
    }

    /// Adds every enchantment whose id is not already present.
    pub fn all_of(self, enchantments: &[(i32, i32, i32)]) -> (r: Self)
        ensures
            r.func.enchantments@ == spec_all_of(self.func.enchantments@, enchantments@),
    {
        let mut b = self;
        let mut i: usize = 0;
        while i < enchantments.len()
            invariant
                i <= enchantments.len(),
                b.func.enchantments@ == spec_all_of(
                    self.func.enchantments@,
                    enchantments@.take(i as int),
                ),
            decreases enchantments.len() - i,
        {
            let e = enchantments[i];
            let mut seen = false;
            let mut j: usize = 0;
            while j < b.func.enchantments.len()
                invariant
                    j <= b.func.enchantments.len(),
                    seen == (exists|k: int|
                        0 <= k < j && (#[trigger] b.func.enchantments@[k]).0 == e.0),
                decreases b.func.enchantments.len() - j,
            {
                if b.func.enchantments[j].0 == e.0 {
                    seen = true;
                }
                j = j + 1;
            }
            proof {
                assert(seen == has_enchant_id(b.func.enchantments@, e.0 as int));
                assert(enchantments@.take(i + 1).drop_last() =~= enchantments@.take(i as int));
                assert(enchantments@.take(i + 1).last() == e);
            }
            if !seen {
                b.func.enchantments.push(e);
            }
            i = i + 1;
        }
        proof {
            assert(enchantments@.take(enchantments@.len() as int) =~= enchantments@);
        }
        b
    }
}

/// Whether some listed enchantment has the id `id`.
pub open spec fn has_enchant_id(list: Seq<(i32, i32, i32)>, id: int) -> bool {
    exists|k: int| 0 <= k < list.len() && (#[trigger] list[k]).0 == id
}

/// The dedup-append of `all_of`: each new enchantment is appended unless its
/// id is already present.
pub open spec fn spec_all_of(acc: Seq<(i32, i32, i32)>, add: Seq<(i32, i32, i32)>) -> Seq<
    (i32, i32, i32),
>
    decreases add.len(),
{
    if add.len() == 0 {
        acc
    } else {
        let prefix = spec_all_of(acc, add.drop_last());
        if has_enchant_id(prefix, add.last().0 as int) {
            prefix
        } else {
            prefix.push(add.last())
        }
    }
}

/// One weighted way a pool roll can produce a stack.
#[derive(Debug, Clone)]
pub struct ItemLootPoolEntry {
    pub weight: i32,
    pub quality: i32,
    pub stack_size: i32,
    pub item: usize,
    pub functions: Vec<LootFunction>,
}

/// The mathematical value of an entry.
pub struct ItemLootPoolEntryV {
    pub weight: int,
    pub quality: int,
    pub stack_size: int,
    pub item: int,
    pub functions: Seq<LootFunctionV>,
}

impl View for ItemLootPoolEntry {
    type V = ItemLootPoolEntryV;

    open spec fn view(&self) -> ItemLootPoolEntryV {
        ItemLootPoolEntryV {
            weight: self.weight as int,
            quality: self.quality as int,
            stack_size: self.stack_size as int,
            item: self.item as int,
            functions: self.functions@.map_values(|f: LootFunction| f@),
        }
    }
}

/// Bounds under which an entry can be rolled without overflow.
pub open spec fn entry_wf(e: ItemLootPoolEntryV) -> bool {
    &&& 1 <= e.weight <= 0xFFFF
    &&& 0 <= e.quality <= 0xFF
    &&& 1 <= e.stack_size
    &&& 0 <= e.item
    &&& forall|i: int| 0 <= i < e.functions.len() ==> function_wf(#[trigger] e.functions[i])
}

/// A pool: a roll-count range over a non-empty list of weighted entries.
#[derive(Debug, Clone)]
pub struct LootPool {
    pub rolls: LootTableRange,
    pub entries: Vec<ItemLootPoolEntry>,
}

/// The mathematical value of a pool.
pub struct LootPoolV {
    pub rolls: LootTableRange,
    pub entries: Seq<ItemLootPoolEntryV>,
}

impl View for LootPool {
    type V = LootPoolV;

    open spec fn view(&self) -> LootPoolV {
        LootPoolV {
            rolls: self.rolls,
            entries: self.entries@.map_values(|e: ItemLootPoolEntry| e@),
        }
    }
}

/// Bounds under which a pool can be rolled without overflow.
pub open spec fn pool_wf(p: LootPoolV) -> bool {
    &&& p.rolls.wf()
    &&& 1 <= p.entries.len() <= 64
    &&& forall|i: int| 0 <= i < p.entries.len() ==> entry_wf(#[trigger] p.entries[i])
}

/// An ordered collection of pools evaluated in sequence.
#[derive(Debug, Clone)]
pub struct LootTable {
    pub pools: Vec<LootPool>,
}

impl View for LootTable {
    type V = Seq<LootPoolV>;

    open spec fn view(&self) -> Seq<LootPoolV> {
        self.pools@.map_values(|p: LootPool| p@)
    }
}

/// Bounds under which a table can be rolled without overflow.
pub open spec fn table_wf(t: Seq<LootPoolV>) -> bool {
    forall|i: int| 0 <= i < t.len() ==> pool_wf(#[trigger] t[i])
}

/// Every item the table can produce lies below `palette`.
pub open spec fn table_items_below(t: Seq<LootPoolV>, palette: int) -> bool {
    forall|i: int, j: int|
        0 <= i < t.len() && 0 <= j < t[i].entries.len() ==> (#[trigger] t[i].entries[j]).item
            < palette
}

/// The luck values the evaluator accepts: small enough in either direction
/// that the weight arithmetic stays inside `i32`.
pub open spec fn luck_wf(luck: int) -> bool {
    -0xFF <= luck <= 0xFF
}

/// A pool can be rolled under `luck`: either the selection is skipped (one
/// entry) or some effective weight remains; a zero total would send the
/// selection of the reference implementation out of bounds.
pub open spec fn pool_positive(entries: Seq<ItemLootPoolEntryV>, luck: int) -> bool {
    entries.len() == 1 || total_weight(entries, luck) >= 1
}

/// Every pool of the table can be rolled under `luck`.
pub open spec fn table_positive(t: Seq<LootPoolV>, luck: int) -> bool {
    forall|i: int| 0 <= i < t.len() ==> pool_positive((#[trigger] t[i]).entries, luck)
}

/// Under non-negative luck every well-formed pool keeps a positive total
/// weight, since base weights are at least one.
pub proof fn lemma_nonneg_luck_positive(t: Seq<LootPoolV>, luck: int)
    requires
        table_wf(t),
        0 <= luck <= 0xFF,
    ensures
        table_positive(t, luck),
{
    assert forall|i: int| 0 <= i < t.len() implies pool_positive(
        (#[trigger] t[i]).entries,
        luck,
    ) by {
        lemma_total_weight_lower(t[i].entries, luck);
    }
}

/// The total weight of well-formed entries under non-negative luck is at
/// least their number.
pub proof fn lemma_total_weight_lower(entries: Seq<ItemLootPoolEntryV>, luck: int)
    requires
        forall|i: int| 0 <= i < entries.len() ==> entry_wf(#[trigger] entries[i]),
        0 <= luck <= 0xFF,
    ensures
        total_weight(entries, luck) >= entries.len(),
    decreases entries.len(),
{
    if entries.len() > 0 {
        lemma_total_weight_lower(entries.drop_last(), luck);
        let e = entries.last();
        vstd::arithmetic::mul::lemma_mul_nonnegative(e.quality, luck);
    }
}

impl LootTable {
    /// A table over the given pools.
    pub fn new(pools: Vec<LootPool>) -> (r: Self)
        ensures
            r@ == pools@.map_values(|p: LootPool| p@),
    {
        Self { pools }
    }
}

/// Builder for [`LootTable`].
#[derive(Debug, Clone)]
pub struct LootTableBuilder {
    pub table: LootTable,
}

impl LootTableBuilder {
    pub fn new() -> (r: Self)
        ensures
            r.table@ == Seq::<LootPoolV>::empty(),
    {
        let r = Self { table: LootTable { pools: Vec::new() } };
        proof {
            assert(r.table@ =~= Seq::<LootPoolV>::empty());
        }
        r
    }

    pub fn build(self) -> (r: LootTable)
        ensures
            r@ == self.table@,
    {
        self.table
    }

    pub fn pool(self, pool: LootPool) -> (r: Self)
        ensures
            r.table@ == self.table@.push(pool@),
    {
        let mut b = self;
        let ghost before = b.table@;
        b.table.pools.push(pool);
        proof {
            assert(b.table@ =~= before.push(pool@));
        }
        b
    }
}

/// Builder for [`LootPool`].
#[derive(Debug, Clone)]
pub struct LootPoolBuilder {
    pub pool: LootPool,
}

impl LootPoolBuilder {
    pub fn new() -> (r: Self)
        ensures
            r.pool@.rolls == (LootTableRange::Constant { value: 0 }),
            r.pool@.entries == Seq::<ItemLootPoolEntryV>::empty(),
    {
        let r = Self {
            pool: LootPool { rolls: LootTableRange::Constant { value: 0 }, entries: Vec::new() },
        };
        proof {
            assert(r.pool@.entries =~= Seq::<ItemLootPoolEntryV>::empty());
        }
        r
    }

    pub fn build(self) -> (r: LootPool)
        ensures
            r@ == self.pool@,
    {
        self.pool
    }

    pub fn rolls(self, rolls: LootTableRange) -> (r: Self)
        ensures
            r.pool@.rolls == rolls,
            r.pool@.entries == self.pool@.entries,
    {
        let mut b = self;
        b.pool.rolls = rolls;
        b
    }

    pub fn rolls_const(self, value: i32) -> (r: Self)
        ensures
            r.pool@.rolls == (LootTableRange::Constant { value }),
            r.pool@.entries == self.pool@.entries,
    {
        self.rolls(LootTableRange::Constant { value })
    }

    pub fn rolls_uniform(self, min: i32, max: i32) -> (r: Self)
        ensures
            r.pool@.rolls == (LootTableRange::Uniform { min, max }),
            r.pool@.entries == self.pool@.entries,
    {
        self.rolls(LootTableRange::Uniform { min, max })
    }

    pub fn entry_item(self, item: ItemLootPoolEntry) -> (r: Self)
        ensures
            r.pool@.rolls == self.pool@.rolls,
            r.pool@.entries == self.pool@.entries.push(item@),
    {
        let mut b = self;
        let ghost before = b.pool@.entries;
        b.pool.entries.push(item);
        proof {
            assert(b.pool@.entries =~= before.push(item@));
        }
        b
    }
}

/// Builder for [`ItemLootPoolEntry`].
#[derive(Debug, Clone)]
pub struct ItemLootPoolEntryBuilder {
    pub entry: ItemLootPoolEntry,
}

impl ItemLootPoolEntryBuilder {
    /// Defaults: weight 1, quality 1, stack size 64, no functions.
    pub fn new(item: usize) -> (r: Self)
        ensures
            r.entry@ == (ItemLootPoolEntryV {
                weight: 1,
                quality: 1,
                stack_size: 64,
                item: item as int,
                functions: Seq::empty(),
            }),
    {
        let r = Self {
            entry: ItemLootPoolEntry {
                weight: 1,
                quality: 1,
                stack_size: 64,
                item,
                functions: Vec::new(),
            },
        };
        proof {
            assert(r.entry@.functions =~= Seq::<LootFunctionV>::empty());
        }
        r
    }

    pub fn build(self) -> (r: ItemLootPoolEntry)
        ensures
            r@ == self.entry@,
    {
        self.entry
    }

    pub fn weight(self, weight: i32) -> (r: Self)
        ensures
            r.entry@ == (ItemLootPoolEntryV { weight: weight as int, ..self.entry@ }),
    {
        let mut b = self;
        b.entry.weight = weight;
        b
    }

    pub fn quality(self, quality: i32) -> (r: Self)
        ensures
            r.entry@ == (ItemLootPoolEntryV { quality: quality as int, ..self.entry@ }),
    {
        let mut b = self;
        b.entry.quality = quality;
        b
    }

    pub fn item_stack_size(self, stack_size: i32) -> (r: Self)
        ensures
            r.entry@ == (ItemLootPoolEntryV { stack_size: stack_size as int, ..self.entry@ }),
    {
        let mut b = self;
        b.entry.stack_size = stack_size;
        b
    }

    pub fn item(self, item: usize) -> (r: Self)
        ensures
            r.entry@ == (ItemLootPoolEntryV { item: item as int, ..self.entry@ }),
    {
        let mut b = self;
        b.entry.item = item;
        b
    }

    pub fn function(self, function: LootFunction) -> (r: Self)
        ensures
            r.entry@ == (ItemLootPoolEntryV {
                functions: self.entry@.functions.push(function@),
                ..self.entry@
            }),
    {
        let mut b = self;
        let ghost before = b.entry@.functions;
        b.entry.functions.push(function);
        proof {
            assert(b.entry@.functions =~= before.push(function@));
        }
        b
    }
}


/// The effective weight of an entry under `luck`: the base weight plus the
/// quality bonus, floored at zero.
pub open spec fn entry_weight(e: ItemLootPoolEntryV, luck: int) -> int {
    let w = e.weight + e.quality * luck;
    if w > 0 {
        w
    } else {
        0
    }
}

/// The sum of the effective weights of all entries.
pub open spec fn total_weight(entries: Seq<ItemLootPoolEntryV>, luck: int) -> int
    decreases entries.len(),
{
    if entries.len() == 0 {
        0
    } else {
        total_weight(entries.drop_last(), luck) + entry_weight(entries.last(), luck)
    }
}

/// Walks the entries from `k` on, consuming weight from `i`, and stops at the
/// first entry whose weight exceeds what is left (capped at the last entry).
pub open spec fn select_from(entries: Seq<ItemLootPoolEntryV>, luck: int, i: int, k: nat) -> nat
    decreases entries.len() - k,
{
    if k + 1 >= entries.len() {
        k
    } else if i < entry_weight(entries[k as int], luck) {
        k
    } else {
        select_from(entries, luck, i - entry_weight(entries[k as int], luck), (k + 1) as nat)
    }
}

/// The entry index a roll picks and the state it leaves: pools with one entry
/// skip the draw entirely.
pub open spec fn spec_select(entries: Seq<ItemLootPoolEntryV>, luck: int, s: int) -> (nat, int) {
    if entries.len() == 1 {
        (0nat, s)
    } else {
        let total = total_weight(entries, luck);
        (select_from(entries, luck, bounded_value(s, total), 0), bounded_state(s, total))
    }
}

/// One function applied to a stack: the new stack and the state left behind.
pub open spec fn spec_apply_function(f: LootFunctionV, st: ItemStackV, s: int) -> (ItemStackV, int) {
    match f {
        LootFunctionV::SetCount(range) => {
            let (v, s1) = range.spec_apply(s);
            (ItemStackV { count: v, ..st }, s1)
        },
        LootFunctionV::SetEnchantsRandomly(list) => {
            if list.len() == 0 {
                (st, s)
            } else {
                let i = bounded_value(s, list.len() as int);
                let s1 = bounded_state(s, list.len() as int);
                let (e, minl, maxl) = list[i];
                let lv = range_value(s1, minl as int, maxl as int);
                let s2 = range_state(s1, minl as int, maxl as int);
                (
                    ItemStackV {
                        properties: st.properties.push(
                            ItemProperty::Enchantment { enchantment: e, level: lv as i32 },
                        ),
                        ..st
                    },
                    s2,
                )
            }
        },
    }
}

/// A function list applied left to right.
pub open spec fn spec_apply_functions(fs: Seq<LootFunctionV>, st: ItemStackV, s: int) -> (
    ItemStackV,
    int,
)
    decreases fs.len(),
{
    if fs.len() == 0 {
        (st, s)
    } else {
        let (st1, s1) = spec_apply_function(fs[0], st, s);
        spec_apply_functions(fs.drop_first(), st1, s1)
    }
}

/// The stack an entry rolls: one item with the entry's stack size, run
/// through its functions.
pub open spec fn spec_entry_gen(e: ItemLootPoolEntryV, luck: int, s: int) -> (ItemStackV, int) {
    spec_apply_functions(
        e.functions,
        ItemStackV { item: e.item, count: 1, max_count: e.stack_size, properties: Seq::empty() },
        s,
    )
}

/// `n` rolls of a pool: each selects an entry by weight and rolls it.
pub open spec fn spec_rolls_gen(entries: Seq<ItemLootPoolEntryV>, luck: int, n: nat, s: int) -> (
    Seq<ItemStackV>,
    int,
)
    decreases n,
{
    if n == 0 {
        (Seq::empty(), s)
    } else {
        let (idx, s1) = spec_select(entries, luck, s);
        let (st, s2) = spec_entry_gen(entries[idx as int], luck, s1);
        let (rest, s3) = spec_rolls_gen(entries, luck, (n - 1) as nat, s2);
        (seq![st] + rest, s3)
    }
}

/// One pool: draw the roll count, then roll that many stacks.
pub open spec fn spec_pool_gen(p: LootPoolV, luck: int, s: int) -> (Seq<ItemStackV>, int) {
    let (rv, s1) = p.rolls.spec_apply(s);
    spec_rolls_gen(p.entries, luck, (if rv >= 0 { rv } else { 0 }) as nat, s1)
}

/// The whole table: pools evaluated in order on the shared state.
pub open spec fn spec_table_gen(t: Seq<LootPoolV>, luck: int, s: int) -> (Seq<ItemStackV>, int)
    decreases t.len(),
{
    if t.len() == 0 {
        (Seq::empty(), s)
    } else {
        let (l0, s1) = spec_pool_gen(t[0], luck, s);
        let (rest, s2) = spec_table_gen(t.drop_first(), luck, s1);
        (l0 + rest, s2)
    }
}

impl LootFunction {
    /// Applies the function to a stack, drawing from the generator.
    pub fn apply(&self, item: ItemStack, rng: &mut JavaRandom, luck: i32) -> (r: ItemStack)
        requires
            old(rng).wf(),
            function_wf(self@),
        ensures
            final(rng).wf(),
            r@ == spec_apply_function(self@, item@, old(rng).state()).0,
            final(rng).state() == spec_apply_function(self@, item@, old(rng).state()).1,
    {
        match self {
            LootFunction::SetCount(f) => {
                let count = f.range.apply(rng);
                ItemStack {
                    item: item.item,
                    count,
                    max_count: item.max_count,
                    properties: item.properties,
                }
            },
            LootFunction::SetEnchantsRandomly(f) => {
                if f.enchantments.len() == 0 {
                    return item;
                }
                let i = rng.next_bounded_int(f.enchantments.len() as i32);
                let (enchant, min_level, max_level) = f.enchantments[i as usize];
                let level = Math::next_int(rng, min_level, max_level);
                let mut item = item;
                let ghost before = item@.properties;
                item.properties.push(ItemProperty::Enchantment { enchantment: enchant, level });
                proof {
                    assert(item@.properties =~= before.push(
                        ItemProperty::Enchantment { enchantment: enchant, level },
                    ));
                }
                item
            },
        }
    }
}

impl ItemLootPoolEntry {
    /// The effective weight of this entry under `luck`.
    pub fn get_weight(&self, luck: i32) -> (r: i32)
        requires
            entry_wf(self@),
            luck_wf(luck as int),
        ensures
            r == entry_weight(self@, luck as int),
            0 <= r <= 0x1FFFF,
    {
        proof {
            assert(-0xFF * 0xFF <= (self.quality as int) * (luck as int) <= 0xFF * 0xFF)
                by (nonlinear_arith)
                requires
                    0 <= self.quality <= 0xFF && -0xFF <= luck <= 0xFF,
            ;
        }
        let w = self.weight + self.quality * luck;
        if w > 0 {
            w
        } else {
            0
        }
    }

    /// Rolls this entry: a fresh stack run through the entry's functions.
    pub fn generate_raw_loot(&self, rng: &mut JavaRandom, luck: i32) -> (r: ItemStack)
        requires
            old(rng).wf(),
            entry_wf(self@),
            luck_wf(luck as int),
        ensures
            final(rng).wf(),
            r@ == spec_entry_gen(self@, luck as int, old(rng).state()).0,
            final(rng).state() == spec_entry_gen(self@, luck as int, old(rng).state()).1,
    {
        let mut item_stack = ItemStack {
            item: self.item,
            count: 1,
            max_count: self.stack_size,
            properties: Vec::new(),
        };
        proof {
            assert(item_stack@.properties =~= Seq::<ItemProperty>::empty());
        }
        let ghost start = item_stack@;
        let ghost s0 = rng.state();
        proof {
            assert(self@.functions.skip(0) =~= self@.functions);
        }
        let mut i: usize = 0;
        while i < self.functions.len()
            invariant
                rng.wf(),
                i <= self.functions.len(),
                entry_wf(self@),
                luck_wf(luck as int),
                spec_apply_functions(self@.functions.skip(i as int), item_stack@, rng.state())
                    == spec_apply_functions(self@.functions, start, s0),
            decreases self.functions.len() - i,
        {
            let ghost fs_here = self@.functions.skip(i as int);
            let ghost st_here = item_stack@;
            let ghost s_here = rng.state();
            assert(self@.functions[i as int] == self.functions@[i as int]@);
            item_stack = self.functions[i].apply(item_stack, rng, luck);
            proof {
                assert(fs_here[0] == self@.functions[i as int]);
                assert(fs_here.drop_first() =~= self@.functions.skip(i + 1));
            }
            i = i + 1;
        }
        proof {
            assert(self@.functions.skip(self@.functions.len() as int) =~= Seq::<
                LootFunctionV,
            >::empty());
        }
        item_stack
    }
}

impl LootPool {
    /// Picks the entry index for one roll: a weighted draw, skipped when the
    /// pool has a single entry.
    fn select_entry(&self, rng: &mut JavaRandom, luck: i32) -> (r: usize)
        requires
            old(rng).wf(),
            pool_wf(self@),
            luck_wf(luck as int),
            pool_positive(self@.entries, luck as int),
        ensures
            final(rng).wf(),
            r == spec_select(self@.entries, luck as int, old(rng).state()).0,
            final(rng).state() == spec_select(self@.entries, luck as int, old(rng).state()).1,
            r < self@.entries.len(),
    {
        if self.entries.len() == 1 {
            return 0;
        }
        let mut total: i32 = 0;
        let mut k: usize = 0;
        while k < self.entries.len()
            invariant
                k <= self.entries.len(),
                pool_wf(self@),
                luck_wf(luck as int),
                total == total_weight(self@.entries.take(k as int), luck as int),
                0 <= total <= k * 0x1FFFF,
            decreases self.entries.len() - k,
        {
            proof {
                assert(self@.entries[k as int] == self.entries@[k as int]@);
            }
            let w = self.entries[k].get_weight(luck);
            proof {
                assert(self@.entries.take(k + 1).drop_last() =~= self@.entries.take(k as int));
                assert(self@.entries.take(k + 1).last() == self@.entries[k as int]);
            }
            total = total + w;
            k = k + 1;
        }
        proof {
            assert(self@.entries.take(self@.entries.len() as int) =~= self@.entries);
        }
        let ghost sel = spec_select(self@.entries, luck as int, old(rng).state());
        let i = rng.next_bounded_int(total);
        let ghost i0 = i as int;
        let mut remaining = i;
        let mut idx: usize = 0;
        proof {
            assert(sel.0 == select_from(self@.entries, luck as int, i0, 0));
            assert(sel.1 == rng.state());
        }
        loop
            invariant
                pool_wf(self@),
                luck_wf(luck as int),
                rng.wf(),
                idx < self@.entries.len(),
                sel == spec_select(self@.entries, luck as int, old(rng).state()),
                sel.1 == rng.state(),
                select_from(self@.entries, luck as int, remaining as int, idx as nat) == sel.0,
            decreases self@.entries.len() - idx,
        {
            proof {
                assert(self@.entries[idx as int] == self.entries@[idx as int]@);
            }
            let w = self.entries[idx].get_weight(luck);
            if idx + 1 >= self.entries.len() || remaining < w {
                return idx;
            }
            remaining = remaining - w;
            idx = idx + 1;
        }
    }

    /// Rolls the pool: draws the roll count, then that many weighted stacks.
    pub fn generate_raw_loot(&self, rng: &mut JavaRandom, luck: i32) -> (r: Vec<ItemStack>)
        requires
            old(rng).wf(),
            pool_wf(self@),
            luck_wf(luck as int),
            pool_positive(self@.entries, luck as int),
        ensures
            final(rng).wf(),
            r@.map_values(|st: ItemStack| st@) == spec_pool_gen(
                self@,
                luck as int,
                old(rng).state(),
            ).0,
            final(rng).state() == spec_pool_gen(self@, luck as int, old(rng).state()).1,
    {
        let rolls = self.rolls.apply(rng);
        let ghost s1 = rng.state();
        let ghost n0 = (if rolls >= 0 {
            rolls as int
        } else {
            0
        }) as nat;
        let mut vec: Vec<ItemStack> = Vec::new();
        let mut done: i32 = 0;
        proof {
            assert(vec@.map_values(|st: ItemStack| st@) =~= Seq::<ItemStackV>::empty());
            assert(Seq::<ItemStackV>::empty() + spec_rolls_gen(
                self@.entries,
                luck as int,
                n0,
                s1,
            ).0 =~= spec_rolls_gen(self@.entries, luck as int, n0, s1).0);
        }
        while done < rolls
            invariant
                rng.wf(),
                0 <= done,
                rolls >= 0 ==> done <= rolls,
                rolls < 0 ==> done == 0,
                n0 == (if rolls >= 0 { rolls as int } else { 0 }),
                pool_wf(self@),
                luck_wf(luck as int),
                pool_positive(self@.entries, luck as int),
                vec@.map_values(|st: ItemStack| st@) + spec_rolls_gen(
                    self@.entries,
                    luck as int,
                    (n0 - done) as nat,
                    rng.state(),
                ).0 == spec_rolls_gen(self@.entries, luck as int, n0, s1).0,
                spec_rolls_gen(self@.entries, luck as int, (n0 - done) as nat, rng.state()).1
                    == spec_rolls_gen(self@.entries, luck as int, n0, s1).1,
            decreases rolls - done,
        {
            let ghost produced = vec@.map_values(|st: ItemStack| st@);
            let ghost m = (n0 - done) as nat;
            let ghost s_here = rng.state();
            let idx = self.select_entry(rng, luck);
            proof {
                assert(self@.entries[idx as int] == self.entries@[idx as int]@);
            }
            let stack = self.entries[idx].generate_raw_loot(rng, luck);
            vec.push(stack);
            proof {
                let (rest_pair_l, rest_pair_s) = spec_rolls_gen(
                    self@.entries,
                    luck as int,
                    (m - 1) as nat,
                    rng.state(),
                );
                assert(spec_rolls_gen(self@.entries, luck as int, m, s_here).0 == seq![stack@]
                    + rest_pair_l);
                assert(vec@.map_values(|st: ItemStack| st@) =~= produced.push(stack@));
                assert(produced + (seq![stack@] + rest_pair_l) =~= produced.push(stack@)
                    + rest_pair_l);
            }
            done = done + 1;
        }
        proof {
            assert(vec@.map_values(|st: ItemStack| st@) + Seq::<ItemStackV>::empty() =~= vec@
                .map_values(|st: ItemStack| st@));
        }
        vec
    }
}


/// A stack the generator can produce: bounded count, positive stack size.
pub open spec fn stack_bounded(st: ItemStackV, palette: int) -> bool {
    &&& 0 <= st.count <= 0xFF
    &&& 1 <= st.max_count
    &&& 0 <= st.item < palette
}


/// A weighted selection always lands on a valid entry index.
pub proof fn lemma_select_in_range(entries: Seq<ItemLootPoolEntryV>, luck: int, s: int)
    requires
        1 <= entries.len(),
        0 <= s < crate::lcg::JAVA_MODULUS,
    ensures
        spec_select(entries, luck, s).0 < entries.len(),
        0 <= spec_select(entries, luck, s).1 < crate::lcg::JAVA_MODULUS,
{
    if entries.len() == 1 {
    } else {
        let total = total_weight(entries, luck);
        lemma_select_from_in_range(entries, luck, bounded_value(s, total), 0);
        crate::random::lemma_bounded_range(s, total);
    }
}

/// The selection walk never runs past the last entry.
pub proof fn lemma_select_from_in_range(
    entries: Seq<ItemLootPoolEntryV>,
    luck: int,
    i: int,
    k: nat,
)
    requires
        k < entries.len(),
    ensures
        k <= select_from(entries, luck, i, k) < entries.len(),
    decreases entries.len() - k,
{
    if k + 1 >= entries.len() {
    } else if i < entry_weight(entries[k as int], luck) {
    } else {
        lemma_select_from_in_range(
            entries,
            luck,
            i - entry_weight(entries[k as int], luck),
            (k + 1) as nat,
        );
    }
}

/// Applying well-formed functions keeps the stack's item and size, keeps the
/// count in `[0, 255]`, and leaves a 48-bit state.
pub proof fn lemma_apply_functions_bounds(fs: Seq<LootFunctionV>, st: ItemStackV, s: int)
    requires
        forall|i: int| 0 <= i < fs.len() ==> function_wf(#[trigger] fs[i]),
        0 <= st.count <= 0xFF,
        0 <= s < crate::lcg::JAVA_MODULUS,
    ensures
        ({
            let (r, s1) = spec_apply_functions(fs, st, s);
            &&& r.item == st.item
            &&& r.max_count == st.max_count
            &&& 0 <= r.count <= 0xFF
            &&& 0 <= s1 < crate::lcg::JAVA_MODULUS
        }),
    decreases fs.len(),
{
    if fs.len() == 0 {
    } else {
        let (st1, s1) = spec_apply_function(fs[0], st, s);
        lemma_apply_function_bounds(fs[0], st, s);
        assert(forall|i: int|
            0 <= i < fs.drop_first().len() ==> function_wf(#[trigger] fs.drop_first()[i]));
        lemma_apply_functions_bounds(fs.drop_first(), st1, s1);
    }
}

/// One well-formed function keeps the stack's item and size, keeps the count
/// in `[0, 255]`, and leaves a 48-bit state.
pub proof fn lemma_apply_function_bounds(f: LootFunctionV, st: ItemStackV, s: int)
    requires
        function_wf(f),
        0 <= st.count <= 0xFF,
        0 <= s < crate::lcg::JAVA_MODULUS,
    ensures
        ({
            let (r, s1) = spec_apply_function(f, st, s);
            &&& r.item == st.item
            &&& r.max_count == st.max_count
            &&& 0 <= r.count <= 0xFF
            &&& 0 <= s1 < crate::lcg::JAVA_MODULUS
        }),
{
    match f {
        LootFunctionV::SetCount(range) => {
            match range {
                LootTableRange::Uniform { min, max } => {
                    crate::random::lemma_range_bounds(s, min as int, max as int);
                },
                LootTableRange::Constant { value } => {},
            }
        },
        LootFunctionV::SetEnchantsRandomly(list) => {
            if list.len() == 0 {
            } else {
                crate::random::lemma_bounded_range(s, list.len() as int);
                let s1 = bounded_state(s, list.len() as int);
                let i = bounded_value(s, list.len() as int);
                let (_e, minl, maxl) = list[i];
                crate::random::lemma_range_bounds(s1, minl as int, maxl as int);
            }
        },
    }
}

/// A rolled entry carries the entry's item and stack size with a count in
/// `[0, 255]`, and leaves a 48-bit state.
pub proof fn lemma_entry_gen_bounds(e: ItemLootPoolEntryV, luck: int, s: int)
    requires
        entry_wf(e),
        0 <= s < crate::lcg::JAVA_MODULUS,
    ensures
        ({
            let (r, s1) = spec_entry_gen(e, luck, s);
            &&& r.item == e.item
            &&& r.max_count == e.stack_size
            &&& 0 <= r.count <= 0xFF
            &&& 1 <= r.max_count
            &&& 0 <= s1 < crate::lcg::JAVA_MODULUS
        }),
{
    lemma_apply_functions_bounds(
        e.functions,
        ItemStackV { item: e.item, count: 1, max_count: e.stack_size, properties: Seq::empty() },
        s,
    );
}

/// All stacks from `n` rolls of a pool whose items lie below `palette` are
/// bounded, there are exactly `n` of them, and the state stays 48 bits wide.
pub proof fn lemma_rolls_gen_bounds(
    entries: Seq<ItemLootPoolEntryV>,
    luck: int,
    n: nat,
    s: int,
    palette: int,
)
    requires
        1 <= entries.len(),
        forall|i: int| 0 <= i < entries.len() ==> entry_wf(#[trigger] entries[i]),
        forall|i: int| 0 <= i < entries.len() ==> (#[trigger] entries[i]).item < palette,
        0 <= s < crate::lcg::JAVA_MODULUS,
    ensures
        ({
            let (loot, s1) = spec_rolls_gen(entries, luck, n, s);
            &&& loot.len() == n
            &&& forall|i: int| 0 <= i < loot.len() ==> stack_bounded(#[trigger] loot[i], palette)
            &&& 0 <= s1 < crate::lcg::JAVA_MODULUS
        }),
    decreases n,
{
    if n == 0 {
    } else {
        let (idx, s1) = spec_select(entries, luck, s);
        lemma_select_in_range(entries, luck, s);
        let (st, s2) = spec_entry_gen(entries[idx as int], luck, s1);
        lemma_entry_gen_bounds(entries[idx as int], luck, s1);
        let (rest, s3) = spec_rolls_gen(entries, luck, (n - 1) as nat, s2);
        lemma_rolls_gen_bounds(entries, luck, (n - 1) as nat, s2, palette);
        assert(forall|i: int|
            0 <= i < (seq![st] + rest).len() ==> stack_bounded(#[trigger] (seq![st] + rest)[i], palette));
    }
}

/// A pool produces at most 255 bounded stacks and a 48-bit state.
pub proof fn lemma_pool_gen_bounds(p: LootPoolV, luck: int, s: int, palette: int)
    requires
        pool_wf(p),
        forall|i: int| 0 <= i < p.entries.len() ==> (#[trigger] p.entries[i]).item < palette,
        0 <= s < crate::lcg::JAVA_MODULUS,
    ensures
        ({
            let (loot, s1) = spec_pool_gen(p, luck, s);
            &&& loot.len() <= 0xFF
            &&& forall|i: int| 0 <= i < loot.len() ==> stack_bounded(#[trigger] loot[i], palette)
            &&& 0 <= s1 < crate::lcg::JAVA_MODULUS
        }),
{
    let (rv, s1) = p.rolls.spec_apply(s);
    match p.rolls {
        LootTableRange::Uniform { min, max } => {
            crate::random::lemma_range_bounds(s, min as int, max as int);
        },
        LootTableRange::Constant { value } => {},
    }
    let n = (if rv >= 0 {
        rv
    } else {
        0
    }) as nat;
    lemma_rolls_gen_bounds(p.entries, luck, n, s1, palette);
}

/// A table of `k` pools produces at most `255 * k` bounded stacks and a
/// 48-bit state.
pub proof fn lemma_table_gen_bounds(t: Seq<LootPoolV>, luck: int, s: int, palette: int)
    requires
        table_wf(t),
        table_items_below(t, palette),
        0 <= s < crate::lcg::JAVA_MODULUS,
    ensures
        ({
            let (loot, s1) = spec_table_gen(t, luck, s);
            &&& loot.len() <= 0xFF * t.len()
            &&& forall|i: int| 0 <= i < loot.len() ==> stack_bounded(#[trigger] loot[i], palette)
            &&& 0 <= s1 < crate::lcg::JAVA_MODULUS
        }),
    decreases t.len(),
{
    if t.len() == 0 {
    } else {
        let (l0, s1) = spec_pool_gen(t[0], luck, s);
        lemma_pool_gen_bounds(t[0], luck, s, palette);
        let rest_t = t.drop_first();
        assert(table_wf(rest_t) && table_items_below(rest_t, palette)) by {
            assert(forall|i: int|
                0 <= i < rest_t.len() ==> rest_t[i] == t[i + 1] && pool_wf(#[trigger] rest_t[i]));
            assert(forall|i: int, j: int|
                0 <= i < rest_t.len() && 0 <= j < rest_t[i].entries.len() ==> (#[trigger] rest_t[i]
                    .entries[j]).item < palette) by {
                assert(forall|i: int| 0 <= i < rest_t.len() ==> #[trigger] rest_t[i] == t[i + 1]);
            }
        }
        let (rest, s2) = spec_table_gen(rest_t, luck, s1);
        lemma_table_gen_bounds(rest_t, luck, s1, palette);
        assert(forall|i: int|
            0 <= i < (l0 + rest).len() ==> stack_bounded(#[trigger] (l0 + rest)[i], palette));
    }
}

impl LootTable {
    /// Rolls every pool in order on the shared generator; the raw stacks are
    /// not yet split or placed.
    pub fn generate_raw_loot(&self, rng: &mut JavaRandom, luck: i32) -> (r: Vec<ItemStack>)
        requires
            old(rng).wf(),
            table_wf(self@),
            luck_wf(luck as int),
            table_positive(self@, luck as int),
        ensures
            final(rng).wf(),
            r@.map_values(|st: ItemStack| st@) == spec_table_gen(
                self@,
                luck as int,
                old(rng).state(),
            ).0,
            final(rng).state() == spec_table_gen(self@, luck as int, old(rng).state()).1,
    {
        let ghost s0 = rng.state();
        let mut res: Vec<ItemStack> = Vec::new();
        let mut i: usize = 0;
        proof {
            assert(res@.map_values(|st: ItemStack| st@) =~= Seq::<ItemStackV>::empty());
            assert(self@.skip(0) =~= self@);
            assert(Seq::<ItemStackV>::empty() + spec_table_gen(self@, luck as int, s0).0
                =~= spec_table_gen(self@, luck as int, s0).0);
        }
        while i < self.pools.len()
            invariant
                rng.wf(),
                i <= self.pools.len(),
                table_wf(self@),
                luck_wf(luck as int),
                table_positive(self@, luck as int),
                res@.map_values(|st: ItemStack| st@) + spec_table_gen(
                    self@.skip(i as int),
                    luck as int,
                    rng.state(),
                ).0 == spec_table_gen(self@, luck as int, s0).0,
                spec_table_gen(self@.skip(i as int), luck as int, rng.state()).1 == spec_table_gen(
                    self@,
                    luck as int,
                    s0,
                ).1,
            decreases self.pools.len() - i,
        {
            let ghost produced = res@.map_values(|st: ItemStack| st@);
            let ghost rem = self@.skip(i as int);
            let ghost s_here = rng.state();
            proof {
                assert(self@[i as int] == self.pools@[i as int]@);
                assert(rem[0] == self@[i as int]);
                assert(rem.drop_first() =~= self@.skip(i + 1));
            }
            let mut part = self.pools[i].generate_raw_loot(rng, luck);
            let ghost part_v = part@.map_values(|st: ItemStack| st@);
            res.append(&mut part);
            proof {
                assert(res@.map_values(|st: ItemStack| st@) =~= produced + part_v);
                let (rest, _s2) = spec_table_gen(self@.skip(i + 1), luck as int, rng.state());
                assert((produced + part_v) + rest =~= produced + (part_v + rest));
            }
            i = i + 1;
        }
        proof {
            assert(self@.skip(self@.len() as int) =~= Seq::<LootPoolV>::empty());
            assert(res@.map_values(|st: ItemStack| st@) + Seq::<ItemStackV>::empty() =~= res@
                .map_values(|st: ItemStack| st@));
        }
        res
    }
}


/// Splitting one raw stack into chest stacks: under the maximum it stays as
/// it is; otherwise full stacks plus a remainder, or a single full stack
/// when the count divides evenly.
pub open spec fn divide_stack(st: ItemStackV) -> Seq<ItemStackV> {
    if st.count < st.max_count {
        seq![st]
    } else {
        let full = ItemStackV { count: st.max_count, ..st };
        let stacks = st.count / st.max_count;
        let rem = st.count % st.max_count;
        if rem > 0 {
            Seq::new(stacks as nat, |i: int| full).push(ItemStackV { count: rem, ..st })
        } else {
            seq![full]
        }
    }
}

/// Every raw stack split in order.
pub open spec fn divide_all(loot: Seq<ItemStackV>) -> Seq<ItemStackV>
    decreases loot.len(),
{
    if loot.len() == 0 {
        Seq::empty()
    } else {
        divide_stack(loot[0]) + divide_all(loot.drop_first())
    }
}

/// Whether a slot can receive loot: empty, or holding a zero-count stack.
pub open spec fn slot_empty(s: Option<ItemStackV>) -> bool {
    match s {
        None => true,
        Some(st) => st.count == 0,
    }
}

/// The free slot indices below `n`, in ascending order.
pub open spec fn free_slots_upto(c: Seq<Option<ItemStackV>>, n: nat) -> Seq<i32>
    decreases n,
{
    if n == 0 {
        Seq::empty()
    } else {
        let pre = free_slots_upto(c, (n - 1) as nat);
        if slot_empty(c[n - 1]) {
            pre.push((n - 1) as i32)
        } else {
            pre
        }
    }
}

/// The free slots of a chest, shuffled: the slot list and the state left.
pub open spec fn spec_get_free_slots(c: Seq<Option<ItemStackV>>, s: int) -> (Seq<i32>, int) {
    spec_shuffle(free_slots_upto(c, 27), s)
}

/// The single-count stacks of the loot, in order (the pile that stays put).
pub open spec fn keep_single(loot: Seq<ItemStackV>) -> Seq<ItemStackV>
    decreases loot.len(),
{
    if loot.len() == 0 {
        Seq::empty()
    } else {
        let rest = keep_single(loot.drop_first());
        if loot[0].count == 0 || loot[0].count > 1 {
            rest
        } else {
            seq![loot[0]] + rest
        }
    }
}

/// The multi-count stacks of the loot, in order (the pile to be split).
pub open spec fn pull_moved(loot: Seq<ItemStackV>) -> Seq<ItemStackV>
    decreases loot.len(),
{
    if loot.len() == 0 {
        Seq::empty()
    } else {
        let rest = pull_moved(loot.drop_first());
        if loot[0].count > 1 {
            seq![loot[0]] + rest
        } else {
            rest
        }
    }
}

/// One coin flip deciding where a split half goes: halves above one item may
/// go back to the pile, everything else joins the loot.
pub open spec fn route_half(
    loot: Seq<ItemStackV>,
    moved: Seq<ItemStackV>,
    half: ItemStackV,
    s: int,
) -> (Seq<ItemStackV>, Seq<ItemStackV>, int) {
    if half.count > 1 {
        let s1 = crate::random::java_next(s);
        if crate::random::bits_value(s1, 1) != 0 {
            (loot, moved.push(half), s1)
        } else {
            (loot.push(half), moved, s1)
        }
    } else {
        (loot.push(half), moved, s)
    }
}

/// The splitting rounds: while the piles together still leave a free slot
/// and the moved pile is non-empty, pick a moved stack, split it, and route
/// both halves.
#[verifier::opaque]
pub open spec fn shuffle_rounds(
    loot: Seq<ItemStackV>,
    moved: Seq<ItemStackV>,
    free: int,
    s: int,
) -> (Seq<ItemStackV>, Seq<ItemStackV>, int)
    decreases free - loot.len() - moved.len(),
{
    if moved.len() + loot.len() >= free || moved.len() == 0 {
        (loot, moved, s)
    } else {
        let i0 = range_value(s, 0, moved.len() - 1);
        let i = if 0 <= i0 < moved.len() {
            i0
        } else {
            0
        };
        let s1 = range_state(s, 0, moved.len() - 1);
        let stack = moved[i];
        let moved1 = moved.remove(i);
        let cnt = range_value(s1, 1, stack.count / 2);
        let s2 = range_state(s1, 1, stack.count / 2);
        let b = ItemStackV { count: spec_split_count(stack, cnt), ..stack };
        let a = ItemStackV { count: stack.count - spec_split_count(stack, cnt), ..stack };
        let (loot2, moved2, s3) = route_half(loot, moved1, a, s2);
        let (loot3, moved3, s4) = route_half(loot2, moved2, b, s3);
        shuffle_rounds(loot3, moved3, free, s4)
    }
}

/// One unfolding of the splitting rounds.
pub proof fn lemma_shuffle_rounds_unfold(
    loot: Seq<ItemStackV>,
    moved: Seq<ItemStackV>,
    free: int,
    s: int,
)
    ensures
        ({
            if moved.len() + loot.len() >= free || moved.len() == 0 {
                shuffle_rounds(loot, moved, free, s) == ((loot, moved, s))
            } else {
                let i0 = range_value(s, 0, moved.len() - 1);
                let i = if 0 <= i0 < moved.len() {
                    i0
                } else {
                    0
                };
                let s1 = range_state(s, 0, moved.len() - 1);
                let stack = moved[i];
                let moved1 = moved.remove(i);
                let cnt = range_value(s1, 1, stack.count / 2);
                let s2 = range_state(s1, 1, stack.count / 2);
                let bb = ItemStackV { count: spec_split_count(stack, cnt), ..stack };
                let aa = ItemStackV { count: stack.count - spec_split_count(stack, cnt), ..stack };
                let r1 = route_half(loot, moved1, aa, s2);
                let r2 = route_half(r1.0, r1.1, bb, r1.2);
                shuffle_rounds(loot, moved, free, s) == shuffle_rounds(r2.0, r2.1, free, r2.2)
            }
        }),
{
    reveal_with_fuel(shuffle_rounds, 2);
}

/// The whole shuffle-loot pass: prune and split the piles, then append the
/// moved pile and shuffle everything.
pub open spec fn spec_shuffle_loot(loot0: Seq<ItemStackV>, free: int, s: int) -> (
    Seq<ItemStackV>,
    int,
) {
    let (l1, m1, s1) = shuffle_rounds(keep_single(loot0), pull_moved(loot0), free, s);
    spec_shuffle(l1 + m1, s1)
}

/// Placement: stacks take free slots from the back until either runs out;
/// zero-count stacks clear their slot.
pub open spec fn spec_place(
    c: Seq<Option<ItemStackV>>,
    loot: Seq<ItemStackV>,
    free: Seq<i32>,
) -> Seq<Option<ItemStackV>>
    decreases loot.len(),
{
    if loot.len() == 0 || free.len() == 0 {
        c
    } else {
        let slot = free.last() as int;
        let c1 = if 0 <= slot < 27 {
            c.update(
                slot,
                if loot[0].count == 0 {
                    None
                } else {
                    Some(loot[0])
                },
            )
        } else {
            c
        };
        spec_place(c1, loot.drop_first(), free.drop_last())
    }
}

/// The full chest fill: roll the table, split the stacks, draw the free
/// slots, run the shuffle-loot pass and place the result.
pub open spec fn spec_generate_in_inventory(
    t: Seq<LootPoolV>,
    c: Seq<Option<ItemStackV>>,
    luck: int,
    s: int,
) -> (Seq<Option<ItemStackV>>, int) {
    let (raw, s1) = spec_table_gen(t, luck, s);
    let loot = divide_all(raw);
    let (free, s2) = spec_get_free_slots(c, s1);
    let (shuffled, s3) = spec_shuffle_loot(loot, free.len() as int, s2);
    (spec_place(c, shuffled, free), s3)
}


/// Copies a stack field for field.
fn copy_stack(st: &ItemStack) -> (r: ItemStack)
    ensures
        r@ == st@,
{
    ItemStack {
        item: st.item,
        count: st.count,
        max_count: st.max_count,
        properties: clone_properties(&st.properties),
    }
}

impl LootTable {
    /// Splits every raw stack into chest stacks.
    fn divide(loot: Vec<ItemStack>) -> (r: Vec<ItemStack>)
        requires
            forall|i: int|
                0 <= i < loot@.len() ==> {
                    let st = (#[trigger] loot@[i])@;
                    0 <= st.count <= 0xFF && 1 <= st.max_count
                },
        ensures
            r@.map_values(|st: ItemStack| st@) == divide_all(
                loot@.map_values(|st: ItemStack| st@),
            ),
    {
        let ghost lv = loot@.map_values(|st: ItemStack| st@);
        let mut res: Vec<ItemStack> = Vec::new();
        let mut i: usize = 0;
        proof {
            assert(res@.map_values(|st: ItemStack| st@) =~= Seq::<ItemStackV>::empty());
            assert(lv.skip(0) =~= lv);
            assert(Seq::<ItemStackV>::empty() + divide_all(lv) =~= divide_all(lv));
        }
        while i < loot.len()
            invariant
                i <= loot.len(),
                lv == loot@.map_values(|st: ItemStack| st@),
                forall|k: int|
                    0 <= k < lv.len() ==> 0 <= (#[trigger] lv[k]).count <= 0xFF && 1 <= lv[k].max_count,
                res@.map_values(|st: ItemStack| st@) + divide_all(lv.skip(i as int)) == divide_all(
                    lv,
                ),
            decreases loot.len() - i,
        {
            let ghost produced = res@.map_values(|st: ItemStack| st@);
            let ghost rem = lv.skip(i as int);
            proof {
                assert(rem[0] == lv[i as int]);
                assert(rem.drop_first() =~= lv.skip(i + 1));
            }
            let st = &loot[i];
            let ghost stv = st@;
            if st.count < st.max_count {
                res.push(copy_stack(st));
                proof {
                    assert(res@.map_values(|s2: ItemStack| s2@) =~= produced.push(stv));
                    assert(divide_stack(stv) =~= seq![stv]);
                    assert(produced.push(stv) + divide_all(lv.skip(i + 1)) =~= produced + (
                    divide_stack(stv) + divide_all(lv.skip(i + 1))));
                }
            } else {
                let stacks = st.count / st.max_count;
                let remainder = st.count % st.max_count;
                let ghost full = ItemStackV { count: stv.max_count, ..stv };
                if remainder > 0 {
                    let mut k: i32 = 0;
                    while k < stacks
                        invariant
                            0 <= k <= stacks,
                            stacks == stv.count / stv.max_count,
                            0 <= stv.count <= 0xFF,
                            1 <= stv.max_count,
                            i < loot@.len(),
                            st == &loot[i as int],
                            stv == st@,
                            full == (ItemStackV { count: stv.max_count, ..stv }),
                            res@.map_values(|s2: ItemStack| s2@) =~= produced + Seq::new(
                                k as nat,
                                |j: int| full,
                            ),
                        decreases stacks - k,
                    {
                        let ghost before = res@.map_values(|s2: ItemStack| s2@);
                        res.push(
                            ItemStack {
                                item: st.item,
                                count: st.max_count,
                                max_count: st.max_count,
                                properties: clone_properties(&st.properties),
                            },
                        );
                        proof {
                            assert(res@.map_values(|s2: ItemStack| s2@) =~= before.push(full));
                            assert(before.push(full) =~= produced + Seq::new(
                                (k + 1) as nat,
                                |j: int| full,
                            ));
                        }
                        k = k + 1;
                    }
                    let ghost before = res@.map_values(|s2: ItemStack| s2@);
                    res.push(
                        ItemStack {
                            item: st.item,
                            count: remainder,
                            max_count: st.max_count,
                            properties: clone_properties(&st.properties),
                        },
                    );
                    proof {
                        let remv = ItemStackV { count: stv.count % stv.max_count, ..stv };
                        assert(res@.map_values(|s2: ItemStack| s2@) =~= before.push(remv));
                        assert(divide_stack(stv) =~= Seq::new(
                            (stv.count / stv.max_count) as nat,
                            |j: int| full,
                        ).push(remv));
                        assert(res@.map_values(|s2: ItemStack| s2@) =~= produced + divide_stack(
                            stv,
                        ));
                        assert(produced + divide_stack(stv) + divide_all(lv.skip(i + 1))
                            =~= produced + (divide_stack(stv) + divide_all(lv.skip(i + 1))));
                    }
                } else {
                    let ghost before = res@.map_values(|s2: ItemStack| s2@);
                    res.push(
                        ItemStack {
                            item: st.item,
                            count: st.max_count,
                            max_count: st.max_count,
                            properties: clone_properties(&st.properties),
                        },
                    );
                    proof {
                        assert(res@.map_values(|s2: ItemStack| s2@) =~= before.push(full));
                        assert(divide_stack(stv) =~= seq![full]);
                        assert(before.push(full) =~= produced + divide_stack(stv));
                        assert(produced + divide_stack(stv) + divide_all(lv.skip(i + 1))
                            =~= produced + (divide_stack(stv) + divide_all(lv.skip(i + 1))));
                    }
                }
            }
            proof {
                assert(res@.map_values(|s2: ItemStack| s2@) + divide_all(lv.skip(i + 1))
                    =~= divide_all(lv));
            }
            i = i + 1;
        }
        proof {
            assert(lv.skip(lv.len() as int) =~= Seq::<ItemStackV>::empty());
            assert(res@.map_values(|st: ItemStack| st@) + Seq::<ItemStackV>::empty() =~= res@
                .map_values(|st: ItemStack| st@));
        }
        res
    }
}


impl LootTable {
    /// Collects and shuffles the indices of the chest's free slots.
    fn get_free_slots(inv: &SingleChest, rng: &mut JavaRandom) -> (r: Vec<i32>)
        requires
            inv.wf(),
            old(rng).wf(),
        ensures
            final(rng).wf(),
            r@ == spec_get_free_slots(inv.contents(), old(rng).state()).0,
            final(rng).state() == spec_get_free_slots(inv.contents(), old(rng).state()).1,
            r@.len() <= 27,
    {
        let mut slots: Vec<i32> = Vec::new();
        let mut slot: i32 = 0;
        proof {
            assert(slots@ =~= free_slots_upto(inv.contents(), 0));
        }
        while slot < 27
            invariant
                inv.wf(),
                0 <= slot <= 27,
                slots@ == free_slots_upto(inv.contents(), slot as nat),
                slots@.len() <= slot,
            decreases 27 - slot,
        {
            let empty = match inv.get_item(slot) {
                Some(st) => st.count == 0,
                None => true,
            };
            if empty {
                slots.push(slot);
            }
            slot = slot + 1;
        }
        let ghost free = slots@;
        crate::random::shuffle(&mut slots, rng);
        proof {
            crate::random::lemma_shuffle_from_len(free, old(rng).state(), free.len());
        }
        slots
    }

    /// The pruning pass: zero-count stacks are dropped, counts above one go
    /// to the moved pile, single counts stay.
    fn prune_split(loot: &Vec<ItemStack>) -> (r: (Vec<ItemStack>, Vec<ItemStack>))
        requires
            forall|i: int| 0 <= i < loot@.len() ==> 0 <= (#[trigger] loot@[i])@.count,
        ensures
            r.0@.map_values(|st: ItemStack| st@) == keep_single(
                loot@.map_values(|st: ItemStack| st@),
            ),
            r.1@.map_values(|st: ItemStack| st@) == pull_moved(
                loot@.map_values(|st: ItemStack| st@),
            ),
            forall|k: int| 0 <= k < r.1@.len() ==> (#[trigger] r.1@[k])@.count > 1,
            r.0@.len() + r.1@.len() <= loot@.len(),
    {
        let ghost lv = loot@.map_values(|st: ItemStack| st@);
        let mut kept: Vec<ItemStack> = Vec::new();
        let mut moved: Vec<ItemStack> = Vec::new();
        let mut i: usize = 0;
        proof {
            assert(kept@.map_values(|st: ItemStack| st@) =~= Seq::<ItemStackV>::empty());
            assert(moved@.map_values(|st: ItemStack| st@) =~= Seq::<ItemStackV>::empty());
            assert(lv.skip(0) =~= lv);
            assert(Seq::<ItemStackV>::empty() + keep_single(lv) =~= keep_single(lv));
            assert(Seq::<ItemStackV>::empty() + pull_moved(lv) =~= pull_moved(lv));
        }
        while i < loot.len()
            invariant
                i <= loot.len(),
                lv == loot@.map_values(|st: ItemStack| st@),
                forall|k: int| 0 <= k < lv.len() ==> 0 <= (#[trigger] lv[k]).count,
                kept@.map_values(|st: ItemStack| st@) + keep_single(lv.skip(i as int))
                    == keep_single(lv),
                moved@.map_values(|st: ItemStack| st@) + pull_moved(lv.skip(i as int))
                    == pull_moved(lv),
                forall|k: int| 0 <= k < moved@.len() ==> (#[trigger] moved@[k])@.count > 1,
                kept@.len() + moved@.len() <= i,
            decreases loot.len() - i,
        {
            let ghost kv = kept@.map_values(|st: ItemStack| st@);
            let ghost mv = moved@.map_values(|st: ItemStack| st@);
            let ghost rem = lv.skip(i as int);
            proof {
                assert(rem[0] == lv[i as int]);
                assert(rem.drop_first() =~= lv.skip(i + 1));
                assert(lv[i as int] == loot@[i as int]@);
            }
            let st = &loot[i];
            if st.count == 0 {
                // dropped
            } else if st.count > 1 {
                moved.push(copy_stack(st));
                proof {
                    assert(moved@.map_values(|s2: ItemStack| s2@) =~= mv.push(lv[i as int]));
                    assert(mv.push(lv[i as int]) + pull_moved(lv.skip(i + 1)) =~= mv + (seq![
                        lv[i as int],
                    ] + pull_moved(lv.skip(i + 1))));
                }
            } else {
                kept.push(copy_stack(st));
                proof {
                    assert(kept@.map_values(|s2: ItemStack| s2@) =~= kv.push(lv[i as int]));
                    assert(kv.push(lv[i as int]) + keep_single(lv.skip(i + 1)) =~= kv + (seq![
                        lv[i as int],
                    ] + keep_single(lv.skip(i + 1))));
                }
            }
            i = i + 1;
        }
        proof {
            assert(lv.skip(lv.len() as int) =~= Seq::<ItemStackV>::empty());
            assert(kept@.map_values(|st: ItemStack| st@) + Seq::<ItemStackV>::empty() =~= kept@
                .map_values(|st: ItemStack| st@));
            assert(moved@.map_values(|st: ItemStack| st@) + Seq::<ItemStackV>::empty() =~= moved@
                .map_values(|st: ItemStack| st@));
        }
        (kept, moved)
    }

    /// One splitting round of the shuffle-loot walk, stepping the spec walk
    /// by exactly one unfolding.
    fn one_round(
        kept: &mut Vec<ItemStack>,
        moved: &mut Vec<ItemStack>,
        free_slots: i32,
        rng: &mut JavaRandom,
    )
        requires
            old(rng).wf(),
            1 <= old(moved)@.len(),
            old(kept)@.len() + old(moved)@.len() < free_slots,
            forall|k: int| 0 <= k < old(moved)@.len() ==> (#[trigger] old(moved)@[k])@.count > 1,
        ensures
            final(rng).wf(),
            forall|k: int| 0 <= k < final(moved)@.len() ==> (#[trigger] final(moved)@[k])@.count > 1,
            final(kept)@.len() + final(moved)@.len() == old(kept)@.len() + old(moved)@.len() + 1,
            shuffle_rounds(
                final(kept)@.map_values(|st: ItemStack| st@),
                final(moved)@.map_values(|st: ItemStack| st@),
                free_slots as int,
                final(rng).state(),
            ) == shuffle_rounds(
                old(kept)@.map_values(|st: ItemStack| st@),
                old(moved)@.map_values(|st: ItemStack| st@),
                free_slots as int,
                old(rng).state(),
            ),
    {
        let ghost kv = kept@.map_values(|st: ItemStack| st@);
        let ghost mv = moved@.map_values(|st: ItemStack| st@);
        let i = Math::next_int(rng, 0, (moved.len() - 1) as i32);
        let stack = moved.remove(i as usize);
        let ghost stackv = stack@;
        proof {
            assert(moved@.map_values(|st: ItemStack| st@) =~= mv.remove(i as int));
            assert(stackv == mv[i as int]);
            assert(stackv.count > 1);
        }
        let count = Math::next_int(rng, 1, stack.count / 2);
        let ghost s2 = rng.state();
        let (b, a) = stack.split(count);
        let ghost av = a@;
        let ghost bv = b@;
        let ghost r1 = route_half(kv, mv.remove(i as int), av, s2);
        if a.count > 1 {
            if rng.next_bool() {
                moved.push(a);
            } else {
                kept.push(a);
            }
        } else {
            kept.push(a);
        }
        proof {
            assert(kept@.map_values(|st: ItemStack| st@) =~= r1.0);
            assert(moved@.map_values(|st: ItemStack| st@) =~= r1.1);
            assert(rng.state() == r1.2);
        }
        let ghost r2 = route_half(r1.0, r1.1, bv, r1.2);
        if b.count > 1 {
            if rng.next_bool() {
                moved.push(b);
            } else {
                kept.push(b);
            }
        } else {
            kept.push(b);
        }
        proof {
            assert(kept@.map_values(|st: ItemStack| st@) =~= r2.0);
            assert(moved@.map_values(|st: ItemStack| st@) =~= r2.1);
            assert(rng.state() == r2.2);
            lemma_shuffle_rounds_unfold(kv, mv, free_slots as int, old(rng).state());
        }
    }

    /// The shuffle-loot pass: prune zero stacks, split the large ones while
    /// free slots remain, then shuffle the combined pile.
    fn shuffle_loot(loot: Vec<ItemStack>, free_slots: i32, rng: &mut JavaRandom) -> (r: Vec<
        ItemStack,
    >)
        requires
            old(rng).wf(),
            loot@.len() <= 0x100000,
            forall|i: int| 0 <= i < loot@.len() ==> 0 <= (#[trigger] loot@[i])@.count,
        ensures
            final(rng).wf(),
            r@.map_values(|st: ItemStack| st@) == spec_shuffle_loot(
                loot@.map_values(|st: ItemStack| st@),
                free_slots as int,
                old(rng).state(),
            ).0,
            final(rng).state() == spec_shuffle_loot(
                loot@.map_values(|st: ItemStack| st@),
                free_slots as int,
                old(rng).state(),
            ).1,
    {
        let ghost lv = loot@.map_values(|st: ItemStack| st@);
        let (mut kept, mut moved) = Self::prune_split(&loot);
        let ghost s_rounds = rng.state();
        let ghost k0 = kept@.map_values(|st: ItemStack| st@);
        let ghost m0 = moved@.map_values(|st: ItemStack| st@);
        while moved.len() > 0 && free_slots > 0 && kept.len() + moved.len() < (
        free_slots as usize)
            invariant
                rng.wf(),
                kept@.len() + moved@.len() <= 0x100000 || kept@.len() + moved@.len()
                    <= free_slots,
                forall|k: int| 0 <= k < moved@.len() ==> (#[trigger] moved@[k])@.count > 1,
                shuffle_rounds(
                    kept@.map_values(|st: ItemStack| st@),
                    moved@.map_values(|st: ItemStack| st@),
                    free_slots as int,
                    rng.state(),
                ) == shuffle_rounds(k0, m0, free_slots as int, s_rounds),
            decreases free_slots - kept@.len() - moved@.len(),
        {
            Self::one_round(&mut kept, &mut moved, free_slots, rng);
        }
        proof {
            lemma_shuffle_rounds_unfold(
                kept@.map_values(|st: ItemStack| st@),
                moved@.map_values(|st: ItemStack| st@),
                free_slots as int,
                rng.state(),
            );
            assert(shuffle_rounds(
                kept@.map_values(|st: ItemStack| st@),
                moved@.map_values(|st: ItemStack| st@),
                free_slots as int,
                rng.state(),
            ) == (
                kept@.map_values(|st: ItemStack| st@),
                moved@.map_values(|st: ItemStack| st@),
                rng.state(),
            ));
        }
        let ghost kf = kept@.map_values(|st: ItemStack| st@);
        let ghost mf = moved@.map_values(|st: ItemStack| st@);
        let ghost s_mid = rng.state();
        proof {
            assert((kf, mf, s_mid) == shuffle_rounds(
                keep_single(lv),
                pull_moved(lv),
                free_slots as int,
                old(rng).state(),
            ));
        }
        let mut combined = kept;
        combined.append(&mut moved);
        proof {
            assert(combined@.map_values(|st: ItemStack| st@) =~= kf + mf);
        }
        let ghost before_shuffle = combined@;
        crate::random::shuffle(&mut combined, rng);
        proof {
            let sl = spec_shuffle_loot(lv, free_slots as int, old(rng).state());
            assert(sl == spec_shuffle(kf + mf, s_mid));
            crate::random::lemma_shuffle_from_map(
                before_shuffle,
                |st: ItemStack| st@,
                s_mid,
                before_shuffle.len(),
            );
            assert(before_shuffle.map_values(|st: ItemStack| st@) == kf + mf);
            assert(combined@.map_values(|st: ItemStack| st@) == sl.0);
            assert(rng.state() == sl.1);
        }
        combined
    }

    /// Fills a chest: rolls the table, splits the stacks, shuffles them over
    /// the free slots and places them from the back.
    #[verifier::rlimit(60)]
    pub fn generate_in_inventory(&self, inv: &mut SingleChest, rng: &mut JavaRandom, luck: i32)
        requires
            old(inv).wf(),
            old(rng).wf(),
            table_wf(self@),
            self@.len() <= 0x10,
            luck_wf(luck as int),
            table_positive(self@, luck as int),
        ensures
            final(inv).wf(),
            final(rng).wf(),
            final(inv).contents() == spec_generate_in_inventory(
                self@,
                old(inv).contents(),
                luck as int,
                old(rng).state(),
            ).0,
            final(rng).state() == spec_generate_in_inventory(
                self@,
                old(inv).contents(),
                luck as int,
                old(rng).state(),
            ).1,
    {
        let ghost c0 = inv.contents();
        let ghost s0 = rng.state();
        let raw = self.generate_raw_loot(rng, luck);
        proof {
            assert(table_items_below(self@, 0x1_0000_0000_0000_0000)) by {
                assert(forall|i: int, j: int|
                    0 <= i < self@.len() && 0 <= j < self@[i].entries.len() ==> {
                        &&& #[trigger] self@[i] == self.pools@[i]@
                        &&& #[trigger] self@[i].entries[j] == self.pools@[i].entries@[j]@
                    });
            }
            lemma_table_gen_bounds(self@, luck as int, s0, 0x1_0000_0000_0000_0000);
            let rv = raw@.map_values(|st: ItemStack| st@);
            assert(raw@.len() == rv.len());
            assert(forall|i: int|
                0 <= i < raw@.len() ==> (#[trigger] raw@[i])@ == rv[i]);
            assert(self@.len() <= 0x10);
        }
        let loot = Self::divide(raw);
        let mut free_slots = Self::get_free_slots(inv, rng);
        proof {
            let rv = raw@.map_values(|st: ItemStack| st@);
            lemma_divide_all_bounds(rv);
            let dv = loot@.map_values(|st: ItemStack| st@);
            assert(dv.len() <= rv.len() * 0x100);
            assert(rv.len() * 0x100 <= 0xFF * 0x10 * 0x100) by (nonlinear_arith)
                requires
                    rv.len() <= 0xFF * 0x10,
            ;
            assert(forall|i: int|
                0 <= i < loot@.len() ==> (#[trigger] loot@[i])@ == dv[i]);
        }
        let shuffled = Self::shuffle_loot(loot, free_slots.len() as i32, rng);
        Self::place_loot(inv, &shuffled, free_slots);
        proof {
            let g = spec_generate_in_inventory(self@, c0, luck as int, s0);
            let rv = raw@.map_values(|st: ItemStack| st@);
            let dv = loot@.map_values(|st: ItemStack| st@);
            assert(rv == spec_table_gen(self@, luck as int, s0).0);
            assert(dv == divide_all(rv));
            assert(g.0 == inv.contents());
            assert(g.1 == rng.state());
        }
    }
}

/// Divided stacks keep non-negative counts.
pub proof fn lemma_divide_all_bounds(loot: Seq<ItemStackV>)
    requires
        forall|i: int|
            0 <= i < loot.len() ==> {
                let st = #[trigger] loot[i];
                0 <= st.count <= 0xFF && 1 <= st.max_count
            },
    ensures
        forall|i: int| 0 <= i < divide_all(loot).len() ==> 0 <= (#[trigger] divide_all(loot)[i]).count,
        divide_all(loot).len() <= loot.len() * 0x100,
    decreases loot.len(),
{
    if loot.len() == 0 {
    } else {
        let st = loot[0];
        lemma_divide_stack_bounds(st);
        lemma_divide_all_bounds(loot.drop_first());
        assert(forall|i: int|
            0 <= i < divide_all(loot).len() ==> 0 <= (#[trigger] divide_all(loot)[i]).count) by {
            assert(forall|i: int|
                0 <= i < divide_stack(st).len() ==> divide_all(loot)[i] == divide_stack(st)[i]);
            assert(forall|i: int|
                divide_stack(st).len() <= i < divide_all(loot).len() ==> divide_all(loot)[i]
                    == divide_all(loot.drop_first())[i - divide_stack(st).len()]);
        }
        assert((loot.len() - 1) * 0x100 + 0x100 == loot.len() * 0x100) by (nonlinear_arith);
    }
}

/// One divided stack: at most 256 pieces, each with a non-negative count.
pub proof fn lemma_divide_stack_bounds(st: ItemStackV)
    requires
        0 <= st.count <= 0xFF,
        1 <= st.max_count,
    ensures
        forall|i: int| 0 <= i < divide_stack(st).len() ==> 0 <= (#[trigger] divide_stack(st)[i]).count,
        divide_stack(st).len() <= 0x100,
{
    if st.count < st.max_count {
    } else {
        vstd::arithmetic::div_mod::lemma_mod_bound(st.count, st.max_count);
        vstd::arithmetic::div_mod::lemma_div_pos_is_pos(st.count, st.max_count);
        assert(st.count / st.max_count <= st.count) by {
            vstd::arithmetic::div_mod::lemma_div_nonincreasing(st.count, st.max_count);
        }
    }
}


impl LootTable {
    /// Places shuffled stacks into the chest, taking free slots from the
    /// back until either list runs out.
    fn place_loot(inv: &mut SingleChest, shuffled: &Vec<ItemStack>, free_slots: Vec<i32>)
        requires
            old(inv).wf(),
        ensures
            final(inv).wf(),
            final(inv).contents() == spec_place(
                old(inv).contents(),
                shuffled@.map_values(|st: ItemStack| st@),
                free_slots@,
            ),
    {
        let ghost placed = spec_place(
            inv.contents(),
            shuffled@.map_values(|st: ItemStack| st@),
            free_slots@,
        );
        let mut free_slots = free_slots;
        let mut i: usize = 0;
        proof {
            assert(shuffled@.map_values(|st: ItemStack| st@).skip(0) =~= shuffled@.map_values(
                |st: ItemStack| st@,
            ));
        }
        while i < shuffled.len() && free_slots.len() > 0
            invariant
                inv.wf(),
                i <= shuffled.len(),
                spec_place(
                    inv.contents(),
                    shuffled@.map_values(|st: ItemStack| st@).skip(i as int),
                    free_slots@,
                ) == placed,
            decreases shuffled.len() - i,
        {
            let ghost rem = shuffled@.map_values(|st: ItemStack| st@).skip(i as int);
            proof {
                assert(rem[0] == shuffled@.map_values(|st: ItemStack| st@)[i as int]);
                assert(rem.drop_first() =~= shuffled@.map_values(|st: ItemStack| st@).skip(i + 1));
            }
            let ghost c_prev = inv.contents();
            let ghost free_prev = free_slots@;
            let slot_opt = free_slots.pop();
            match slot_opt {
                None => {
                    proof {
                        assert(false);
                    }
                },
                Some(slot) => {
                    let st = &shuffled[i];
                    if st.count == 0 {
                        inv.set_item(slot, None);
                    } else {
                        inv.set_item(slot, Some(copy_stack(st)));
                    }
                    proof {
                        assert(slot == free_prev.last());
                        assert(free_slots@ =~= free_prev.drop_last());
                        assert(spec_place(c_prev, rem, free_prev) == spec_place(
                            inv.contents(),
                            rem.drop_first(),
                            free_slots@,
                        ));
                    }
                },
            }
            i = i + 1;
        }
        proof {
            if i == shuffled.len() {
                assert(shuffled@.map_values(|st: ItemStack| st@).skip(i as int) =~= Seq::<
                    ItemStackV,
                >::empty());
            } else {
                assert(free_slots@.len() == 0);
            }
        }
    }
}


/// The pre-tabulated description of an observed chest: per-item counts over
/// a fixed palette, the grand total, and the chest itself.
#[derive(Debug, Clone)]
pub struct FastInventoryCompareContext {
    pub items_count: Vec<i32>,
    pub total_items: i32,
    pub inventory: SingleChest,
}

/// The total count of `item` over the first `n` slots.
pub open spec fn chest_count_upto(c: Seq<Option<ItemStackV>>, item: int, n: nat) -> int
    decreases n,
{
    if n == 0 {
        0
    } else {
        chest_count_upto(c, item, (n - 1) as nat) + match c[n - 1] {
            Some(st) => if st.item == item {
                st.count
            } else {
                0
            },
            None => 0,
        }
    }
}

/// The total item count over the first `n` slots.
pub open spec fn chest_total_upto(c: Seq<Option<ItemStackV>>, n: nat) -> int
    decreases n,
{
    if n == 0 {
        0
    } else {
        chest_total_upto(c, (n - 1) as nat) + match c[n - 1] {
            Some(st) => st.count,
            None => 0,
        }
    }
}

/// Every stack in the chest has an item id below `palette` and a count in
/// `[0, 255]`.
pub open spec fn chest_stacks_bounded(c: Seq<Option<ItemStackV>>, palette: int) -> bool {
    forall|i: int|
        0 <= i < c.len() ==> match #[trigger] c[i] {
            Some(st) => 0 <= st.item < palette && 0 <= st.count <= 0xFF,
            None => true,
        }
}

/// Builds the fast-compare context of an observed chest over the
/// buried-treasure palette of 12 item ids.
pub fn build_fast_inventory_compare_context(contents: SingleChest) -> (r:
    FastInventoryCompareContext)
    requires
        contents.wf(),
        chest_stacks_bounded(contents.contents(), 12),
    ensures
        r.inventory == contents,
        r.items_count@.len() == 12,
        forall|id: int|
            0 <= id < 12 ==> r.items_count@[id] == chest_count_upto(contents.contents(), id, 27),
        r.total_items == chest_total_upto(contents.contents(), 27),
        0 <= r.total_items <= 27 * 0xFF,
        forall|id: int| 0 <= id < 12 ==> 0 <= #[trigger] r.items_count@[id] <= 27 * 0xFF,
{
    let ghost c = contents.contents();
    let mut items_count: Vec<i32> = Vec::new();
    let mut k: usize = 0;
    while k < 12
        invariant
            k <= 12,
            items_count@.len() == k,
            forall|id: int| 0 <= id < k ==> items_count@[id] == 0,
        decreases 12 - k,
    {
        items_count.push(0);
        k = k + 1;
    }
    let mut total_items: i32 = 0;
    let mut slot: i32 = 0;
    proof {
        assert(forall|id: int| 0 <= id < 12 ==> chest_count_upto(c, id, 0) == 0);
    }
    while slot < 27
        invariant
            0 <= slot <= 27,
            contents.wf(),
            c == contents.contents(),
            chest_stacks_bounded(c, 12),
            items_count@.len() == 12,
            forall|id: int|
                0 <= id < 12 ==> items_count@[id] == chest_count_upto(c, id, slot as nat),
            total_items == chest_total_upto(c, slot as nat),
            0 <= total_items <= slot * 0xFF,
            forall|id: int| 0 <= id < 12 ==> 0 <= #[trigger] items_count@[id] <= slot * 0xFF,
        decreases 27 - slot,
    {
        let ghost counts_prev = items_count@;
        match contents.get_item(slot) {
            Some(st) => {
                proof {
                    assert(c[slot as int] == Some(st@));
                }
                let id = st.item;
                let prev = items_count[id];
                items_count.set(id, prev + st.count);
                total_items = total_items + st.count;
                proof {
                    assert(forall|id2: int|
                        0 <= id2 < 12 && id2 != id ==> items_count@[id2] == counts_prev[id2]);
                }
            },
            None => {
                proof {
                    assert(c[slot as int] is None);
                }
            },
        }
        slot = slot + 1;
    }
    FastInventoryCompareContext { items_count, total_items, inventory: contents }
}

/// Prefixes already-produced loot onto the result of a fast walk.
pub open spec fn fast_prepend(
    pre: Seq<ItemStackV>,
    o: Option<(Seq<ItemStackV>, int, Seq<int>, int)>,
) -> Option<(Seq<ItemStackV>, int, Seq<int>, int)> {
    match o {
        None => None,
        Some((l, s, c, t)) => Some((pre + l, s, c, t)),
    }
}

/// The fast walk over `n` rolls of one pool: each rolled stack is checked
/// against the remaining tallies and split; the walk aborts as soon as a
/// tally would go negative.
pub open spec fn fast_rolls(
    entries: Seq<ItemLootPoolEntryV>,
    luck: int,
    n: nat,
    s: int,
    counts: Seq<int>,
    total: int,
) -> Option<(Seq<ItemStackV>, int, Seq<int>, int)>
    decreases n,
{
    if n == 0 {
        Some((Seq::empty(), s, counts, total))
    } else {
        let (idx, s1) = spec_select(entries, luck, s);
        let (st, s2) = spec_entry_gen(entries[idx as int], luck, s1);
        let newc = counts[st.item] - st.count;
        if newc < 0 {
            None
        } else if total - st.count < 0 {
            None
        } else {
            fast_prepend(
                divide_stack(st),
                fast_rolls(
                    entries,
                    luck,
                    (n - 1) as nat,
                    s2,
                    counts.update(st.item, newc),
                    total - st.count,
                ),
            )
        }
    }
}

/// The fast walk over the whole table.
pub open spec fn fast_pools(
    t: Seq<LootPoolV>,
    luck: int,
    s: int,
    counts: Seq<int>,
    total: int,
) -> Option<(Seq<ItemStackV>, int, Seq<int>, int)>
    decreases t.len(),
{
    if t.len() == 0 {
        Some((Seq::empty(), s, counts, total))
    } else {
        let (rv, s1) = t[0].rolls.spec_apply(s);
        let n = (if rv >= 0 {
            rv
        } else {
            0
        }) as nat;
        match fast_rolls(t[0].entries, luck, n, s1, counts, total) {
            None => None,
            Some((l0, s2, c2, t2)) => fast_prepend(
                l0,
                fast_pools(t.drop_first(), luck, s2, c2, t2),
            ),
        }
    }
}

/// An empty chest's contents.
pub open spec fn empty_chest() -> Seq<Option<ItemStackV>> {
    Seq::new(27, |i: int| None)
}

/// The fast replay: walk the generation with early abort against the
/// context's tallies; when it completes, place the split loot into an empty
/// scratch chest and compare slot by slot.
pub open spec fn spec_compare_fast(
    t: Seq<LootPoolV>,
    luck: int,
    s: int,
    counts: Seq<int>,
    total: int,
    observed: Seq<Option<ItemStackV>>,
) -> bool {
    match fast_pools(t, luck, s, counts, total) {
        None => false,
        Some((loot, s1, _c, _t)) => {
            let (free, s2) = spec_get_free_slots(empty_chest(), s1);
            let (shuffled, s3) = spec_shuffle_loot(loot, free.len() as int, s2);
            spec_place(empty_chest(), shuffled, free) == observed
        },
    }
}



/// The total count of `item` over a loot list.
pub open spec fn loot_item_total(l: Seq<ItemStackV>, item: int) -> int
    decreases l.len(),
{
    if l.len() == 0 {
        0
    } else {
        loot_item_total(l.drop_last(), item) + (if l.last().item == item {
            l.last().count
        } else {
            0
        })
    }
}

/// The total count over a loot list.
pub open spec fn loot_total(l: Seq<ItemStackV>) -> int
    decreases l.len(),
{
    if l.len() == 0 {
        0
    } else {
        loot_total(l.drop_last()) + l.last().count
    }
}

/// Totals of a single stack.
pub proof fn lemma_totals_singleton(st: ItemStackV, it: int)
    ensures
        loot_item_total(seq![st], it) == (if st.item == it {
            st.count
        } else {
            0
        }),
        loot_total(seq![st]) == st.count,
{
    assert(seq![st].drop_last() =~= Seq::<ItemStackV>::empty());
    assert(loot_item_total(Seq::<ItemStackV>::empty(), it) == 0);
    assert(loot_total(Seq::<ItemStackV>::empty()) == 0);
    assert(seq![st].last() == st);
}

/// Totals add over concatenation.
pub proof fn lemma_totals_concat(a: Seq<ItemStackV>, b: Seq<ItemStackV>)
    ensures
        forall|it: int|
            #[trigger] loot_item_total(a + b, it) == loot_item_total(a, it) + loot_item_total(
                b,
                it,
            ),
        loot_total(a + b) == loot_total(a) + loot_total(b),
    decreases b.len(),
{
    if b.len() == 0 {
        assert(a + b =~= a);
        assert(forall|it: int|
            #[trigger] loot_item_total(b, it) == 0 && loot_total(b) == 0);
    } else {
        lemma_totals_concat(a, b.drop_last());
        assert((a + b).drop_last() =~= a + b.drop_last());
        assert((a + b).last() == b.last());
        assert forall|it: int|
            #[trigger] loot_item_total(a + b, it) == loot_item_total(a, it) + loot_item_total(
                b,
                it,
            ) by {
            assert(loot_item_total(a + b, it) == loot_item_total((a + b).drop_last(), it) + (
            if (a + b).last().item == it {
                (a + b).last().count
            } else {
                0
            }));
        }
    }
}

/// Totals are non-negative when every count is.
pub proof fn lemma_totals_nonneg(l: Seq<ItemStackV>)
    requires
        forall|i: int| 0 <= i < l.len() ==> 0 <= (#[trigger] l[i]).count,
    ensures
        forall|it: int| 0 <= #[trigger] loot_item_total(l, it),
        0 <= loot_total(l),
    decreases l.len(),
{
    if l.len() > 0 {
        assert(forall|i: int|
            0 <= i < l.drop_last().len() ==> 0 <= (#[trigger] l.drop_last()[i]).count);
        lemma_totals_nonneg(l.drop_last());
        assert(0 <= l.last().count);
        assert forall|it: int| 0 <= #[trigger] loot_item_total(l, it) by {
            assert(0 <= loot_item_total(l.drop_last(), it));
        }
    }
}

/// Splitting stacks whose counts are at most their maxima keeps the totals:
/// each such stack splits into exactly one piece of the same count.
pub proof fn lemma_divide_preserves_totals(l: Seq<ItemStackV>)
    requires
        forall|i: int|
            0 <= i < l.len() ==> {
                let st = #[trigger] l[i];
                0 <= st.count <= st.max_count && 1 <= st.max_count
            },
    ensures
        forall|it: int|
            #[trigger] loot_item_total(divide_all(l), it) == loot_item_total(l, it),
        loot_total(divide_all(l)) == loot_total(l),
        divide_all(l).len() == l.len(),
    decreases l.len(),
{
    if l.len() == 0 {
    } else {
        let st = l[0];
        assert(divide_stack(st) =~= seq![st]) by {
            if !(st.count < st.max_count) {
                assert(st.count == st.max_count);
                vstd::arithmetic::div_mod::lemma_div_by_self(st.max_count);
                vstd::arithmetic::div_mod::lemma_mod_self_0(st.max_count);
                assert(ItemStackV { count: st.max_count, ..st } == st);
            }
        }
        assert(forall|i: int|
            0 <= i < l.drop_first().len() ==> {
                let st2 = #[trigger] l.drop_first()[i];
                0 <= st2.count <= st2.max_count && 1 <= st2.max_count
            });
        lemma_divide_preserves_totals(l.drop_first());
        lemma_totals_concat(seq![st], divide_all(l.drop_first()));
        assert forall|it: int| #[trigger] loot_item_total(divide_all(l), it) == loot_item_total(
            l,
            it,
        ) by {
            lemma_totals_singleton(st, it);
            lemma_item_total_cons(l, it);
        }
        lemma_totals_singleton(st, 0);
        lemma_total_cons(l);
    }
}

/// Peeling the first element off an item total.
pub proof fn lemma_item_total_cons(l: Seq<ItemStackV>, it: int)
    requires
        l.len() > 0,
    ensures
        loot_item_total(l, it) == (if l[0].item == it {
            l[0].count
        } else {
            0
        }) + loot_item_total(l.drop_first(), it),
    decreases l.len(),
{
    if l.len() == 1 {
        assert(l.drop_last() =~= Seq::<ItemStackV>::empty());
        assert(l.drop_first() =~= Seq::<ItemStackV>::empty());
        assert(loot_item_total(Seq::<ItemStackV>::empty(), it) == 0);
        assert(l.last() == l[0]);
    } else {
        lemma_item_total_cons(l.drop_last(), it);
        assert(l.drop_last()[0] == l[0]);
        assert(l.drop_last().drop_first() =~= l.drop_first().drop_last());
        assert(l.drop_first().last() == l.last());
    }
}

/// Peeling the first element off a grand total.
pub proof fn lemma_total_cons(l: Seq<ItemStackV>)
    requires
        l.len() > 0,
    ensures
        loot_total(l) == l[0].count + loot_total(l.drop_first()),
    decreases l.len(),
{
    if l.len() == 1 {
        assert(l.drop_last() =~= Seq::<ItemStackV>::empty());
        assert(l.drop_first() =~= Seq::<ItemStackV>::empty());
        assert(loot_total(Seq::<ItemStackV>::empty()) == 0);
        assert(l.last() == l[0]);
    } else {
        lemma_total_cons(l.drop_last());
        assert(l.drop_last()[0] == l[0]);
        assert(l.drop_last().drop_first() =~= l.drop_first().drop_last());
        assert(l.drop_first().last() == l.last());
    }
}


/// Sequences with equal multisets have equal totals.
pub proof fn lemma_totals_permutation(a: Seq<ItemStackV>, b: Seq<ItemStackV>)
    requires
        a.to_multiset() == b.to_multiset(),
    ensures
        forall|it: int| #[trigger] loot_item_total(a, it) == loot_item_total(b, it),
        loot_total(a) == loot_total(b),
    decreases a.len(),
{
    broadcast use vstd::seq_lib::group_to_multiset_ensures;

    a.to_multiset_ensures();
    b.to_multiset_ensures();
    if a.len() == 0 {
        assert(b.len() == 0);
    } else {
        let x = a.last();
        let a1 = a.drop_last();
        assert(a.to_multiset().contains(x));
        assert(b.contains(x));
        let k = choose|k: int| 0 <= k < b.len() && b[k] == x;
        let b1 = b.remove(k);
        assert(a1 =~= a.remove(a.len() - 1));
        assert(a1.to_multiset() == a.to_multiset().remove(x));
        assert(b1.to_multiset() == b.to_multiset().remove(x));
        lemma_totals_permutation(a1, b1);
        // b splits around position k.
        lemma_totals_remove(b, k);
        assert forall|it: int| #[trigger] loot_item_total(a, it) == loot_item_total(b, it) by {
            assert(loot_item_total(b, it) == loot_item_total(b1, it) + (if x.item == it {
                x.count
            } else {
                0
            }));
            assert(loot_item_total(a, it) == loot_item_total(a1, it) + (if x.item == it {
                x.count
            } else {
                0
            }));
            assert(loot_item_total(a1, it) == loot_item_total(b1, it));
        }
    }
}

/// Removing one element subtracts exactly its contribution from the totals.
pub proof fn lemma_totals_remove(l: Seq<ItemStackV>, k: int)
    requires
        0 <= k < l.len(),
    ensures
        forall|it: int|
            #[trigger] loot_item_total(l, it) == loot_item_total(l.remove(k), it) + (if l[k].item
                == it {
                l[k].count
            } else {
                0
            }),
        loot_total(l) == loot_total(l.remove(k)) + l[k].count,
    decreases l.len(),
{
    if k == l.len() - 1 {
        assert(l.remove(k) =~= l.drop_last());
        assert(l.last() == l[k]);
    } else {
        lemma_totals_remove(l.drop_last(), k);
        assert(l.remove(k).drop_last() =~= l.drop_last().remove(k));
        assert(l.remove(k).last() == l.last());
        assert(l.drop_last()[k] == l[k]);
        assert forall|it: int|
            #[trigger] loot_item_total(l, it) == loot_item_total(l.remove(k), it) + (if l[k].item
                == it {
                l[k].count
            } else {
                0
            }) by {
            assert(loot_item_total(l.drop_last(), it) == loot_item_total(
                l.drop_last().remove(k),
                it,
            ) + (if l[k].item == it {
                l[k].count
            } else {
                0
            }));
            assert(loot_item_total(l.remove(k), it) == loot_item_total(
                l.remove(k).drop_last(),
                it,
            ) + (if l.remove(k).last().item == it {
                l.remove(k).last().count
            } else {
                0
            }));
        }
    }
}

/// Inserting one element adds exactly its contribution to the totals.
pub proof fn lemma_totals_push(l: Seq<ItemStackV>, st: ItemStackV)
    ensures
        forall|it: int|
            #[trigger] loot_item_total(l.push(st), it) == loot_item_total(l, it) + (if st.item
                == it {
                st.count
            } else {
                0
            }),
        loot_total(l.push(st)) == loot_total(l) + st.count,
{
    assert(l.push(st).drop_last() =~= l);
    assert(l.push(st).last() == st);
}

/// The pruning pass keeps the combined totals: zero-count stacks contribute
/// nothing, and every other stack lands in one of the two piles.
pub proof fn lemma_prune_totals(l: Seq<ItemStackV>)
    ensures
        forall|it: int|
            #[trigger] loot_item_total(keep_single(l), it) + loot_item_total(pull_moved(l), it)
                == loot_item_total(l, it),
        loot_total(keep_single(l)) + loot_total(pull_moved(l)) == loot_total(l),
    decreases l.len(),
{
    if l.len() == 0 {
    } else {
        lemma_prune_totals(l.drop_first());
        lemma_item_total_cons_all(l);
        lemma_total_cons(l);
        let st = l[0];
        if st.count == 0 || st.count > 1 {
            if st.count > 1 {
                lemma_totals_concat(seq![st], pull_moved(l.drop_first()));
                assert forall|it: int|
                    #[trigger] loot_item_total(keep_single(l), it) + loot_item_total(
                        pull_moved(l),
                        it,
                    ) == loot_item_total(l, it) by {
                    lemma_totals_singleton(st, it);
                }
                lemma_totals_singleton(st, 0);
            }
        } else {
            lemma_totals_concat(seq![st], keep_single(l.drop_first()));
            assert forall|it: int|
                #[trigger] loot_item_total(keep_single(l), it) + loot_item_total(
                    pull_moved(l),
                    it,
                ) == loot_item_total(l, it) by {
                lemma_totals_singleton(st, it);
            }
            lemma_totals_singleton(st, 0);
        }
    }
}

/// The cons decomposition of the item totals, for every item at once.
pub proof fn lemma_item_total_cons_all(l: Seq<ItemStackV>)
    requires
        l.len() > 0,
    ensures
        forall|it: int|
            #[trigger] loot_item_total(l, it) == (if l[0].item == it {
                l[0].count
            } else {
                0
            }) + loot_item_total(l.drop_first(), it),
{
    assert forall|it: int|
        #[trigger] loot_item_total(l, it) == (if l[0].item == it {
            l[0].count
        } else {
            0
        }) + loot_item_total(l.drop_first(), it) by {
        lemma_item_total_cons(l, it);
    }
}


/// Routing a split half moves its whole count into one of the two piles.
pub proof fn lemma_route_half_totals(
    loot: Seq<ItemStackV>,
    moved: Seq<ItemStackV>,
    half: ItemStackV,
    s: int,
)
    ensures
        ({
            let (l1, m1, _s1) = route_half(loot, moved, half, s);
            &&& forall|it: int|
                #[trigger] loot_item_total(l1, it) + loot_item_total(m1, it) == loot_item_total(
                    loot,
                    it,
                ) + loot_item_total(moved, it) + (if half.item == it {
                    half.count
                } else {
                    0
                })
            &&& loot_total(l1) + loot_total(m1) == loot_total(loot) + loot_total(moved)
                + half.count
        }),
{
    let (l1, m1, _s1) = route_half(loot, moved, half, s);
    if half.count > 1 && crate::random::bits_value(crate::random::java_next(s), 1) != 0 {
        lemma_totals_push(moved, half);
    } else {
        lemma_totals_push(loot, half);
    }
}

/// The splitting rounds keep the combined totals of the two piles.
pub proof fn lemma_rounds_totals(
    loot: Seq<ItemStackV>,
    moved: Seq<ItemStackV>,
    free: int,
    s: int,
)
    ensures
        ({
            let (l1, m1, _s1) = shuffle_rounds(loot, moved, free, s);
            &&& forall|it: int|
                #[trigger] loot_item_total(l1, it) + loot_item_total(m1, it) == loot_item_total(
                    loot,
                    it,
                ) + loot_item_total(moved, it)
            &&& loot_total(l1) + loot_total(m1) == loot_total(loot) + loot_total(moved)
        }),
    decreases free - loot.len() - moved.len(),
{
    reveal(shuffle_rounds);
    if moved.len() + loot.len() >= free || moved.len() == 0 {
    } else {
        let i0 = range_value(s, 0, moved.len() - 1);
        let i = if 0 <= i0 < moved.len() {
            i0
        } else {
            0
        };
        let s1 = range_state(s, 0, moved.len() - 1);
        let stack = moved[i];
        let moved1 = moved.remove(i);
        let cnt = range_value(s1, 1, stack.count / 2);
        let s2 = range_state(s1, 1, stack.count / 2);
        let b = ItemStackV { count: spec_split_count(stack, cnt), ..stack };
        let a = ItemStackV { count: stack.count - spec_split_count(stack, cnt), ..stack };
        let r1 = route_half(loot, moved1, a, s2);
        let r2 = route_half(r1.0, r1.1, b, r1.2);
        lemma_totals_remove(moved, i);
        lemma_route_half_totals(loot, moved1, a, s2);
        lemma_route_half_totals(r1.0, r1.1, b, r1.2);
        lemma_rounds_totals(r2.0, r2.1, free, r2.2);
        assert forall|it: int|
            #[trigger] loot_item_total(shuffle_rounds(loot, moved, free, s).0, it)
                + loot_item_total(shuffle_rounds(loot, moved, free, s).1, it)
                == loot_item_total(loot, it) + loot_item_total(moved, it) by {
            assert(loot_item_total(moved, it) == loot_item_total(moved1, it) + (if stack.item
                == it {
                stack.count
            } else {
                0
            }));
        }
    }
}

/// The shuffle preserves totals: it only permutes.
pub proof fn lemma_shuffle_totals(arr: Seq<ItemStackV>, s: int)
    requires
        0 <= s < crate::lcg::JAVA_MODULUS,
        arr.len() <= 0x7FFF_FFFF,
    ensures
        forall|it: int|
            #[trigger] loot_item_total(spec_shuffle(arr, s).0, it) == loot_item_total(arr, it),
        loot_total(spec_shuffle(arr, s).0) == loot_total(arr),
{
    crate::end_pillars::lemma_shuffle_from_multiset(arr, s, arr.len());
    lemma_totals_permutation(spec_shuffle(arr, s).0, arr);
}

/// The whole shuffle-loot pass keeps the totals of the incoming loot.
pub proof fn lemma_shuffle_loot_totals(loot0: Seq<ItemStackV>, free: int, s: int)
    requires
        0 <= s < crate::lcg::JAVA_MODULUS,
        loot0.len() <= 0x100000,
        free <= 0x7FFF_FFFF,
    ensures
        forall|it: int|
            #[trigger] loot_item_total(spec_shuffle_loot(loot0, free, s).0, it)
                == loot_item_total(loot0, it),
        loot_total(spec_shuffle_loot(loot0, free, s).0) == loot_total(loot0),
{
    let kept = keep_single(loot0);
    let moved = pull_moved(loot0);
    lemma_prune_totals(loot0);
    let (l1, m1, s1) = shuffle_rounds(kept, moved, free, s);
    lemma_rounds_totals(kept, moved, free, s);
    lemma_rounds_state(kept, moved, free, s);
    lemma_rounds_len(kept, moved, free, s);
    lemma_prune_len(loot0);
    lemma_totals_concat(l1, m1);
    lemma_shuffle_totals(l1 + m1, s1);
}

/// The piles only grow while a free slot remains, so their combined size is
/// bounded by the larger of the starting size and the free-slot count.
pub proof fn lemma_rounds_len(
    loot: Seq<ItemStackV>,
    moved: Seq<ItemStackV>,
    free: int,
    s: int,
)
    ensures
        ({
            let (l1, m1, _s1) = shuffle_rounds(loot, moved, free, s);
            l1.len() + m1.len() <= loot.len() + moved.len() || l1.len() + m1.len() <= free
        }),
    decreases free - loot.len() - moved.len(),
{
    reveal(shuffle_rounds);
    if moved.len() + loot.len() >= free || moved.len() == 0 {
    } else {
        let i0 = range_value(s, 0, moved.len() - 1);
        let i = if 0 <= i0 < moved.len() {
            i0
        } else {
            0
        };
        let s1 = range_state(s, 0, moved.len() - 1);
        let stack = moved[i];
        let moved1 = moved.remove(i);
        let cnt = range_value(s1, 1, stack.count / 2);
        let s2 = range_state(s1, 1, stack.count / 2);
        let b = ItemStackV { count: spec_split_count(stack, cnt), ..stack };
        let a = ItemStackV { count: stack.count - spec_split_count(stack, cnt), ..stack };
        let r1 = route_half(loot, moved1, a, s2);
        let r2 = route_half(r1.0, r1.1, b, r1.2);
        lemma_rounds_len(r2.0, r2.1, free, r2.2);
    }
}

/// The rounds leave a 48-bit state when they started from one.
pub proof fn lemma_rounds_state(
    loot: Seq<ItemStackV>,
    moved: Seq<ItemStackV>,
    free: int,
    s: int,
)
    requires
        0 <= s < crate::lcg::JAVA_MODULUS,
    ensures
        0 <= shuffle_rounds(loot, moved, free, s).2 < crate::lcg::JAVA_MODULUS,
    decreases free - loot.len() - moved.len(),
{
    reveal(shuffle_rounds);
    if moved.len() + loot.len() >= free || moved.len() == 0 {
    } else {
        let i0 = range_value(s, 0, moved.len() - 1);
        let i = if 0 <= i0 < moved.len() {
            i0
        } else {
            0
        };
        let s1 = range_state(s, 0, moved.len() - 1);
        let stack = moved[i];
        let moved1 = moved.remove(i);
        let cnt = range_value(s1, 1, stack.count / 2);
        let s2 = range_state(s1, 1, stack.count / 2);
        let b = ItemStackV { count: spec_split_count(stack, cnt), ..stack };
        let a = ItemStackV { count: stack.count - spec_split_count(stack, cnt), ..stack };
        crate::random::lemma_range_bounds(s, 0, moved.len() - 1);
        crate::random::lemma_range_bounds(s1, 1, stack.count / 2);
        let r1 = route_half(loot, moved1, a, s2);
        let r2 = route_half(r1.0, r1.1, b, r1.2);
        assert(0 <= r2.2 < crate::lcg::JAVA_MODULUS) by {
            if a.count > 1 {
                crate::random::lemma_java_next_bound(s2);
            }
            if b.count > 1 {
                crate::random::lemma_java_next_bound(r1.2);
            }
        }
        lemma_rounds_state(r2.0, r2.1, free, r2.2);
    }
}

/// Pruning never grows the list.
pub proof fn lemma_prune_len(l: Seq<ItemStackV>)
    ensures
        keep_single(l).len() + pull_moved(l).len() <= l.len(),
    decreases l.len(),
{
    if l.len() > 0 {
        lemma_prune_len(l.drop_first());
    }
}


/// The contribution of one slot to an item count.
pub open spec fn slot_item_contrib(s: Option<ItemStackV>, item: int) -> int {
    match s {
        Some(st) => if st.item == item {
            st.count
        } else {
            0
        },
        None => 0,
    }
}

/// The contribution of one slot to the grand total.
pub open spec fn slot_total_contrib(s: Option<ItemStackV>) -> int {
    match s {
        Some(st) => st.count,
        None => 0,
    }
}

/// Updating one slot shifts the tabulated counts by the contribution delta.
pub proof fn lemma_chest_count_update(
    c: Seq<Option<ItemStackV>>,
    j: int,
    v: Option<ItemStackV>,
    n: nat,
)
    requires
        0 <= j < n <= c.len(),
    ensures
        forall|it: int|
            #[trigger] chest_count_upto(c.update(j, v), it, n) == chest_count_upto(c, it, n)
                - slot_item_contrib(c[j], it) + slot_item_contrib(v, it),
        chest_total_upto(c.update(j, v), n) == chest_total_upto(c, n) - slot_total_contrib(
            c[j],
        ) + slot_total_contrib(v),
    decreases n,
{
    let c2 = c.update(j, v);
    if j == n - 1 {
        assert(c2[n - 1] == v);
        assert forall|it: int|
            #[trigger] chest_count_upto(c2, it, n) == chest_count_upto(c, it, n)
                - slot_item_contrib(c[j], it) + slot_item_contrib(v, it) by {
            lemma_chest_count_prefix_same(c, c2, it, (n - 1) as nat);
        }
        lemma_chest_total_prefix_same(c, c2, (n - 1) as nat);
    } else {
        lemma_chest_count_update(c, j, v, (n - 1) as nat);
        assert(c2[n - 1] == c[n - 1]);
        assert forall|it: int|
            #[trigger] chest_count_upto(c2, it, n) == chest_count_upto(c, it, n)
                - slot_item_contrib(c[j], it) + slot_item_contrib(v, it) by {
            assert(chest_count_upto(c2, it, n) == chest_count_upto(c2, it, (n - 1) as nat)
                + (match c2[n - 1] {
                Some(st) => if st.item == it {
                    st.count
                } else {
                    0
                },
                None => 0,
            }));
        }
    }
}

/// Two chests equal below `n` tabulate the same counts below `n`.
pub proof fn lemma_chest_count_prefix_same(
    a: Seq<Option<ItemStackV>>,
    b: Seq<Option<ItemStackV>>,
    it: int,
    n: nat,
)
    requires
        n <= a.len(),
        n <= b.len(),
        forall|i: int| 0 <= i < n ==> a[i] == b[i],
    ensures
        chest_count_upto(a, it, n) == chest_count_upto(b, it, n),
    decreases n,
{
    if n > 0 {
        lemma_chest_count_prefix_same(a, b, it, (n - 1) as nat);
    }
}

/// Two chests equal below `n` tabulate the same total below `n`.
pub proof fn lemma_chest_total_prefix_same(
    a: Seq<Option<ItemStackV>>,
    b: Seq<Option<ItemStackV>>,
    n: nat,
)
    requires
        n <= a.len(),
        n <= b.len(),
        forall|i: int| 0 <= i < n ==> a[i] == b[i],
    ensures
        chest_total_upto(a, n) == chest_total_upto(b, n),
    decreases n,
{
    if n > 0 {
        lemma_chest_total_prefix_same(a, b, (n - 1) as nat);
    }
}

/// An all-empty chest tabulates zero everywhere.
pub proof fn lemma_empty_chest_counts(n: nat)
    requires
        n <= 27,
    ensures
        forall|it: int| #[trigger] chest_count_upto(empty_chest(), it, n) == 0,
        chest_total_upto(empty_chest(), n) == 0,
    decreases n,
{
    if n > 0 {
        lemma_empty_chest_counts((n - 1) as nat);
        assert(empty_chest()[n - 1] is None);
        assert forall|it: int| #[trigger] chest_count_upto(empty_chest(), it, n) == 0 by {
            assert(chest_count_upto(empty_chest(), it, (n - 1) as nat) == 0);
        }
    }
}

/// Placing loot into pairwise distinct empty slots adds exactly the loot's
/// totals to the chest's tabulated counts.
pub proof fn lemma_place_totals(
    c: Seq<Option<ItemStackV>>,
    loot: Seq<ItemStackV>,
    free: Seq<i32>,
)
    requires
        c.len() == 27,
        loot.len() <= free.len(),
        forall|k: int| 0 <= k < free.len() ==> 0 <= #[trigger] free[k] < 27,
        forall|k1: int, k2: int|
            0 <= k1 < k2 < free.len() ==> free[k1] != free[k2],
        forall|k: int| 0 <= k < free.len() ==> c[#[trigger] free[k] as int] is None,
    ensures
        forall|it: int|
            #[trigger] chest_count_upto(spec_place(c, loot, free), it, 27) == chest_count_upto(
                c,
                it,
                27,
            ) + loot_item_total(loot, it),
        chest_total_upto(spec_place(c, loot, free), 27) == chest_total_upto(c, 27) + loot_total(
            loot,
        ),
        spec_place(c, loot, free).len() == 27,
    decreases loot.len(),
{
    if loot.len() == 0 || free.len() == 0 {
        assert(loot.len() == 0);
        assert forall|it: int|
            #[trigger] chest_count_upto(spec_place(c, loot, free), it, 27) == chest_count_upto(
                c,
                it,
                27,
            ) + loot_item_total(loot, it) by {}
    } else {
        let slot = free.last() as int;
        let st = loot[0];
        let v = if st.count == 0 {
            Option::<ItemStackV>::None
        } else {
            Some(st)
        };
        let c1 = c.update(slot, v);
        lemma_chest_count_update(c, slot, v, 27);
        let free1 = free.drop_last();
        assert(forall|k: int| 0 <= k < free1.len() ==> #[trigger] free1[k] == free[k]);
        assert forall|k: int| 0 <= k < free1.len() implies c1[#[trigger] free1[k] as int]
            is None by {
            assert(free1[k] != free.last());
            assert(c1[free1[k] as int] == c[free1[k] as int]);
        }
        lemma_place_totals(c1, loot.drop_first(), free1);
        lemma_item_total_cons_all(loot);
        lemma_total_cons(loot);
        assert forall|it: int|
            #[trigger] chest_count_upto(spec_place(c, loot, free), it, 27) == chest_count_upto(
                c,
                it,
                27,
            ) + loot_item_total(loot, it) by {
            assert(slot_item_contrib(v, it) == (if st.item == it {
                st.count
            } else {
                0
            }));
            assert(slot_item_contrib(c[slot], it) == 0);
        }
        assert(slot_total_contrib(c[slot]) == 0);
        assert(slot_total_contrib(v) == st.count);
    }
}

/// The loot a fast pool walk emits: at most 256 pieces per roll, each with a
/// non-negative count, and a 48-bit state when it completes.
pub proof fn lemma_fast_rolls_bounds(
    entries: Seq<ItemLootPoolEntryV>,
    luck: int,
    n: nat,
    s: int,
    counts: Seq<int>,
    total: int,
)
    requires
        1 <= entries.len(),
        forall|i: int| 0 <= i < entries.len() ==> entry_wf(#[trigger] entries[i]),
        0 <= s < crate::lcg::JAVA_MODULUS,
    ensures
        ({
            match fast_rolls(entries, luck, n, s, counts, total) {
                None => true,
                Some((l, s1, _c, _t)) => {
                    &&& l.len() <= n * 0x100
                    &&& forall|i: int| 0 <= i < l.len() ==> 0 <= (#[trigger] l[i]).count
                    &&& 0 <= s1 < crate::lcg::JAVA_MODULUS
                },
            }
        }),
    decreases n,
{
    if n == 0 {
    } else {
        let (idx, s1) = spec_select(entries, luck, s);
        lemma_select_in_range(entries, luck, s);
        let (st, s2) = spec_entry_gen(entries[idx as int], luck, s1);
        lemma_entry_gen_bounds(entries[idx as int], luck, s1);
        lemma_divide_stack_bounds(st);
        let newc = counts[st.item] - st.count;
        if newc < 0 {
        } else if total - st.count < 0 {
        } else {
            let rest = fast_rolls(
                entries,
                luck,
                (n - 1) as nat,
                s2,
                counts.update(st.item, newc),
                total - st.count,
            );
            lemma_fast_rolls_bounds(
                entries,
                luck,
                (n - 1) as nat,
                s2,
                counts.update(st.item, newc),
                total - st.count,
            );
            match rest {
                None => {},
                Some((l, s3, _c, _t)) => {
                    assert((n - 1) * 0x100 + 0x100 == n * 0x100) by (nonlinear_arith);
                    assert(forall|i: int|
                        0 <= i < (divide_stack(st) + l).len() ==> 0 <= (#[trigger] (divide_stack(
                            st,
                        ) + l)[i]).count);
                },
            }
        }
    }
}

/// The loot a fast table walk emits: at most `255 * 256` pieces per pool,
/// each with a non-negative count.
pub proof fn lemma_fast_pools_bounds(
    t: Seq<LootPoolV>,
    luck: int,
    s: int,
    counts: Seq<int>,
    total: int,
)
    requires
        table_wf(t),
        0 <= s < crate::lcg::JAVA_MODULUS,
    ensures
        ({
            match fast_pools(t, luck, s, counts, total) {
                None => true,
                Some((l, s1, _c, _t)) => {
                    &&& l.len() <= t.len() * 0xFF00
                    &&& forall|i: int| 0 <= i < l.len() ==> 0 <= (#[trigger] l[i]).count
                    &&& 0 <= s1 < crate::lcg::JAVA_MODULUS
                },
            }
        }),
    decreases t.len(),
{
    if t.len() == 0 {
    } else {
        let (rv, s1) = t[0].rolls.spec_apply(s);
        match t[0].rolls {
            LootTableRange::Uniform { min, max } => {
                crate::random::lemma_range_bounds(s, min as int, max as int);
            },
            LootTableRange::Constant { value } => {},
        }
        let n = (if rv >= 0 {
            rv
        } else {
            0
        }) as nat;
        assert(n <= 0xFF);
        lemma_fast_rolls_bounds(t[0].entries, luck, n, s1, counts, total);
        match fast_rolls(t[0].entries, luck, n, s1, counts, total) {
            None => {},
            Some((l0, s2, c2, t2)) => {
                let rest_t = t.drop_first();
                assert(table_wf(rest_t)) by {
                    assert(forall|i: int|
                        0 <= i < rest_t.len() ==> rest_t[i] == t[i + 1] && pool_wf(
                            #[trigger] rest_t[i],
                        ));
                }
                lemma_fast_pools_bounds(rest_t, luck, s2, c2, t2);
                match fast_pools(rest_t, luck, s2, c2, t2) {
                    None => {},
                    Some((l1, s3, _c3, _t3)) => {
                        assert(l0.len() <= 0xFF * 0x100);
                        assert((t.len() - 1) * 0xFF00 + 0xFF00 == t.len() * 0xFF00)
                            by (nonlinear_arith);
                        assert(forall|i: int|
                            0 <= i < (l0 + l1).len() ==> 0 <= (#[trigger] (l0 + l1)[i]).count);
                    },
                }
            },
        }
    }
}

/// Appends the split pieces of one raw stack.
fn push_divided(out: &mut Vec<ItemStack>, st: &ItemStack)
    requires
        0 <= st@.count <= 0xFF,
        1 <= st@.max_count,
    ensures
        final(out)@.map_values(|x: ItemStack| x@) == old(out)@.map_values(|x: ItemStack| x@)
            + divide_stack(st@),
{
    let ghost produced = out@.map_values(|x: ItemStack| x@);
    let ghost stv = st@;
    if st.count < st.max_count {
        out.push(copy_stack(st));
        proof {
            assert(out@.map_values(|x: ItemStack| x@) =~= produced.push(stv));
            assert(divide_stack(stv) =~= seq![stv]);
            assert(produced.push(stv) =~= produced + divide_stack(stv));
        }
    } else {
        let stacks = st.count / st.max_count;
        let remainder = st.count % st.max_count;
        let ghost full = ItemStackV { count: stv.max_count, ..stv };
        if remainder > 0 {
            let mut k: i32 = 0;
            while k < stacks
                invariant
                    0 <= k <= stacks,
                    stacks == stv.count / stv.max_count,
                    0 <= stv.count <= 0xFF,
                    1 <= stv.max_count,
                    stv == st@,
                    full == (ItemStackV { count: stv.max_count, ..stv }),
                    out@.map_values(|x: ItemStack| x@) =~= produced + Seq::new(
                        k as nat,
                        |j: int| full,
                    ),
                decreases stacks - k,
            {
                let ghost before = out@.map_values(|x: ItemStack| x@);
                out.push(
                    ItemStack {
                        item: st.item,
                        count: st.max_count,
                        max_count: st.max_count,
                        properties: clone_properties(&st.properties),
                    },
                );
                proof {
                    assert(out@.map_values(|x: ItemStack| x@) =~= before.push(full));
                    assert(before.push(full) =~= produced + Seq::new((k + 1) as nat, |j: int| full));
                }
                k = k + 1;
            }
            let ghost before = out@.map_values(|x: ItemStack| x@);
            out.push(
                ItemStack {
                    item: st.item,
                    count: remainder,
                    max_count: st.max_count,
                    properties: clone_properties(&st.properties),
                },
            );
            proof {
                let remv = ItemStackV { count: stv.count % stv.max_count, ..stv };
                assert(out@.map_values(|x: ItemStack| x@) =~= before.push(remv));
                assert(divide_stack(stv) =~= Seq::new(
                    (stv.count / stv.max_count) as nat,
                    |j: int| full,
                ).push(remv));
                assert(out@.map_values(|x: ItemStack| x@) =~= produced + divide_stack(stv));
            }
        } else {
            let ghost before = out@.map_values(|x: ItemStack| x@);
            out.push(
                ItemStack {
                    item: st.item,
                    count: st.max_count,
                    max_count: st.max_count,
                    properties: clone_properties(&st.properties),
                },
            );
            proof {
                assert(out@.map_values(|x: ItemStack| x@) =~= before.push(full));
                assert(divide_stack(stv) =~= seq![full]);
                assert(before.push(full) =~= produced + divide_stack(stv));
            }
        }
    }
}

impl LootTable {
    /// The fast walk of one pool: rolls with tally checks; `false` means the
    /// walk aborted because a tally went negative.
    fn fast_roll_pool(
        pool: &LootPool,
        rng: &mut JavaRandom,
        luck: i32,
        rem_count: &mut Vec<i32>,
        rem_items: &mut i32,
        loot: &mut Vec<ItemStack>,
    ) -> (ok: bool)
        requires
            old(rng).wf(),
            pool_wf(pool@),
            luck_wf(luck as int),
            pool_positive(pool@.entries, luck as int),
            forall|j: int|
                0 <= j < pool@.entries.len() ==> (#[trigger] pool@.entries[j]).item < old(
                    rem_count,
                )@.len(),
            old(rem_count)@.len() <= 0x1000,
            forall|i: int|
                0 <= i < old(rem_count)@.len() ==> 0 <= #[trigger] old(rem_count)@[i]
                    < 0x7FFF_0000,
            0 <= *old(rem_items) < 0x7FFF_0000,
        ensures
            final(rng).wf(),
            final(rem_count)@.len() == old(rem_count)@.len(),
            forall|i: int|
                0 <= i < final(rem_count)@.len() ==> #[trigger] final(rem_count)@[i] < 0x7FFF_0000,
            *final(rem_items) < 0x7FFF_0000,
            ok ==> forall|i: int|
                0 <= i < final(rem_count)@.len() ==> 0 <= #[trigger] final(rem_count)@[i],
            ok ==> 0 <= *final(rem_items),
            old(loot)@.len() <= final(loot)@.len(),
            ({
                let (rv, s1) = pool@.rolls.spec_apply(old(rng).state());
                let n = (if rv >= 0 {
                    rv
                } else {
                    0
                }) as nat;
                let w = fast_rolls(
                    pool@.entries,
                    luck as int,
                    n,
                    s1,
                    old(rem_count)@.map_values(|x: i32| x as int),
                    *old(rem_items) as int,
                );
                if ok {
                    w == Some(
                        (
                            final(loot)@.map_values(|x: ItemStack| x@).skip(
                                old(loot)@.len() as int,
                            ),
                            final(rng).state(),
                            final(rem_count)@.map_values(|x: i32| x as int),
                            *final(rem_items) as int,
                        ),
                    ) && final(loot)@.map_values(|x: ItemStack| x@).take(old(loot)@.len() as int)
                        == old(loot)@.map_values(|x: ItemStack| x@)
                } else {
                    w is None
                }
            }),
    {
        let rolls = pool.rolls.apply(rng);
        let ghost s1 = rng.state();
        let ghost n0 = (if rolls >= 0 {
            rolls as int
        } else {
            0
        }) as nat;
        let ghost loot0 = loot@.map_values(|x: ItemStack| x@);
        let ghost counts0 = rem_count@.map_values(|x: i32| x as int);
        let ghost total0 = *rem_items as int;
        let ghost w0 = fast_rolls(pool@.entries, luck as int, n0, s1, counts0, total0);
        let mut done: i32 = 0;
        proof {
            assert(loot0.skip(loot0.len() as int) =~= Seq::<ItemStackV>::empty());
            assert(fast_prepend(Seq::<ItemStackV>::empty(), w0) == w0) by {
                match w0 {
                    None => {},
                    Some((l, a, b, c)) => {
                        assert(Seq::<ItemStackV>::empty() + l =~= l);
                    },
                }
            }
        }
        while done < rolls
            invariant
                rng.wf(),
                0 <= done,
                rolls >= 0 ==> done <= rolls,
                rolls < 0 ==> done == 0,
                n0 == (if rolls >= 0 { rolls as int } else { 0 }),
                pool_wf(pool@),
                luck_wf(luck as int),
                pool_positive(pool@.entries, luck as int),
                s1 == pool@.rolls.spec_apply(old(rng).state()).1,
                rolls == pool@.rolls.spec_apply(old(rng).state()).0,
                counts0 == old(rem_count)@.map_values(|x: i32| x as int),
                total0 == *old(rem_items) as int,
                loot0 == old(loot)@.map_values(|x: ItemStack| x@),
                w0 == fast_rolls(pool@.entries, luck as int, n0, s1, counts0, total0),
                forall|j: int|
                    0 <= j < pool@.entries.len() ==> (#[trigger] pool@.entries[j]).item
                        < rem_count@.len(),
                rem_count@.len() == old(rem_count)@.len() <= 0x1000,
                forall|i: int|
                    0 <= i < rem_count@.len() ==> 0 <= #[trigger] rem_count@[i] < 0x7FFF_0000,
                0 <= *rem_items < 0x7FFF_0000,
                loot0.len() <= loot@.map_values(|x: ItemStack| x@).len(),
                loot@.map_values(|x: ItemStack| x@).take(loot0.len() as int) == loot0,
                fast_prepend(
                    loot@.map_values(|x: ItemStack| x@).skip(loot0.len() as int),
                    fast_rolls(
                        pool@.entries,
                        luck as int,
                        (n0 - done) as nat,
                        rng.state(),
                        rem_count@.map_values(|x: i32| x as int),
                        *rem_items as int,
                    ),
                ) == w0,
            decreases rolls - done,
        {
            let ghost lv_here = loot@.map_values(|x: ItemStack| x@);
            let ghost delta_here = lv_here.skip(loot0.len() as int);
            let ghost s_here = rng.state();
            let ghost counts_here = rem_count@.map_values(|x: i32| x as int);
            let ghost total_here = *rem_items as int;
            let idx = pool.select_entry(rng, luck);
            proof {
                assert(pool@.entries[idx as int] == pool.entries@[idx as int]@);
            }
            let st = pool.entries[idx].generate_raw_loot(rng, luck);
            proof {
                lemma_entry_gen_bounds(
                    pool@.entries[idx as int],
                    luck as int,
                    spec_select(pool@.entries, luck as int, s_here).1,
                );
                crate::random::lemma_bounded_range(s_here, total_weight(pool@.entries, luck as int));
            }
            let id = st.item;
            let prev = rem_count[id];
            let newc = prev - st.count;
            rem_count.set(id, newc);
            proof {
                assert(rem_count@.map_values(|x: i32| x as int) =~= counts_here.update(
                    id as int,
                    newc as int,
                ));
            }
            if newc < 0 {
                proof {
                    assert(fast_rolls(
                        pool@.entries,
                        luck as int,
                        (n0 - done) as nat,
                        s_here,
                        counts_here,
                        total_here,
                    ) is None);
                    assert(w0 is None);
                }
                return false;
            }
            if *rem_items - st.count < 0 {
                proof {
                    assert(fast_rolls(
                        pool@.entries,
                        luck as int,
                        (n0 - done) as nat,
                        s_here,
                        counts_here,
                        total_here,
                    ) is None);
                    assert(w0 is None);
                }
                return false;
            }
            *rem_items = *rem_items - st.count;
            push_divided(loot, &st);
            proof {
                let lv_now = loot@.map_values(|x: ItemStack| x@);
                assert(lv_now =~= lv_here + divide_stack(st@));
                assert(lv_now.take(loot0.len() as int) =~= loot0);
                assert(lv_now.skip(loot0.len() as int) =~= delta_here + divide_stack(st@));
                let w_next = fast_rolls(
                    pool@.entries,
                    luck as int,
                    (n0 - done - 1) as nat,
                    rng.state(),
                    rem_count@.map_values(|x: i32| x as int),
                    *rem_items as int,
                );
                match w_next {
                    None => {},
                    Some((l, a, b, c)) => {
                        assert((delta_here + divide_stack(st@)) + l =~= delta_here + (divide_stack(
                            st@,
                        ) + l));
                    },
                }
            }
            done = done + 1;
        }
        proof {
            let delta = loot@.map_values(|x: ItemStack| x@).skip(loot0.len() as int);
            assert(fast_prepend(delta, fast_rolls(
                pool@.entries,
                luck as int,
                0,
                rng.state(),
                rem_count@.map_values(|x: i32| x as int),
                *rem_items as int,
            )) == w0);
            assert(delta + Seq::<ItemStackV>::empty() =~= delta);
        }
        true
    }

    /// The fast replay against an observed chest, reusing a caller-owned
    /// scratch chest.
    pub fn compare_fast(
        &self,
        rng: JavaRandom,
        luck: i32,
        compare: &FastInventoryCompareContext,
        temp_empty_inventory: &mut SingleChest,
    ) -> (r: bool)
        requires
            rng.wf(),
            table_wf(self@),
            self@.len() <= 0x10,
            luck_wf(luck as int),
            table_positive(self@, luck as int),
            table_items_below(self@, compare.items_count@.len() as int),
            compare.items_count@.len() <= 0x1000,
            forall|i: int|
                0 <= i < compare.items_count@.len() ==> 0 <= #[trigger] compare.items_count@[i]
                    < 0x7FFF_0000,
            0 <= compare.total_items < 0x7FFF_0000,
            compare.inventory.wf(),
            old(temp_empty_inventory).wf(),
        ensures
            final(temp_empty_inventory).wf(),
            r == spec_compare_fast(
                self@,
                luck as int,
                rng.state(),
                compare.items_count@.map_values(|x: i32| x as int),
                compare.total_items as int,
                compare.inventory.contents(),
            ),
    {
        let mut prng = rng;
        let ghost s0 = prng.state();
        let ghost counts0 = compare.items_count@.map_values(|x: i32| x as int);
        let ghost total0 = compare.total_items as int;
        let ghost full = fast_pools(self@, luck as int, s0, counts0, total0);

        let mut rem_count: Vec<i32> = Vec::new();
        let mut k: usize = 0;
        while k < compare.items_count.len()
            invariant
                k <= compare.items_count@.len(),
                rem_count@ == compare.items_count@.take(k as int),
            decreases compare.items_count@.len() - k,
        {
            rem_count.push(compare.items_count[k]);
            proof {
                assert(rem_count@ =~= compare.items_count@.take(k + 1));
            }
            k = k + 1;
        }
        proof {
            assert(compare.items_count@.take(compare.items_count@.len() as int)
                =~= compare.items_count@);
            assert(rem_count@.map_values(|x: i32| x as int) == counts0);
        }
        let mut rem_items: i32 = compare.total_items;
        let mut loot: Vec<ItemStack> = Vec::new();
        let mut pi: usize = 0;
        proof {
            assert(loot@.map_values(|st: ItemStack| st@) =~= Seq::<ItemStackV>::empty());
            assert(self@.skip(0) =~= self@);
            assert(fast_prepend(Seq::<ItemStackV>::empty(), full) == full) by {
                match full {
                    None => {},
                    Some((l, a, b, c)) => {
                        assert(Seq::<ItemStackV>::empty() + l =~= l);
                    },
                }
            }
        }
        while pi < self.pools.len()
            invariant
                prng.wf(),
                pi <= self.pools@.len(),
                self@.len() == self.pools@.len(),
                table_wf(self@),
                self@.len() <= 0x10,
                luck_wf(luck as int),
                table_positive(self@, luck as int),
                table_items_below(self@, rem_count@.len() as int),
                rem_count@.len() == compare.items_count@.len() <= 0x1000,
                forall|i: int|
                    0 <= i < rem_count@.len() ==> 0 <= #[trigger] rem_count@[i] < 0x7FFF_0000,
                0 <= rem_items < 0x7FFF_0000,
                temp_empty_inventory.wf(),
                s0 == rng.state(),
                counts0 == compare.items_count@.map_values(|x: i32| x as int),
                total0 == compare.total_items as int,
                full == fast_pools(self@, luck as int, s0, counts0, total0),
                fast_prepend(
                    loot@.map_values(|st: ItemStack| st@),
                    fast_pools(
                        self@.skip(pi as int),
                        luck as int,
                        prng.state(),
                        rem_count@.map_values(|x: i32| x as int),
                        rem_items as int,
                    ),
                ) == full,
            decreases self.pools@.len() - pi,
        {
            let ghost rem_t = self@.skip(pi as int);
            let ghost lv_here = loot@.map_values(|st: ItemStack| st@);
            let ghost s_here = prng.state();
            let ghost counts_here = rem_count@.map_values(|x: i32| x as int);
            let ghost total_here = rem_items as int;
            proof {
                assert(rem_t[0] == self@[pi as int]);
                assert(rem_t.drop_first() =~= self@.skip(pi + 1));
                assert(self@[pi as int] == self.pools@[pi as int]@);
                assert(forall|j: int|
                    0 <= j < self@[pi as int].entries.len() ==> (#[trigger] self@[pi as int]
                        .entries[j]).item < rem_count@.len());
            }
            let pool = &self.pools[pi];
            let ok = Self::fast_roll_pool(
                pool,
                &mut prng,
                luck,
                &mut rem_count,
                &mut rem_items,
                &mut loot,
            );
            if !ok {
                proof {
                    assert(rem_t[0] == pool@);
                    let (rv, sp1) = pool@.rolls.spec_apply(s_here);
                    let n = (if rv >= 0 {
                        rv
                    } else {
                        0
                    }) as nat;
                    assert(fast_rolls(pool@.entries, luck as int, n, sp1, counts_here, total_here)
                        is None);
                    assert(fast_pools(rem_t, luck as int, s_here, counts_here, total_here)
                        is None);
                    assert(full is None);
                }
                return false;
            }
            proof {
                assert(rem_t[0] == pool@);
                let lv_now = loot@.map_values(|st: ItemStack| st@);
                let delta = lv_now.skip(lv_here.len() as int);
                assert(lv_now.take(lv_here.len() as int) == lv_here);
                assert(lv_now =~= lv_here + delta);
                let (rv, sp1) = pool@.rolls.spec_apply(s_here);
                let n = (if rv >= 0 {
                    rv
                } else {
                    0
                }) as nat;
                assert(fast_rolls(pool@.entries, luck as int, n, sp1, counts_here, total_here)
                    == Some(
                    (
                        delta,
                        prng.state(),
                        rem_count@.map_values(|x: i32| x as int),
                        rem_items as int,
                    ),
                ));
                let w_rest = fast_pools(
                    self@.skip(pi + 1),
                    luck as int,
                    prng.state(),
                    rem_count@.map_values(|x: i32| x as int),
                    rem_items as int,
                );
                assert(fast_pools(rem_t, luck as int, s_here, counts_here, total_here)
                    == fast_prepend(delta, w_rest));
                match w_rest {
                    None => {},
                    Some((l, a, b, c)) => {
                        assert((lv_here + delta) + l =~= lv_here + (delta + l));
                    },
                }
            }
            pi = pi + 1;
        }
        proof {
            assert(self@.skip(self@.len() as int) =~= Seq::<LootPoolV>::empty());
            let lv = loot@.map_values(|st: ItemStack| st@);
            assert(lv + Seq::<ItemStackV>::empty() =~= lv);
            assert(full == Some(
                (lv, prng.state(), rem_count@.map_values(|x: i32| x as int), rem_items as int),
            ));
        }
        temp_empty_inventory.clear();
        proof {
            assert(temp_empty_inventory.contents() =~= empty_chest());
            crate::random::lemma_java_next_bound(0);
        }
        let free_slots = Self::get_free_slots(temp_empty_inventory, &mut prng);
        let ghost lv = loot@.map_values(|st: ItemStack| st@);
        proof {
            assert(forall|i: int| 0 <= i < loot@.len() ==> (#[trigger] loot@[i])@ == lv[i]);
            lemma_fast_pools_bounds(self@, luck as int, s0, counts0, total0);
            assert(lv.len() <= 0x10 * 0xFF00);
        }
        let shuffled = Self::shuffle_loot(loot, free_slots.len() as i32, &mut prng);
        Self::place_loot(temp_empty_inventory, &shuffled, free_slots);
        chests_equal(temp_empty_inventory, &compare.inventory)
    }

    /// The fast replay with its own scratch chest.
    pub fn compare_fast_noinv(
        &self,
        rng: JavaRandom,
        luck: i32,
        compare: &FastInventoryCompareContext,
    ) -> (r: bool)
        requires
            rng.wf(),
            table_wf(self@),
            self@.len() <= 0x10,
            luck_wf(luck as int),
            table_positive(self@, luck as int),
            table_items_below(self@, compare.items_count@.len() as int),
            compare.items_count@.len() <= 0x1000,
            forall|i: int|
                0 <= i < compare.items_count@.len() ==> 0 <= #[trigger] compare.items_count@[i]
                    < 0x7FFF_0000,
            0 <= compare.total_items < 0x7FFF_0000,
            compare.inventory.wf(),
        ensures
            r == spec_compare_fast(
                self@,
                luck as int,
                rng.state(),
                compare.items_count@.map_values(|x: i32| x as int),
                compare.total_items as int,
                compare.inventory.contents(),
            ),
    {
        let mut temp = SingleChest::new();
        self.compare_fast(rng, luck, compare, &mut temp)
    }
}


/// The first index holding `item`, or -1 when absent.
pub open spec fn find_item(acc: Seq<ItemStackV>, item: int) -> int
    decreases acc.len(),
{
    if acc.len() == 0 {
        -1
    } else if acc[0].item == item {
        0
    } else {
        let r = find_item(acc.drop_first(), item);
        if r < 0 {
            -1
        } else {
            1 + r
        }
    }
}

/// `find_item` returns a valid first occurrence, or -1 when there is none.
pub proof fn lemma_find_item(acc: Seq<ItemStackV>, item: int)
    ensures
        find_item(acc, item) == -1 ==> forall|k: int|
            0 <= k < acc.len() ==> (#[trigger] acc[k]).item != item,
        find_item(acc, item) >= 0 ==> {
            &&& find_item(acc, item) < acc.len()
            &&& acc[find_item(acc, item)].item == item
            &&& forall|k: int| 0 <= k < find_item(acc, item) ==> (#[trigger] acc[k]).item != item
        },
    decreases acc.len(),
{
    if acc.len() == 0 {
    } else if acc[0].item == item {
    } else {
        lemma_find_item(acc.drop_first(), item);
        assert(forall|k: int|
            1 <= k < acc.len() ==> #[trigger] acc[k] == acc.drop_first()[k - 1]);
    }
}

/// Raw loot folded into one stack per item: counts add up at the first
/// occurrence, new items append.
pub open spec fn stack_totals(acc: Seq<ItemStackV>, loot: Seq<ItemStackV>) -> Seq<ItemStackV>
    decreases loot.len(),
{
    if loot.len() == 0 {
        acc
    } else {
        let st = loot[0];
        let i = find_item(acc, st.item);
        let acc1 = if i >= 0 {
            acc.update(i, ItemStackV { count: acc[i].count + st.count, ..acc[i] })
        } else {
            acc.push(st)
        };
        stack_totals(acc1, loot.drop_first())
    }
}

impl LootTable {
    /// Rolls the table and folds the raw stacks into per-item totals, kept in
    /// first-appearance order.
    pub fn generate_unverified_stacked_loot(&self, rng: &mut JavaRandom, luck: i32) -> (r: Vec<
        ItemStack,
    >)
        requires
            old(rng).wf(),
            table_wf(self@),
            self@.len() <= 0x10,
            luck_wf(luck as int),
            table_positive(self@, luck as int),
        ensures
            final(rng).wf(),
            r@.map_values(|st: ItemStack| st@) == stack_totals(
                Seq::empty(),
                spec_table_gen(self@, luck as int, old(rng).state()).0,
            ),
            final(rng).state() == spec_table_gen(self@, luck as int, old(rng).state()).1,
    {
        let ghost s0 = rng.state();
        let raw = self.generate_raw_loot(rng, luck);
        let ghost rv = raw@.map_values(|st: ItemStack| st@);
        proof {
            assert(table_items_below(self@, 0x1_0000_0000_0000_0000)) by {
                assert(forall|i: int, j: int|
                    0 <= i < self@.len() && 0 <= j < self@[i].entries.len() ==> {
                        &&& #[trigger] self@[i] == self.pools@[i]@
                        &&& #[trigger] self@[i].entries[j] == self.pools@[i].entries@[j]@
                    });
            }
            lemma_table_gen_bounds(self@, luck as int, s0, 0x1_0000_0000_0000_0000);
        }
        let mut res: Vec<ItemStack> = Vec::new();
        let mut i: usize = 0;
        proof {
            assert(res@.map_values(|st: ItemStack| st@) =~= Seq::<ItemStackV>::empty());
            assert(rv.skip(0) =~= rv);
        }
        while i < raw.len()
            invariant
                i <= raw.len(),
                rv == raw@.map_values(|st: ItemStack| st@),
                rv.len() <= 0xFF * 0x10,
                forall|k: int| 0 <= k < rv.len() ==> 0 <= (#[trigger] rv[k]).count <= 0xFF,
                stack_totals(res@.map_values(|st: ItemStack| st@), rv.skip(i as int))
                    == stack_totals(Seq::empty(), rv),
                forall|k: int|
                    0 <= k < res@.len() ==> 0 <= (#[trigger] res@[k])@.count <= 0xFF * (
                    i as int),
                res@.len() <= i,
            decreases raw.len() - i,
        {
            let ghost acc = res@.map_values(|st: ItemStack| st@);
            let ghost rem = rv.skip(i as int);
            proof {
                assert(rem[0] == rv[i as int]);
                assert(rem.drop_first() =~= rv.skip(i + 1));
                assert(rv[i as int] == raw@[i as int]@);
                lemma_find_item(acc, rv[i as int].item);
            }
            let st = &raw[i];
            let mut found: bool = false;
            let mut j: usize = 0;
            while j < res.len() && !found
                invariant
                    j <= res@.len(),
                    forall|k: int| 0 <= k < j ==> (#[trigger] res@[k])@.item != st@.item,
                    found ==> j < res@.len() && res@[j as int]@.item == st@.item,
                decreases res@.len() - j + (if found { 0int } else { 1int }),
            {
                if res[j].item == st.item {
                    found = true;
                } else {
                    j = j + 1;
                }
            }
            if found {
                proof {
                    assert(acc[j as int].item == st@.item);
                    assert(forall|k: int| 0 <= k < j ==> (#[trigger] acc[k]).item != st@.item);
                    assert(find_item(acc, st@.item) == j as int) by {
                        if find_item(acc, st@.item) < j as int {
                            assert(acc[find_item(acc, st@.item)].item != st@.item);
                        }
                        if find_item(acc, st@.item) > j as int || find_item(acc, st@.item) == -1 {
                            assert(acc[j as int].item != st@.item);
                        }
                    }
                }
                let mut cur = res.remove(j);
                cur.count = cur.count + st.count;
                res.insert(j, cur);
                proof {
                    assert(res@.map_values(|x: ItemStack| x@) =~= acc.update(
                        j as int,
                        ItemStackV { count: acc[j as int].count + st@.count, ..acc[j as int] },
                    ));
                }
            } else {
                proof {
                    assert(forall|k: int|
                        0 <= k < acc.len() ==> (#[trigger] acc[k]).item != st@.item);
                    assert(find_item(acc, st@.item) == -1) by {
                        if find_item(acc, st@.item) >= 0 {
                            assert(acc[find_item(acc, st@.item)].item == st@.item);
                        }
                    }
                }
                res.push(copy_stack(st));
                proof {
                    assert(res@.map_values(|x: ItemStack| x@) =~= acc.push(st@));
                }
            }
            i = i + 1;
        }
        proof {
            assert(rv.skip(rv.len() as int) =~= Seq::<ItemStackV>::empty());
        }
        res
    }
}

/// Equal loot tables, luck and seed produce the very same chest and leave
/// the generator in the very same state: the chest fill is a pure function
/// of its inputs.
pub proof fn lemma_generate_deterministic(
    t1: Seq<LootPoolV>,
    t2: Seq<LootPoolV>,
    c1: Seq<Option<ItemStackV>>,
    c2: Seq<Option<ItemStackV>>,
    luck1: int,
    luck2: int,
    s1: int,
    s2: int,
)
    requires
        t1 == t2,
        c1 == c2,
        luck1 == luck2,
        s1 == s2,
    ensures
        spec_generate_in_inventory(t1, c1, luck1, s1) == spec_generate_in_inventory(
            t2,
            c2,
            luck2,
            s2,
        ),
{
}


/// When the fast walk of a pool's rolls completes, it emits exactly the
/// split stacks of the plain rolls and leaves the very same state.
pub proof fn lemma_fast_rolls_agree(
    entries: Seq<ItemLootPoolEntryV>,
    luck: int,
    n: nat,
    s: int,
    counts: Seq<int>,
    total: int,
)
    ensures
        ({
            match fast_rolls(entries, luck, n, s, counts, total) {
                None => true,
                Some((l, s1, _c, _t)) => {
                    &&& l == divide_all(spec_rolls_gen(entries, luck, n, s).0)
                    &&& s1 == spec_rolls_gen(entries, luck, n, s).1
                },
            }
        }),
    decreases n,
{
    if n == 0 {
        assert(divide_all(Seq::<ItemStackV>::empty()) =~= Seq::<ItemStackV>::empty());
    } else {
        let (idx, s1) = spec_select(entries, luck, s);
        let (st, s2) = spec_entry_gen(entries[idx as int], luck, s1);
        let newc = counts[st.item] - st.count;
        if newc < 0 {
        } else if total - st.count < 0 {
        } else {
            lemma_fast_rolls_agree(
                entries,
                luck,
                (n - 1) as nat,
                s2,
                counts.update(st.item, newc),
                total - st.count,
            );
            match fast_rolls(
                entries,
                luck,
                (n - 1) as nat,
                s2,
                counts.update(st.item, newc),
                total - st.count,
            ) {
                None => {},
                Some((l, s3, _c, _t)) => {
                    let (rest, _s4) = spec_rolls_gen(entries, luck, (n - 1) as nat, s2);
                    let full = spec_rolls_gen(entries, luck, n, s).0;
                    assert(full == seq![st] + rest);
                    assert(full[0] == st);
                    assert(full.drop_first() =~= rest);
                    assert(divide_all(full) == divide_stack(st) + divide_all(rest));
                },
            }
        }
    }
}

/// When the fast walk of a whole table completes, it emits exactly the split
/// stacks of the plain generation and leaves the very same state.
pub proof fn lemma_fast_pools_agree(
    t: Seq<LootPoolV>,
    luck: int,
    s: int,
    counts: Seq<int>,
    total: int,
)
    ensures
        ({
            match fast_pools(t, luck, s, counts, total) {
                None => true,
                Some((l, s1, _c, _t)) => {
                    &&& l == divide_all(spec_table_gen(t, luck, s).0)
                    &&& s1 == spec_table_gen(t, luck, s).1
                },
            }
        }),
    decreases t.len(),
{
    if t.len() == 0 {
        assert(divide_all(Seq::<ItemStackV>::empty()) =~= Seq::<ItemStackV>::empty());
    } else {
        let (rv, s1) = t[0].rolls.spec_apply(s);
        let n = (if rv >= 0 {
            rv
        } else {
            0
        }) as nat;
        lemma_fast_rolls_agree(t[0].entries, luck, n, s1, counts, total);
        match fast_rolls(t[0].entries, luck, n, s1, counts, total) {
            None => {},
            Some((l0, s2, c2, t2)) => {
                lemma_fast_pools_agree(t.drop_first(), luck, s2, c2, t2);
                match fast_pools(t.drop_first(), luck, s2, c2, t2) {
                    None => {},
                    Some((l1, s3, _c3, _t3)) => {
                        let (raw0, _sx) = spec_pool_gen(t[0], luck, s);
                        let (raw1, _sy) = spec_table_gen(t.drop_first(), luck, s2);
                        lemma_divide_all_concat(raw0, raw1);
                    },
                }
            },
        }
    }
}

/// Splitting distributes over concatenation.
pub proof fn lemma_divide_all_concat(a: Seq<ItemStackV>, b: Seq<ItemStackV>)
    ensures
        divide_all(a + b) == divide_all(a) + divide_all(b),
    decreases a.len(),
{
    if a.len() == 0 {
        assert(a + b =~= b);
        assert(divide_all(a) =~= Seq::<ItemStackV>::empty());
        assert(divide_all(a) + divide_all(b) =~= divide_all(b));
    } else {
        assert((a + b)[0] == a[0]);
        assert((a + b).drop_first() =~= a.drop_first() + b);
        lemma_divide_all_concat(a.drop_first(), b);
        assert(divide_stack(a[0]) + (divide_all(a.drop_first()) + divide_all(b))
            =~= (divide_stack(a[0]) + divide_all(a.drop_first())) + divide_all(b));
    }
}


/// The free slots of an all-empty chest, before the shuffle: 0 through n-1
/// in order.
pub proof fn lemma_empty_free_upto(n: nat)
    requires
        n <= 27,
    ensures
        free_slots_upto(empty_chest(), n) =~= Seq::new(n, |i: int| i as i32),
    decreases n,
{
    if n > 0 {
        lemma_empty_free_upto((n - 1) as nat);
        assert(empty_chest()[n - 1] is None);
        assert(free_slots_upto(empty_chest(), n) =~= Seq::new(
            (n - 1) as nat,
            |i: int| i as i32,
        ).push((n - 1) as i32));
    }
}

/// The shuffled free slots of an empty chest: 27 pairwise distinct indices,
/// each inside the chest.
pub proof fn lemma_empty_free_slots(s: int)
    requires
        0 <= s < crate::lcg::JAVA_MODULUS,
    ensures
        ({
            let free = spec_get_free_slots(empty_chest(), s).0;
            &&& free.len() == 27
            &&& forall|k: int| 0 <= k < 27 ==> 0 <= #[trigger] free[k] < 27
            &&& forall|k1: int, k2: int| 0 <= k1 < k2 < 27 ==> free[k1] != free[k2]
        }),
{
    broadcast use vstd::seq_lib::group_to_multiset_ensures;

    let base = free_slots_upto(empty_chest(), 27);
    lemma_empty_free_upto(27);
    let free = spec_get_free_slots(empty_chest(), s).0;
    crate::random::lemma_shuffle_from_len(base, s, base.len());
    crate::end_pillars::lemma_shuffle_from_multiset(base, s, base.len());
    base.to_multiset_ensures();
    free.to_multiset_ensures();
    assert(base =~= Seq::new(27, |i: int| i as i32));
    assert(base.no_duplicates());
    base.lemma_multiset_has_no_duplicates();
    free.lemma_multiset_has_no_duplicates_conv();
    assert forall|k: int| 0 <= k < 27 implies 0 <= #[trigger] free[k] < 27 by {
        assert(free.to_multiset().contains(free[k]));
        assert(base.to_multiset().contains(free[k]));
        assert(base.contains(free[k]));
        let j = choose|j: int| 0 <= j < base.len() && base[j] == free[k];
        assert(base[j] == j as i32);
    }
    assert(free.no_duplicates());
}

/// The fast walk of one pool's rolls completes whenever its tallies cover
/// the item totals of what the rolls will produce.
pub proof fn lemma_fast_rolls_no_abort(
    entries: Seq<ItemLootPoolEntryV>,
    luck: int,
    n: nat,
    s: int,
    counts: Seq<int>,
    total: int,
    palette: int,
)
    requires
        1 <= entries.len(),
        forall|i: int| 0 <= i < entries.len() ==> entry_wf(#[trigger] entries[i]),
        forall|i: int| 0 <= i < entries.len() ==> (#[trigger] entries[i]).item < palette,
        0 <= s < crate::lcg::JAVA_MODULUS,
        counts.len() == palette,
        forall|it: int|
            0 <= it < palette ==> loot_item_total(spec_rolls_gen(entries, luck, n, s).0, it)
                <= #[trigger] counts[it],
        loot_total(spec_rolls_gen(entries, luck, n, s).0) <= total,
    ensures
        fast_rolls(entries, luck, n, s, counts, total) is Some,
    decreases n,
{
    if n == 0 {
    } else {
        let (idx, s1) = spec_select(entries, luck, s);
        lemma_select_in_range(entries, luck, s);
        let (st, s2) = spec_entry_gen(entries[idx as int], luck, s1);
        lemma_entry_gen_bounds(entries[idx as int], luck, s1);
        let (rest, _s3) = spec_rolls_gen(entries, luck, (n - 1) as nat, s2);
        lemma_rolls_gen_bounds(entries, luck, (n - 1) as nat, s2, palette);
        let full = spec_rolls_gen(entries, luck, n, s).0;
        assert(full == seq![st] + rest);
        lemma_totals_concat(seq![st], rest);
        assert(forall|i: int| 0 <= i < rest.len() ==> 0 <= (#[trigger] rest[i]).count);
        lemma_totals_nonneg(rest);
        let newc = counts[st.item] - st.count;
        lemma_totals_singleton(st, st.item);
        assert(loot_item_total(full, st.item) == st.count + loot_item_total(rest, st.item));
        assert(newc >= 0);
        assert(loot_total(full) == st.count + loot_total(rest));
        assert(total - st.count >= 0);
        assert(loot_total(rest) <= total - st.count);
        let counts1 = counts.update(st.item, newc);
        assert forall|it: int|
            0 <= it < palette implies loot_item_total(rest, it) <= #[trigger] counts1[it] by {
            lemma_totals_singleton(st, it);
            assert(loot_item_total(full, it) == loot_item_total(seq![st], it) + loot_item_total(
                rest,
                it,
            ));
        }
        lemma_fast_rolls_no_abort(
            entries,
            luck,
            (n - 1) as nat,
            s2,
            counts1,
            total - st.count,
            palette,
        );
    }
}

/// The fast walk of a whole table completes whenever its tallies cover the
/// item totals of the whole generation.
pub proof fn lemma_fast_pools_no_abort(
    t: Seq<LootPoolV>,
    luck: int,
    s: int,
    counts: Seq<int>,
    total: int,
    palette: int,
)
    requires
        table_wf(t),
        table_items_below(t, palette),
        0 <= s < crate::lcg::JAVA_MODULUS,
        counts.len() == palette,
        forall|it: int|
            0 <= it < palette ==> loot_item_total(spec_table_gen(t, luck, s).0, it)
                <= #[trigger] counts[it],
        loot_total(spec_table_gen(t, luck, s).0) <= total,
    ensures
        fast_pools(t, luck, s, counts, total) is Some,
    decreases t.len(),
{
    if t.len() == 0 {
    } else {
        let (rv, s1) = t[0].rolls.spec_apply(s);
        match t[0].rolls {
            LootTableRange::Uniform { min, max } => {
                crate::random::lemma_range_bounds(s, min as int, max as int);
            },
            LootTableRange::Constant { value } => {},
        }
        let n = (if rv >= 0 {
            rv
        } else {
            0
        }) as nat;
        let (l0, s2) = spec_rolls_gen(t[0].entries, luck, n, s1);
        let rest_t = t.drop_first();
        assert(table_wf(rest_t) && table_items_below(rest_t, palette)) by {
            assert(forall|i: int|
                0 <= i < rest_t.len() ==> rest_t[i] == t[i + 1] && pool_wf(#[trigger] rest_t[i]));
            assert(forall|i: int, j: int|
                0 <= i < rest_t.len() && 0 <= j < rest_t[i].entries.len() ==> (#[trigger] rest_t[i]
                    .entries[j]).item < palette) by {
                assert(forall|i: int| 0 <= i < rest_t.len() ==> #[trigger] rest_t[i] == t[i + 1]);
            }
        }
        let (l1, _s3) = spec_table_gen(rest_t, luck, s2);
        let full = spec_table_gen(t, luck, s).0;
        assert(full == l0 + l1);
        lemma_totals_concat(l0, l1);
        lemma_rolls_gen_bounds(t[0].entries, luck, n, s1, palette);
        lemma_pool_gen_bounds(t[0], luck, s, palette);
        lemma_table_gen_bounds(rest_t, luck, s2, palette);
        assert(forall|i: int| 0 <= i < l0.len() ==> 0 <= (#[trigger] l0[i]).count);
        assert(forall|i: int| 0 <= i < l1.len() ==> 0 <= (#[trigger] l1[i]).count);
        lemma_totals_nonneg(l0);
        lemma_totals_nonneg(l1);
        lemma_fast_rolls_no_abort(t[0].entries, luck, n, s1, counts, total, palette);
        match fast_rolls(t[0].entries, luck, n, s1, counts, total) {
            None => {
                assert(false);
            },
            Some((lw, sw, cw, tw)) => {
                lemma_fast_rolls_agree(t[0].entries, luck, n, s1, counts, total);
                lemma_fast_rolls_tallies(t[0].entries, luck, n, s1, counts, total, palette);
                assert(sw == s2);
                lemma_fast_pools_no_abort(rest_t, luck, s2, cw, tw, palette);
            },
        }
    }
}

/// When the fast walk of a pool's rolls completes, its remaining tallies are
/// the starting tallies minus the item totals of what the rolls produced.
pub proof fn lemma_fast_rolls_tallies(
    entries: Seq<ItemLootPoolEntryV>,
    luck: int,
    n: nat,
    s: int,
    counts: Seq<int>,
    total: int,
    palette: int,
)
    requires
        1 <= entries.len(),
        forall|i: int| 0 <= i < entries.len() ==> entry_wf(#[trigger] entries[i]),
        forall|i: int| 0 <= i < entries.len() ==> (#[trigger] entries[i]).item < palette,
        0 <= s < crate::lcg::JAVA_MODULUS,
        counts.len() == palette,
    ensures
        ({
            match fast_rolls(entries, luck, n, s, counts, total) {
                None => true,
                Some((_l, _s1, cw, tw)) => {
                    let raw = spec_rolls_gen(entries, luck, n, s).0;
                    &&& cw.len() == palette
                    &&& forall|it: int|
                        0 <= it < palette ==> #[trigger] cw[it] == counts[it] - loot_item_total(
                            raw,
                            it,
                        )
                    &&& tw == total - loot_total(raw)
                },
            }
        }),
    decreases n,
{
    if n == 0 {
    } else {
        let (idx, s1) = spec_select(entries, luck, s);
        lemma_select_in_range(entries, luck, s);
        let (st, s2) = spec_entry_gen(entries[idx as int], luck, s1);
        lemma_entry_gen_bounds(entries[idx as int], luck, s1);
        let newc = counts[st.item] - st.count;
        if newc < 0 {
        } else if total - st.count < 0 {
        } else {
            let counts1 = counts.update(st.item, newc);
            lemma_fast_rolls_tallies(
                entries,
                luck,
                (n - 1) as nat,
                s2,
                counts1,
                total - st.count,
                palette,
            );
            let (rest, _s3) = spec_rolls_gen(entries, luck, (n - 1) as nat, s2);
            let full = spec_rolls_gen(entries, luck, n, s).0;
            assert(full == seq![st] + rest);
            lemma_totals_concat(seq![st], rest);
            match fast_rolls(entries, luck, n, s, counts, total) {
                None => {},
                Some((_l, _s1, cw, tw)) => {
                    assert forall|it: int|
                        0 <= it < palette implies #[trigger] cw[it] == counts[it]
                        - loot_item_total(full, it) by {
                        lemma_totals_singleton(st, it);
                    }
                    lemma_totals_singleton(st, 0);
                },
            }
        }
    }
}


/// The largest value a range can draw.
pub open spec fn range_peak(r: LootTableRange) -> int {
    match r {
        LootTableRange::Uniform { min, max } => if min <= max {
            max as int
        } else {
            min as int
        },
        LootTableRange::Constant { value } => value as int,
    }
}

/// A drawn range value never exceeds its peak.
pub proof fn lemma_range_peak(r: LootTableRange, s: int)
    requires
        r.wf(),
        0 <= s < crate::lcg::JAVA_MODULUS,
    ensures
        r.spec_apply(s).0 <= range_peak(r),
{
    match r {
        LootTableRange::Uniform { min, max } => {
            crate::random::lemma_range_bounds(s, min as int, max as int);
        },
        LootTableRange::Constant { value } => {},
    }
}

/// An entry whose count draws never exceed its stack size.
pub open spec fn entry_tame(e: ItemLootPoolEntryV) -> bool {
    forall|i: int|
        0 <= i < e.functions.len() ==> match #[trigger] e.functions[i] {
            LootFunctionV::SetCount(r) => range_peak(r) <= e.stack_size,
            LootFunctionV::SetEnchantsRandomly(_list) => true,
        }
}

/// A table whose stacks never exceed their stack sizes.
pub open spec fn table_tame(t: Seq<LootPoolV>) -> bool {
    forall|i: int, j: int|
        0 <= i < t.len() && 0 <= j < t[i].entries.len() ==> entry_tame(
            #[trigger] t[i].entries[j],
        )
}

/// The largest number of stacks the table can roll: the sum of the roll
/// peaks of its pools.
pub open spec fn rolls_cap(t: Seq<LootPoolV>) -> int
    decreases t.len(),
{
    if t.len() == 0 {
        0
    } else {
        range_peak(t[0].rolls) + rolls_cap(t.drop_first())
    }
}

/// Tame functions keep the running count within the stack size.
pub proof fn lemma_apply_functions_tame(fs: Seq<LootFunctionV>, st: ItemStackV, s: int)
    requires
        forall|i: int| 0 <= i < fs.len() ==> function_wf(#[trigger] fs[i]),
        forall|i: int|
            0 <= i < fs.len() ==> match #[trigger] fs[i] {
                LootFunctionV::SetCount(r) => range_peak(r) <= st.max_count,
                LootFunctionV::SetEnchantsRandomly(_list) => true,
            },
        st.count <= st.max_count,
        0 <= s < crate::lcg::JAVA_MODULUS,
    ensures
        spec_apply_functions(fs, st, s).0.count <= spec_apply_functions(fs, st, s).0.max_count,
    decreases fs.len(),
{
    if fs.len() == 0 {
    } else {
        let (st1, s1) = spec_apply_function(fs[0], st, s);
        lemma_apply_function_bounds(fs[0], ItemStackV { count: (if 0 <= st.count <= 0xFF { st.count } else { 0 }), ..st }, s);
        assert(st1.max_count == st.max_count && st1.item == st.item);
        assert(st1.count <= st1.max_count) by {
            match fs[0] {
                LootFunctionV::SetCount(r) => {
                    lemma_range_peak(r, s);
                },
                LootFunctionV::SetEnchantsRandomly(_list) => {},
            }
        }
        assert(0 <= s1 < crate::lcg::JAVA_MODULUS) by {
            match fs[0] {
                LootFunctionV::SetCount(r) => {
                    match r {
                        LootTableRange::Uniform { min, max } => {
                            crate::random::lemma_range_bounds(s, min as int, max as int);
                        },
                        LootTableRange::Constant { value } => {},
                    }
                },
                LootFunctionV::SetEnchantsRandomly(list) => {
                    if list.len() > 0 {
                        crate::random::lemma_bounded_range(s, list.len() as int);
                        crate::random::lemma_range_bounds(
                            bounded_state(s, list.len() as int),
                            list[bounded_value(s, list.len() as int)].1 as int,
                            list[bounded_value(s, list.len() as int)].2 as int,
                        );
                    }
                },
            }
        }
        assert(forall|i: int|
            0 <= i < fs.drop_first().len() ==> function_wf(#[trigger] fs.drop_first()[i]));
        assert(forall|i: int|
            0 <= i < fs.drop_first().len() ==> match #[trigger] fs.drop_first()[i] {
                LootFunctionV::SetCount(r) => range_peak(r) <= st1.max_count,
                LootFunctionV::SetEnchantsRandomly(_list) => true,
            });
        lemma_apply_functions_tame(fs.drop_first(), st1, s1);
    }
}

/// A tame table's generation: every stack's count fits inside its stack
/// size, and there are at most `rolls_cap` stacks.
pub proof fn lemma_table_gen_tame(t: Seq<LootPoolV>, luck: int, s: int)
    requires
        table_wf(t),
        table_tame(t),
        0 <= s < crate::lcg::JAVA_MODULUS,
    ensures
        ({
            let (raw, _s1) = spec_table_gen(t, luck, s);
            &&& forall|i: int|
                0 <= i < raw.len() ==> (#[trigger] raw[i]).count <= raw[i].max_count
            &&& raw.len() <= rolls_cap(t)
        }),
    decreases t.len(),
{
    if t.len() == 0 {
    } else {
        let (rv, s1) = t[0].rolls.spec_apply(s);
        lemma_range_peak(t[0].rolls, s);
        match t[0].rolls {
            LootTableRange::Uniform { min, max } => {
                crate::random::lemma_range_bounds(s, min as int, max as int);
            },
            LootTableRange::Constant { value } => {},
        }
        let n = (if rv >= 0 {
            rv
        } else {
            0
        }) as nat;
        let (l0, s2) = spec_rolls_gen(t[0].entries, luck, n, s1);
        lemma_rolls_gen_tame(t[0].entries, luck, n, s1);
        let rest_t = t.drop_first();
        assert(table_wf(rest_t) && table_tame(rest_t)) by {
            assert(forall|i: int|
                0 <= i < rest_t.len() ==> rest_t[i] == t[i + 1] && pool_wf(#[trigger] rest_t[i]));
            assert(forall|i: int, j: int|
                0 <= i < rest_t.len() && 0 <= j < rest_t[i].entries.len() ==> entry_tame(
                    #[trigger] rest_t[i].entries[j],
                )) by {
                assert(forall|i: int| 0 <= i < rest_t.len() ==> #[trigger] rest_t[i] == t[i + 1]);
            }
        }
        lemma_table_gen_tame(rest_t, luck, s2);
        let (l1, _s3) = spec_table_gen(rest_t, luck, s2);
        assert(forall|i: int|
            0 <= i < (l0 + l1).len() ==> (#[trigger] (l0 + l1)[i]).count <= (l0 + l1)[i]
                .max_count);
    }
}

/// Tame rolls: every rolled stack's count fits inside its stack size.
pub proof fn lemma_rolls_gen_tame(
    entries: Seq<ItemLootPoolEntryV>,
    luck: int,
    n: nat,
    s: int,
)
    requires
        1 <= entries.len(),
        forall|i: int| 0 <= i < entries.len() ==> entry_wf(#[trigger] entries[i]),
        forall|i: int| 0 <= i < entries.len() ==> entry_tame(#[trigger] entries[i]),
        0 <= s < crate::lcg::JAVA_MODULUS,
    ensures
        ({
            let (l, s1) = spec_rolls_gen(entries, luck, n, s);
            &&& forall|i: int| 0 <= i < l.len() ==> (#[trigger] l[i]).count <= l[i].max_count
            &&& l.len() == n
            &&& 0 <= s1 < crate::lcg::JAVA_MODULUS
        }),
    decreases n,
{
    if n == 0 {
    } else {
        let (idx, s1) = spec_select(entries, luck, s);
        lemma_select_in_range(entries, luck, s);
        let e = entries[idx as int];
        let (st, s2) = spec_entry_gen(e, luck, s1);
        lemma_entry_gen_bounds(e, luck, s1);
        lemma_apply_functions_tame(
            e.functions,
            ItemStackV { item: e.item, count: 1, max_count: e.stack_size, properties: Seq::empty() },
            s1,
        );
        let (rest, _s3) = spec_rolls_gen(entries, luck, (n - 1) as nat, s2);
        lemma_rolls_gen_tame(entries, luck, (n - 1) as nat, s2);
        assert(forall|i: int|
            0 <= i < (seq![st] + rest).len() ==> (#[trigger] (seq![st] + rest)[i]).count <= (
            seq![st] + rest)[i].max_count);
    }
}

/// Fast-compare soundness: when the fast walk completes, the comparison
/// answers exactly whether the chest the seed generates into an empty chest
/// equals the observed chest; in particular an accepted seed really
/// generates the observed chest.
pub proof fn lemma_compare_fast_sound(
    t: Seq<LootPoolV>,
    luck: int,
    s: int,
    counts: Seq<int>,
    total: int,
    observed: Seq<Option<ItemStackV>>,
)
    ensures
        fast_pools(t, luck, s, counts, total) is Some ==> spec_compare_fast(
            t,
            luck,
            s,
            counts,
            total,
            observed,
        ) == (spec_generate_in_inventory(t, empty_chest(), luck, s).0 == observed),
        spec_compare_fast(t, luck, s, counts, total, observed) ==> observed
            == spec_generate_in_inventory(t, empty_chest(), luck, s).0,
{
    lemma_fast_pools_agree(t, luck, s, counts, total);
    match fast_pools(t, luck, s, counts, total) {
        None => {},
        Some((loot, s1, _c, _t)) => {
            let g = spec_generate_in_inventory(t, empty_chest(), luck, s);
            let (raw, sg) = spec_table_gen(t, luck, s);
            assert(loot == divide_all(raw) && s1 == sg);
            let (free, s2) = spec_get_free_slots(empty_chest(), s1);
            let (shuffled, s3) = spec_shuffle_loot(loot, free.len() as int, s2);
            assert(g.0 == spec_place(empty_chest(), shuffled, free));
        },
    }
}


/// Fast-compare round trip: comparing a seed's own chest against itself
/// succeeds.  The tallies are the chest's own tabulated counts; the walk
/// never aborts against them, and the rebuilt scratch chest is the chest.
/// The table must not overflow the chest: at most 27 stacks, each within
/// its stack size (`lemma_table_gen_tame` discharges this for tame tables).
pub proof fn lemma_compare_fast_round_trip(t: Seq<LootPoolV>, luck: int, s: int, palette: int)
    requires
        table_wf(t),
        table_items_below(t, palette),
        0 < palette,
        0 <= s < crate::lcg::JAVA_MODULUS,
        ({
            let raw = spec_table_gen(t, luck, s).0;
            &&& forall|i: int|
                0 <= i < raw.len() ==> (#[trigger] raw[i]).count <= raw[i].max_count
            &&& raw.len() <= 27
        }),
    ensures
        ({
            let chest = spec_generate_in_inventory(t, empty_chest(), luck, s).0;
            spec_compare_fast(
                t,
                luck,
                s,
                Seq::new(palette as nat, |it: int| chest_count_upto(chest, it, 27)),
                chest_total_upto(chest, 27),
                chest,
            )
        }),
{
    let (raw, s1) = spec_table_gen(t, luck, s);
    lemma_table_gen_bounds(t, luck, s, palette);
    let divided = divide_all(raw);
    assert(forall|i: int|
        0 <= i < raw.len() ==> {
            let st = #[trigger] raw[i];
            0 <= st.count <= st.max_count && 1 <= st.max_count
        });
    lemma_divide_preserves_totals(raw);

    // The free slots of the empty scratch chest.
    let (free, s2) = spec_get_free_slots(empty_chest(), s1);
    let base = free_slots_upto(empty_chest(), 27);
    lemma_empty_free_upto(27);
    crate::random::lemma_shuffle_from_state(base, s1, base.len());
    lemma_empty_free_slots(s1);

    // The shuffled loot keeps the totals and fits the 27 slots.
    let (shuffled, s3) = spec_shuffle_loot(divided, free.len() as int, s2);
    lemma_shuffle_loot_totals(divided, free.len() as int, s2);
    assert(shuffled.len() <= 27) by {
        let kept = keep_single(divided);
        let moved = pull_moved(divided);
        lemma_prune_len(divided);
        lemma_rounds_len(kept, moved, free.len() as int, s2);
        lemma_rounds_state(kept, moved, free.len() as int, s2);
        let (l1, m1, sr) = shuffle_rounds(kept, moved, free.len() as int, s2);
        crate::random::lemma_shuffle_from_len(l1 + m1, sr, (l1 + m1).len());
    }

    // Placing into the empty chest tabulates exactly the raw totals.
    let chest = spec_place(empty_chest(), shuffled, free);
    lemma_place_totals(empty_chest(), shuffled, free);
    lemma_empty_chest_counts(27);

    // The chest's own tallies therefore cover the walk's needs exactly.
    let counts = Seq::new(palette as nat, |it: int| chest_count_upto(chest, it, 27));
    let total = chest_total_upto(chest, 27);
    assert forall|it: int|
        0 <= it < palette implies loot_item_total(raw, it) <= #[trigger] counts[it] by {
        assert(counts[it] == chest_count_upto(chest, it, 27));
    }
    lemma_fast_pools_no_abort(t, luck, s, counts, total, palette);
    lemma_compare_fast_sound(t, luck, s, counts, total, chest);
    assert(spec_generate_in_inventory(t, empty_chest(), luck, s).0 == chest);
}


/// Fast-compare completeness: against any observed chest's own tabulation,
/// the comparison answers exactly whether the seed generates that chest —
/// acceptance and rejection are both decisive.
pub proof fn lemma_compare_fast_complete(
    t: Seq<LootPoolV>,
    luck: int,
    s: int,
    palette: int,
    observed: Seq<Option<ItemStackV>>,
)
    requires
        table_wf(t),
        table_items_below(t, palette),
        0 < palette,
        0 <= s < crate::lcg::JAVA_MODULUS,
        ({
            let raw = spec_table_gen(t, luck, s).0;
            &&& forall|i: int|
                0 <= i < raw.len() ==> (#[trigger] raw[i]).count <= raw[i].max_count
            &&& raw.len() <= 27
        }),
    ensures
        spec_compare_fast(
            t,
            luck,
            s,
            Seq::new(palette as nat, |it: int| chest_count_upto(observed, it, 27)),
            chest_total_upto(observed, 27),
            observed,
        ) == (spec_generate_in_inventory(t, empty_chest(), luck, s).0 == observed),
{
    let chest = spec_generate_in_inventory(t, empty_chest(), luck, s).0;
    let counts = Seq::new(palette as nat, |it: int| chest_count_upto(observed, it, 27));
    let total = chest_total_upto(observed, 27);
    if chest == observed {
        lemma_compare_fast_round_trip(t, luck, s, palette);
        assert(Seq::new(palette as nat, |it: int| chest_count_upto(chest, it, 27)) =~= counts);
    } else {
        lemma_compare_fast_sound(t, luck, s, counts, total, observed);
        if fast_pools(t, luck, s, counts, total) is None {
            assert(!spec_compare_fast(t, luck, s, counts, total, observed));
        }
    }
}

} // verus!
