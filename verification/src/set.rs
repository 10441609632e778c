//! Sets of items without duplicates, where two items are the same when
//! their kind and id agree.

use std::collections::HashMap;
use vstd::prelude::*;
use crate::item::{Item, ItemKey, ItemKind, ItemView};
use crate::ql::statement::SetName;

verus! {

/// The contents of a set as a mathematical value: each item under its
/// identity.
pub type Contents = Map<ItemKey, ItemView>;

/// `contents` after an attempt to insert `item`: an item whose identity is
/// already present is dropped.
pub open spec fn inserted(contents: Contents, item: ItemView) -> Contents {
    if contents.contains_key(item.key()) {
        contents
    } else {
        contents.insert(item.key(), item)
    }
}

/// The union of two sets. Where both hold an item of the same identity, the
/// one of `first` stays.
pub open spec fn merged(first: Contents, second: Contents) -> Contents {
    second.union_prefer_right(first)
}

/// The union of any number of sets, taken from the first to the last.
pub open spec fn merged_all(sets: Seq<Contents>) -> Contents
    decreases sets.len(),
{
    if sets.len() == 0 {
        Map::empty()
    } else {
        merged(merged_all(sets.drop_last()), sets.last())
    }
}

/// What is in `source` and not in `remove`.
pub open spec fn difference(source: Contents, remove: Contents) -> Contents {
    source.remove_keys(remove.dom())
}

/// Merging is associative.
pub proof fn lemma_merge_associative(a: Contents, b: Contents, c: Contents)
    ensures
        merged(merged(a, b), c) == merged(a, merged(b, c)),
{
    assert(merged(merged(a, b), c) =~= merged(a, merged(b, c)));
}

/// Merging with the empty set changes nothing.
pub proof fn lemma_merge_empty(a: Contents)
    ensures
        merged(a, Map::empty()) == a,
        merged(Map::empty(), a) == a,
{
    assert(merged(a, Map::empty()) =~= a);
    assert(merged(Map::empty(), a) =~= a);
}

/// Inserting the same item twice yields what inserting it once yields, with
/// one element under its identity.
pub proof fn lemma_insert_idempotent(contents: Contents, item: ItemView)
    ensures
        inserted(inserted(contents, item), item) == inserted(contents, item),
        inserted(contents, item).contains_key(item.key()),
        contents.dom().finite() && !contents.contains_key(item.key()) ==> inserted(
            inserted(contents, item),
            item,
        ).len() == contents.len() + 1,
{
}

/// An unordered collection of items with no duplicates. The items stand in
/// the order in which they came; for each kind an index says where the
/// item of an id stands.
#[derive(Debug)]
pub struct ItemSet {
    contents: Vec<Item>,
    nodes: HashMap<u64, usize>,
    ways: HashMap<u64, usize>,
    relations: HashMap<u64, usize>,
}

/// Whether `index` says of exactly the items of the given kind where they
/// stand.
pub closed spec fn indexed(items: Seq<Item>, index: Map<u64, usize>, kind: ItemKind) -> bool {
    &&& forall|id: u64| #[trigger]
        index.contains_key(id) ==> index[id] < items.len() && items[index[id] as int]@.key() == (
        ItemKey { kind, id })
    &&& forall|i: int|
        0 <= i < items.len() && (#[trigger] items[i])@.kind() == kind ==> index.contains_key(
            items[i]@.id,
        )
}

/// An index stays right when an item comes to stand behind the others and,
/// where the index is the one of its kind, is entered there.
proof fn lemma_index_grows(
    old_items: Seq<Item>,
    items: Seq<Item>,
    old_index: Map<u64, usize>,
    index: Map<u64, usize>,
    of: ItemKind,
    kind: ItemKind,
    id: u64,
)
    requires
        indexed(old_items, old_index, of),
        items.len() == old_items.len() + 1,
        forall|i: int| 0 <= i < old_items.len() ==> items[i] == old_items[i],
        items[old_items.len() as int]@.key() == (ItemKey { kind, id }),
        index == if of == kind {
            old_index.insert(id, old_items.len() as usize)
        } else {
            old_index
        },
        old_items.len() <= usize::MAX,
    ensures
        indexed(items, index, of),
{
    let position = old_items.len() as int;
    assert forall|known: u64| #[trigger] index.contains_key(known) implies index[known]
        < items.len() && items[index[known] as int]@.key() == (ItemKey { kind: of, id: known }) by {
        if of == kind && known == id {
        } else {
            assert(old_index.contains_key(known));
            assert(items[old_index[known] as int] == old_items[old_index[known] as int]);
        }
    }
    assert forall|i: int|
        0 <= i < items.len() && (#[trigger] items[i])@.kind() == of implies index.contains_key(
        items[i]@.id,
    ) by {
        if i < position {
            assert(items[i] == old_items[i]);
            assert(old_items[i]@.kind() == of);
        }
    }
}

/// Where the item of identity `key` stands in `items`, which is meaningful
/// where there is one.
pub closed spec fn position_of(items: Seq<Item>, key: ItemKey) -> int {
    choose|i: int| 0 <= i < items.len() && items[i]@.key() == key
}

impl View for ItemSet {
    type V = Contents;

    closed spec fn view(&self) -> Contents {
        Map::new(
            |k: ItemKey| exists|i: int| 0 <= i < self.contents@.len() && self.contents@[i]@.key() == k,
            |k: ItemKey| self.contents@[position_of(self.contents@, k)]@,
        )
    }
}

impl ItemSet {
    /// No identity occurs twice, and the indexes are right.
    #[verifier::type_invariant]
    spec fn well_formed(self) -> bool {
        &&& self.distinct()
        &&& indexed(self.contents@, self.nodes@, ItemKind::Node)
        &&& indexed(self.contents@, self.ways@, ItemKind::Way)
        &&& indexed(self.contents@, self.relations@, ItemKind::Relation)
    }

    /// No identity occurs twice.
    spec fn distinct(self) -> bool {
        forall|i: int, j: int|
            0 <= i < j < self.contents@.len() ==> self.contents@[i]@.key()
                != self.contents@[j]@.key()
    }

    /// What holds of every value of this type: no identity occurs twice.
    pub closed spec fn inv(self) -> bool {
        self.well_formed()
    }

    /// The items in the order in which they are stored.
    pub closed spec fn items(self) -> Seq<ItemView> {
        Seq::new(self.contents@.len(), |i: int| self.contents@[i]@)
    }

    /// Each stored item is an item of the set, under its identity.
    proof fn lemma_entry(self, i: int)
        requires
            self.distinct(),
            0 <= i < self.contents@.len(),
        ensures
            self@.contains_key(self.contents@[i]@.key()),
            self@[self.contents@[i]@.key()] == self.contents@[i]@,
    {
        let k = self.contents@[i]@.key();
        let p = position_of(self.contents@, k);
        assert(0 <= p < self.contents@.len() && self.contents@[p]@.key() == k);
        assert(p == i);
    }

    /// The stored items are exactly the items of the set, each under its own
    /// identity and none twice.
    pub proof fn lemma_items(self)
        requires
            self.inv(),
        ensures
            forall|i: int|
                0 <= i < self.items().len() ==> self@.contains_key(
                    (#[trigger] self.items()[i]).key(),
                ) && self@[self.items()[i].key()] == self.items()[i],
            forall|k: ItemKey| #[trigger]
                self@.contains_key(k) ==> self@[k].key() == k && exists|i: int|
                    0 <= i < self.items().len() && #[trigger] self.items()[i] == self@[k],
            forall|i: int, j: int|
                0 <= i < j < self.items().len() ==> self.items()[i].key() != self.items()[j].key(),
    {
        assert forall|i: int| 0 <= i < self.items().len() implies self@.contains_key(
            (#[trigger] self.items()[i]).key(),
        ) && self@[self.items()[i].key()] == self.items()[i] by {
            self.lemma_entry(i);
        }
        assert forall|k: ItemKey| #[trigger] self@.contains_key(k) implies self@[k].key() == k
            && exists|i: int|
            0 <= i < self.items().len() && #[trigger] self.items()[i] == self@[k] by {
            let p = position_of(self.contents@, k);
            self.lemma_entry(p);
            assert(self.items()[p] == self@[k]);
        }
    }

    /// A set with an item of a new identity put behind the others holds
    /// what it held and that item.
    proof fn lemma_after_push(before: ItemSet, after: ItemSet, item: ItemView)
        requires
            before.distinct(),
            after.contents@.len() == before.contents@.len() + 1,
            forall|i: int| 0 <= i < before.contents@.len() ==> after.contents@[i] == before.contents@[i],
            after.contents@[before.contents@.len() as int]@ == item,
            !before@.contains_key(item.key()),
        ensures
            after.distinct(),
            after@ == before@.insert(item.key(), item),
    {
        let n = before.contents@.len() as int;
        assert forall|i: int, j: int| 0 <= i < j < after.contents@.len() implies after.contents@[i]@.key()
            != after.contents@[j]@.key() by {
            if j == n {
                before.lemma_entry(i);
            }
        }
        assert forall|k: ItemKey|
            after@.contains_key(k) == before@.insert(item.key(), item).contains_key(k) by {
            if after@.contains_key(k) {
                let p = choose|p: int| 0 <= p < after.contents@.len() && after.contents@[p]@.key() == k;
                if p < n {
                    assert(before.contents@[p]@.key() == k);
                }
            }
            if before@.contains_key(k) {
                let p = choose|p: int|
                    0 <= p < before.contents@.len() && before.contents@[p]@.key() == k;
                assert(after.contents@[p]@.key() == k);
            }
            if k == item.key() {
                assert(after.contents@[n]@.key() == k);
            }
        }
        assert forall|k: ItemKey| after@.contains_key(k) implies after@[k] == before@.insert(
            item.key(),
            item,
        )[k] by {
            let p = position_of(after.contents@, k);
            after.lemma_entry(p);
            if p < n {
                before.lemma_entry(p);
            }
        }
        assert(after@ =~= before@.insert(item.key(), item));
    }

    /// The set without items.
    pub fn empty() -> (s: Self)
        ensures
            s@ == Map::<ItemKey, ItemView>::empty(),
    {
        let s = ItemSet {
            contents: Vec::new(),
            nodes: HashMap::new(),
            ways: HashMap::new(),
            relations: HashMap::new(),
        };
        assert(s@ =~= Map::<ItemKey, ItemView>::empty());
        s
    }

    /// The identities of the first `n` stored items.
    spec fn prefix_keys(self, n: int) -> Set<ItemKey> {
        Set::new(|k: ItemKey| exists|i: int| 0 <= i < n && self.contents@[i]@.key() == k)
    }

    /// The first `n` stored items have `n` identities.
    proof fn lemma_len(self, n: int)
        requires
            self.distinct(),
            0 <= n <= self.contents@.len(),
        ensures
            self.prefix_keys(n).finite(),
            self.prefix_keys(n).len() == n,
        decreases n,
    {
        if n == 0 {
            assert(self.prefix_keys(0) =~= Set::<ItemKey>::empty());
        } else {
            self.lemma_len(n - 1);
            let k = self.contents@[n - 1]@.key();
            assert(self.prefix_keys(n) =~= self.prefix_keys(n - 1).insert(k));
            assert(!self.prefix_keys(n - 1).contains(k));
        }
    }

    /// The number of items.
    pub fn len(&self) -> (n: usize)
        ensures
            n == self.items().len(),
            n == self@.len(),
            self@.dom().finite(),
            self.inv(),
    {
        proof {
            use_type_invariant(self);
            self.lemma_len(self.contents@.len() as int);
            assert(self.prefix_keys(self.contents@.len() as int) =~= self@.dom());
        }
        self.contents.len()
    }

    /// The stored item at position `i`.
    pub fn get(&self, i: usize) -> (item: &Item)
        requires
            i < self.items().len(),
        ensures
            item@ == self.items()[i as int],
    {
        &self.contents[i]
    }

    /// Whether the set holds an item of the given kind and id.
    pub fn contains(&self, kind: ItemKind, id: u64) -> (b: bool)
        ensures
            b == self@.contains_key(ItemKey { kind, id }),
    {
        broadcast use vstd::std_specs::hash::group_hash_axioms;

        proof {
            use_type_invariant(self);
        }
        let found = match kind {
            ItemKind::Node => self.nodes.contains_key(&id),
            ItemKind::Way => self.ways.contains_key(&id),
            ItemKind::Relation => self.relations.contains_key(&id),
        };
        proof {
            let index = match kind {
                ItemKind::Node => self.nodes@,
                ItemKind::Way => self.ways@,
                ItemKind::Relation => self.relations@,
            };
            assert(indexed(self.contents@, index, kind));
            if found {
                assert(self.contents@[index[id] as int]@.key() == (ItemKey { kind, id }));
            }
            if self@.contains_key(ItemKey { kind, id }) {
                let i = choose|i: int|
                    0 <= i < self.contents@.len() && self.contents@[i]@.key() == (ItemKey {
                        kind,
                        id,
                    });
                assert(self.contents@[i]@.kind() == kind);
            }
        }
        found
    }

    /// This set after an attempt to insert `item`.
    pub fn with(self, item: Item) -> (r: ItemSet)
        ensures
            r@ == inserted(self@, item@),
    {
        broadcast use vstd::std_specs::hash::group_hash_axioms;

        proof {
            use_type_invariant(&self);
        }
        let kind = item.kind();
        let id = item.id;
        if self.contains(kind, id) {
            self
        } else {
            let ghost before = self;
            let ghost added = item@;
            let position = self.contents.len();
            let mut contents = self.contents;
            let mut nodes = self.nodes;
            let mut ways = self.ways;
            let mut relations = self.relations;
            contents.push(item);
            match kind {
                ItemKind::Node => {
                    nodes.insert(id, position);
                },
                ItemKind::Way => {
                    ways.insert(id, position);
                },
                ItemKind::Relation => {
                    relations.insert(id, position);
                },
            }
            proof {
                let grown = ItemSet { contents, nodes, ways, relations };
                ItemSet::lemma_after_push(before, grown, added);
                lemma_index_grows(
                    before.contents@,
                    contents@,
                    before.nodes@,
                    nodes@,
                    ItemKind::Node,
                    kind,
                    id,
                );
                lemma_index_grows(
                    before.contents@,
                    contents@,
                    before.ways@,
                    ways@,
                    ItemKind::Way,
                    kind,
                    id,
                );
                lemma_index_grows(
                    before.contents@,
                    contents@,
                    before.relations@,
                    relations@,
                    ItemKind::Relation,
                    kind,
                    id,
                );
                assert(indexed(contents@, nodes@, ItemKind::Node));
                assert(indexed(contents@, ways@, ItemKind::Way));
                assert(indexed(contents@, relations@, ItemKind::Relation));
            }
            ItemSet { contents, nodes, ways, relations }
        }
    }

    /// Inserts `item` unless an item of the same identity is present.
    pub fn insert(&mut self, item: Item)
        ensures
            final(self)@ == inserted(old(self)@, item@),
    {
        let mut taken = ItemSet::empty();
        std::mem::swap(self, &mut taken);
        *self = taken.with(item);
    }

    /// The set of the given items. Of several items with one identity the
    /// first stays.
    pub fn new(contents: Vec<Item>) -> (s: Self)
        ensures
            s@ == inserted_all(Map::empty(), contents@.map_values(|item: Item| item@)),
    {
        let mut set = ItemSet::empty();
        set.extend(contents);
        set
    }

    /// Inserts the given items one after the other.
    pub fn extend(&mut self, items: Vec<Item>)
        ensures
            final(self)@ == inserted_all(old(self)@, items@.map_values(|item: Item| item@)),
    {
        let ghost all = items@.map_values(|item: Item| item@);
        let ghost given = items@;
        for item in it: items
            invariant
                it.seq() == given,
                all == given.map_values(|item: Item| item@),
                self@ == inserted_all(old(self)@, all.subrange(0, it.index() as int)),
        {
            let ghost done = it.index() as int;
            assert(item@ == all[done]);
            assert(all.subrange(0, done + 1).drop_last() == all.subrange(0, done));
            self.insert(item);
        }
        assert(all.subrange(0, all.len() as int) == all);
    }

    /// The union of the given sets, taken from the first to the last: of
    /// several items with one identity the first stays.
    pub fn merge(sets: Vec<ItemSet>) -> (s: Self)
        ensures
            s@ == merged_all(sets@.map_values(|set: ItemSet| set@)),
    {
        let ghost all = sets@.map_values(|set: ItemSet| set@);
        let ghost given = sets@;
        let mut result = ItemSet::empty();
        for set in it: sets
            invariant
                it.seq() == given,
                all == given.map_values(|set: ItemSet| set@),
                result@ == merged_all(all.subrange(0, it.index() as int)),
        {
            let ghost done = it.index() as int;
            assert(set@ == all[done]);
            assert(all.subrange(0, done + 1).drop_last() == all.subrange(0, done));
            result.absorb(set);
        }
        assert(all.subrange(0, all.len() as int) == all);
        result
    }

    /// Inserts every item of `other`.
    pub fn absorb(&mut self, other: ItemSet)
        ensures
            final(self)@ == merged(old(self)@, other@),
    {
        proof {
            use_type_invariant(&other);
            other.lemma_items();
        }
        let ghost source = other;
        let mut rest = other.contents;
        let ghost n = rest@.len();
        while rest.len() > 0
            invariant
                rest@.len() <= n,
                n == source.contents@.len(),
                source.distinct(),
                forall|j: int| 0 <= j < rest@.len() ==> rest@[j] == source.contents@[j],
                forall|k: ItemKey|
                    self@.contains_key(k) <==> (old(self)@.contains_key(k) || exists|j: int|
                        rest@.len() <= j < n && source.contents@[j]@.key() == k),
                forall|k: ItemKey|
                    self@.contains_key(k) ==> self@[k] == merged(old(self)@, source@)[k],
            decreases rest@.len(),
        {
            let item = rest.pop().unwrap();
            let ghost before = self@;
            proof {
                source.lemma_entry(rest@.len() as int);
            }
            self.insert(item);
            assert forall|k: ItemKey|
                self@.contains_key(k) <==> (old(self)@.contains_key(k) || exists|j: int|
                    rest@.len() <= j < n && source.contents@[j]@.key() == k) by {
                if self@.contains_key(k) && !old(self)@.contains_key(k) {
                    if before.contains_key(k) {
                        let j = choose|j: int|
                            rest@.len() + 1 <= j < n && source.contents@[j]@.key() == k;
                        assert(rest@.len() <= j < n && source.contents@[j]@.key() == k);
                    } else {
                        assert(source.contents@[rest@.len() as int]@.key() == k);
                    }
                }
                if !old(self)@.contains_key(k) && exists|j: int|
                    rest@.len() <= j < n && source.contents@[j]@.key() == k {
                    let j = choose|j: int|
                        rest@.len() <= j < n && source.contents@[j]@.key() == k;
                    if j > rest@.len() {
                        assert(rest@.len() + 1 <= j < n && source.contents@[j]@.key() == k);
                    }
                }
            }
        }
        proof {
            assert forall|k: ItemKey|
                self@.contains_key(k) == merged(old(self)@, source@).contains_key(k) by {
                if source@.contains_key(k) {
                    let j = position_of(source.contents@, k);
                    source.lemma_entry(j);
                    assert(0 <= j < n && source.contents@[j]@.key() == k);
                }
                if exists|j: int| 0 <= j < n && source.contents@[j]@.key() == k {
                    let j = choose|j: int| 0 <= j < n && source.contents@[j]@.key() == k;
                    source.lemma_entry(j);
                }
            }
            assert(self@ =~= merged(old(self)@, source@));
        }
    }

    /// The items of this set whose identity is not in `remove`.
    pub fn minus(&self, remove: &ItemSet) -> (r: ItemSet)
        ensures
            r@ == difference(self@, remove@),
    {
        proof {
            use_type_invariant(self);
        }
        let mut result = ItemSet::empty();
        let mut i: usize = 0;
        while i < self.contents.len()
            invariant
                i <= self.contents@.len(),
                self.distinct(),
                forall|k: ItemKey|
                    result@.contains_key(k) <==> (!remove@.contains_key(k) && exists|j: int|
                        0 <= j < i && self.contents@[j]@.key() == k),
                forall|k: ItemKey| result@.contains_key(k) ==> result@[k] == self@[k],
            decreases self.contents@.len() - i,
        {
            let item = &self.contents[i];
            proof {
                self.lemma_entry(i as int);
            }
            let ghost before = result@;
            if !remove.contains(item.kind(), item.id) {
                result.insert(item.clone());
            }
            i = i + 1;
            assert forall|k: ItemKey|
                result@.contains_key(k) <==> (!remove@.contains_key(k) && exists|j: int|
                    0 <= j < i && self.contents@[j]@.key() == k) by {
                if result@.contains_key(k) {
                    if before.contains_key(k) {
                        let j = choose|j: int| 0 <= j < i - 1 && self.contents@[j]@.key() == k;
                        assert(0 <= j < i && self.contents@[j]@.key() == k);
                    } else {
                        assert(self.contents@[i - 1]@.key() == k);
                    }
                }
                if !remove@.contains_key(k) && exists|j: int|
                    0 <= j < i && self.contents@[j]@.key() == k {
                    let j = choose|j: int| 0 <= j < i && self.contents@[j]@.key() == k;
                    if j < i - 1 {
                        assert(0 <= j < i - 1 && self.contents@[j]@.key() == k);
                    }
                }
            }
        }
        proof {
            assert forall|k: ItemKey|
                result@.contains_key(k) == difference(self@, remove@).contains_key(k) by {
                if self@.contains_key(k) {
                    let j = position_of(self.contents@, k);
                    self.lemma_entry(j);
                    assert(0 <= j < i && self.contents@[j]@.key() == k);
                }
                if exists|j: int| 0 <= j < i && self.contents@[j]@.key() == k {
                    let j = choose|j: int| 0 <= j < i && self.contents@[j]@.key() == k;
                    self.lemma_entry(j);
                }
            }
            assert(result@ =~= difference(self@, remove@));
        }
        result
    }
}

impl Clone for ItemSet {
    fn clone(&self) -> (r: Self)
        ensures
            r@ == self@,
    {
        let empty = ItemSet::empty();
        let r = self.minus(&empty);
        assert(r@ =~= self@);
        r
    }
}

/// `contents` after attempts to insert the given items, one after the other.
pub open spec fn inserted_all(contents: Contents, items: Seq<ItemView>) -> Contents
    decreases items.len(),
{
    if items.len() == 0 {
        contents
    } else {
        inserted(inserted_all(contents, items.drop_last()), items.last())
    }
}

/// The sets that a script has bound to names, as a mathematical value.
pub type Bindings = Map<Seq<char>, Contents>;

/// The bindings that a list of bindings amounts to: a later one replaces an
/// earlier one of the same name.
pub open spec fn bindings_of(entries: Seq<(SetName, ItemSet)>) -> Bindings
    decreases entries.len(),
{
    if entries.len() == 0 {
        Map::empty()
    } else {
        bindings_of(entries.drop_last()).insert(entries.last().0@, entries.last().1@)
    }
}

/// Sets under the names that a script has bound them to.
#[derive(Debug)]
pub struct NamedSets {
    pub entries: Vec<(SetName, ItemSet)>,
}

impl View for NamedSets {
    type V = Bindings;

    open spec fn view(&self) -> Bindings {
        bindings_of(self.entries@)
    }
}

impl NamedSets {
    /// No name is bound.
    pub fn new() -> (r: Self)
        ensures
            r@ == Map::<Seq<char>, Contents>::empty(),
    {
        NamedSets { entries: Vec::new() }
    }

    /// Binds `name` to `set`, in place of what it was bound to before.
    pub fn bind(&mut self, name: SetName, set: ItemSet)
        ensures
            final(self)@ == old(self)@.insert(name@, set@),
    {
        self.entries.push((name, set));
        assert(self.entries@.drop_last() == old(self).entries@);
    }

    /// The set that `name` is bound to, if it is bound.
    pub fn get(&self, name: &SetName) -> (r: Option<&ItemSet>)
        ensures
            match r {
                Some(set) => self@.contains_key(name@) && self@[name@] == set@,
                None => !self@.contains_key(name@),
            },
    {
        let mut i = self.entries.len();
        assert(self.entries@.subrange(0, i as int) == self.entries@);
        while i > 0
            invariant
                i <= self.entries@.len(),
                self@.contains_key(name@) == bindings_of(
                    self.entries@.subrange(0, i as int),
                ).contains_key(name@),
                self@.contains_key(name@) ==> self@[name@] == bindings_of(
                    self.entries@.subrange(0, i as int),
                )[name@],
            decreases i,
        {
            i = i - 1;
            assert(self.entries@.subrange(0, i + 1).drop_last() == self.entries@.subrange(
                0,
                i as int,
            ));
            if self.entries[i].0.same(name) {
                return Some(&self.entries[i].1);
            }
        }
        None
    }
}

} // verus!
