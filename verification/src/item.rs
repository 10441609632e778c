//! Materialized OpenStreetMap objects: nodes, ways and relations.

use vstd::prelude::*;

verus! {

/// The three kinds of OpenStreetMap objects.
#[derive(Debug, Clone, Copy, PartialEq, Eq, Hash, Structural)]
pub enum ItemKind {
    Node,
    Way,
    Relation,
}

/// The identity of an item: objects of different kinds may share an id.
pub struct ItemKey {
    pub kind: ItemKind,
    pub id: u64,
}

/// The tags of an item: a mapping from keys to values, each key at most once.
#[derive(Debug, PartialEq, Eq)]
pub struct Tags {
    entries: Vec<(String, String)>,
}

/// The position of key `k` among `entries`, which is meaningful where the
/// key occurs.
pub closed spec fn position_of(entries: Seq<(String, String)>, k: Seq<char>) -> int {
    choose|i: int| 0 <= i < entries.len() && entries[i].0@ == k
}

impl View for Tags {
    type V = Map<Seq<char>, Seq<char>>;

    closed spec fn view(&self) -> Map<Seq<char>, Seq<char>> {
        Map::new(
            |k: Seq<char>| exists|i: int| 0 <= i < self.entries@.len() && self.entries@[i].0@ == k,
            |k: Seq<char>| self.entries@[position_of(self.entries@, k)].1@,
        )
    }
}

impl Clone for Tags {
    fn clone(&self) -> (r: Self)
        ensures
            r@ == self@,
    {
        proof {
            use_type_invariant(self);
        }
        let mut entries: Vec<(String, String)> = Vec::new();
        let mut i: usize = 0;
        while i < self.entries.len()
            invariant
                i <= self.entries@.len(),
                entries@.len() == i,
                forall|j: int|
                    0 <= j < i ==> entries@[j].0@ == self.entries@[j].0@ && entries@[j].1@
                        == self.entries@[j].1@,
            decreases self.entries@.len() - i,
        {
            entries.push((self.entries[i].0.clone(), self.entries[i].1.clone()));
            i = i + 1;
        }
        let r = Tags { entries };
        proof {
            assert forall|k: Seq<char>| r@.contains_key(k) == self@.contains_key(k) by {
                if r@.contains_key(k) {
                    let i = choose|i: int| 0 <= i < r.entries@.len() && r.entries@[i].0@ == k;
                    assert(self.entries@[i].0@ == k);
                }
                if self@.contains_key(k) {
                    let i = choose|i: int|
                        0 <= i < self.entries@.len() && self.entries@[i].0@ == k;
                    assert(r.entries@[i].0@ == k);
                }
            }
            assert forall|k: Seq<char>| r@.contains_key(k) implies r@[k] == self@[k] by {
                r.lemma_entry(position_of(r.entries@, k));
                self.lemma_entry(position_of(r.entries@, k));
            }
            assert(r@ =~= self@);
        }
        r
    }
}

impl Tags {
    /// No key is stored twice.
    #[verifier::type_invariant]
    spec fn distinct_keys(self) -> bool {
        forall|i: int, j: int|
            0 <= i < j < self.entries@.len() ==> self.entries@[i].0@ != self.entries@[j].0@
    }

    /// Each entry is a pair of the mapping.
    proof fn lemma_entry(self, i: int)
        requires
            self.distinct_keys(),
            0 <= i < self.entries@.len(),
        ensures
            self@.contains_key(self.entries@[i].0@),
            self@[self.entries@[i].0@] == self.entries@[i].1@,
    {
        let k = self.entries@[i].0@;
        let p = position_of(self.entries@, k);
        assert(0 <= p < self.entries@.len() && self.entries@[p].0@ == k);
        assert(p == i);
    }

    /// No tags at all: the mapping is empty and no pair is stored.
    pub fn new() -> (t: Tags)
        ensures
            t@ == Map::<Seq<char>, Seq<char>>::empty(),
            t.pairs() == Seq::<(Seq<char>, Seq<char>)>::empty(),
            t.inv(),
    {
        let t = Tags { entries: Vec::new() };
        assert(t@ =~= Map::<Seq<char>, Seq<char>>::empty());
        assert(t.pairs() =~= Seq::<(Seq<char>, Seq<char>)>::empty());
        t
    }

    /// The number of tags.
    pub fn len(&self) -> (n: usize)
        ensures
            n == self@.len(),
            self@.dom().finite(),
    {
        proof {
            use_type_invariant(self);
            self.lemma_len(self.entries@.len() as int);
            assert(self.prefix_dom(self.entries@.len() as int) =~= self@.dom());
        }
        self.entries.len()
    }

    /// The keys of the first `n` stored pairs.
    spec fn prefix_dom(self, n: int) -> Set<Seq<char>> {
        Set::new(|k: Seq<char>| exists|i: int| 0 <= i < n && self.entries@[i].0@ == k)
    }

    /// The first `n` stored pairs have `n` keys.
    proof fn lemma_len(self, n: int)
        requires
            self.distinct_keys(),
            0 <= n <= self.entries@.len(),
        ensures
            self.prefix_dom(n).finite(),
            self.prefix_dom(n).len() == n,
        decreases n,
    {
        if n == 0 {
            assert(self.prefix_dom(0) =~= Set::<Seq<char>>::empty());
        } else {
            self.lemma_len(n - 1);
            let k = self.entries@[n - 1].0@;
            assert(self.prefix_dom(n) =~= self.prefix_dom(n - 1).insert(k));
            assert(!self.prefix_dom(n - 1).contains(k));
        }
    }

    /// The pairs of the mapping in the order in which they are stored. No
    /// key occurs twice, and the pairs are those of the mapping.
    pub closed spec fn pairs(self) -> Seq<(Seq<char>, Seq<char>)> {
        Seq::new(self.entries@.len(), |i: int| (self.entries@[i].0@, self.entries@[i].1@))
    }

    /// The stored pairs are exactly the pairs of the mapping.
    pub proof fn lemma_pairs(self)
        requires
            self.inv(),
        ensures
            forall|i: int|
                0 <= i < self.pairs().len() ==> self@.contains_key(
                    (#[trigger] self.pairs()[i]).0,
                ) && self@[self.pairs()[i].0] == self.pairs()[i].1,
            forall|k: Seq<char>| #[trigger]
                self@.contains_key(k) ==> exists|i: int|
                    0 <= i < self.pairs().len() && #[trigger] self.pairs()[i] == (k, self@[k]),
    {
        assert forall|i: int| 0 <= i < self.pairs().len() implies self@.contains_key(
            (#[trigger] self.pairs()[i]).0,
        ) && self@[self.pairs()[i].0] == self.pairs()[i].1 by {
            self.lemma_entry(i);
        }
        assert forall|k: Seq<char>| #[trigger] self@.contains_key(k) implies exists|i: int|
            0 <= i < self.pairs().len() && #[trigger] self.pairs()[i] == (k, self@[k]) by {
            let p = position_of(self.entries@, k);
            self.lemma_entry(p);
            assert(self.pairs()[p] == (k, self@[k]));
        }
    }

    /// What holds of every value of this type: no key is stored twice.
    pub closed spec fn inv(self) -> bool {
        self.distinct_keys()
    }

    /// The number of stored pairs.
    pub fn count(&self) -> (n: usize)
        ensures
            n == self.pairs().len(),
            self.inv(),
    {
        proof {
            use_type_invariant(self);
        }
        self.entries.len()
    }

    /// The key of the stored pair at position `i`.
    pub fn key_at(&self, i: usize) -> (k: &String)
        requires
            i < self.pairs().len(),
        ensures
            k@ == self.pairs()[i as int].0,
    {
        &self.entries[i].0
    }

    /// The value of the stored pair at position `i`.
    pub fn value_at(&self, i: usize) -> (v: &String)
        requires
            i < self.pairs().len(),
        ensures
            v@ == self.pairs()[i as int].1,
    {
        &self.entries[i].1
    }

    /// The value stored under `key`, if there is one.
    pub fn get(&self, key: &str) -> (r: Option<&String>)
        ensures
            match r {
                Some(v) => self@.contains_key(key@) && self@[key@] == v@,
                None => !self@.contains_key(key@),
            },
    {
        proof {
            use_type_invariant(self);
        }
        let mut i: usize = 0;
        while i < self.entries.len()
            invariant
                i <= self.entries@.len(),
                self.distinct_keys(),
                forall|j: int| 0 <= j < i ==> self.entries@[j].0@ != key@,
            decreases self.entries@.len() - i,
        {
            if self.entries[i].0.as_str().eq(key) {
                proof {
                    self.lemma_entry(i as int);
                }
                return Some(&self.entries[i].1);
            }
            i = i + 1;
        }
        None
    }

    /// These tags with `value` stored under `key`, in place of what was stored
    /// there before.
    pub fn with(self, key: String, value: String) -> (r: Tags)
        ensures
            r@ == self@.insert(key@, value@),
    {
        proof {
            use_type_invariant(&self);
        }
        let ghost before = self;
        let ghost (key0, value0) = (key, value);
        let mut entries = self.entries;
        let mut i: usize = 0;
        while i < entries.len()
            invariant
                i <= entries@.len(),
                entries == before.entries,
                before == self,
                before.distinct_keys(),
                key == key0,
                value == value0,
                forall|j: int| 0 <= j < i ==> entries@[j].0@ != key@,
            decreases entries@.len() - i,
        {
            if entries[i].0.as_str().eq(key.as_str()) {
                entries.set(i, (key, value));
                let after = Tags { entries };
                proof {
                    assert forall|k: Seq<char>|
                        after@.contains_key(k) == before@.insert(key@, value@).contains_key(
                            k,
                        ) by {
                        if after@.contains_key(k) {
                            let p = choose|p: int|
                                0 <= p < after.entries@.len() && after.entries@[p].0@ == k;
                            assert(before.entries@[p].0@ == k);
                        }
                        if before@.contains_key(k) {
                            let p = choose|p: int|
                                0 <= p < before.entries@.len() && before.entries@[p].0@ == k;
                            assert(after.entries@[p].0@ == k);
                        }
                        if k == key@ {
                            assert(after.entries@[i as int].0@ == k);
                        }
                    }
                    assert forall|k: Seq<char>| after@.contains_key(k) implies after@[k]
                        == before@.insert(key@, value@)[k] by {
                        let p = position_of(after.entries@, k);
                        after.lemma_entry(p);
                        if p != i {
                            before.lemma_entry(p);
                        }
                    }
                    assert(after@ =~= before@.insert(key@, value@));
                }
                return after;
            }
            i = i + 1;
        }
        entries.push((key, value));
        let after = Tags { entries };
        proof {
            let n = before.entries@.len() as int;
            assert forall|k: Seq<char>|
                after@.contains_key(k) == before@.insert(key@, value@).contains_key(k) by {
                if after@.contains_key(k) {
                    let p = choose|p: int|
                        0 <= p < after.entries@.len() && after.entries@[p].0@ == k;
                    if p < n {
                        assert(before.entries@[p].0@ == k);
                    }
                }
                if before@.contains_key(k) {
                    let p = choose|p: int|
                        0 <= p < before.entries@.len() && before.entries@[p].0@ == k;
                    assert(after.entries@[p].0@ == k);
                }
                if k == key@ {
                    assert(after.entries@[n].0@ == k);
                }
            }
            assert forall|k: Seq<char>| after@.contains_key(k) implies after@[k]
                == before@.insert(key@, value@)[k] by {
                let p = position_of(after.entries@, k);
                after.lemma_entry(p);
                if p < n {
                    before.lemma_entry(p);
                }
            }
            assert(after@ =~= before@.insert(key@, value@));
        }
        after
    }

    /// Stores `value` under `key`, in place of what was stored there before.
    pub fn insert(&mut self, key: String, value: String)
        ensures
            final(self)@ == old(self)@.insert(key@, value@),
    {
        let mut taken = Tags::new();
        std::mem::swap(self, &mut taken);
        *self = taken.with(key, value);
    }
}

/// What an item holds besides its id and tags, by kind, as a mathematical
/// value.
pub enum ItemSpecificView {
    Node { lat: i64, lon: i64 },
    Way { refs: Seq<i64> },
    Relation { members: Seq<(Seq<char>, u64, ItemKind)> },
}

/// An item as a mathematical value.
pub struct ItemView {
    pub id: u64,
    pub tags: Map<Seq<char>, Seq<char>>,
    pub specific: ItemSpecificView,
}

impl ItemView {
    /// The kind of the item.
    pub open spec fn kind(self) -> ItemKind {
        match self.specific {
            ItemSpecificView::Node { .. } => ItemKind::Node,
            ItemSpecificView::Way { .. } => ItemKind::Way,
            ItemSpecificView::Relation { .. } => ItemKind::Relation,
        }
    }

    /// The identity of the item: its kind and its id.
    pub open spec fn key(self) -> ItemKey {
        ItemKey { kind: self.kind(), id: self.id }
    }

    /// A closed way: one whose list of references is not empty and ends
    /// where it starts.
    pub open spec fn is_area(self) -> bool {
        match self.specific {
            ItemSpecificView::Way { refs } => refs.len() > 0 && refs.first() == refs.last(),
            _ => false,
        }
    }

    /// The position of the item, which only a node has.
    pub open spec fn lat_lon(self) -> Option<(i64, i64)> {
        match self.specific {
            ItemSpecificView::Node { lat, lon } => Some((lat, lon)),
            _ => None,
        }
    }
}

/// The members of a relation as mathematical values: role, id and kind of
/// each.
pub open spec fn members_view(members: Seq<(String, u64, ItemKind)>) -> Seq<
    (Seq<char>, u64, ItemKind),
> {
    Seq::new(members.len(), |i: int| (members[i].0@, members[i].1, members[i].2))
}

/// What an item holds besides its id and tags, by kind. A node has a
/// position, each coordinate in units of 10^-9 degrees; a way has an ordered
/// list of node references; a relation has an ordered list of members, each
/// with a role, an id and a kind.
#[derive(Debug, PartialEq)]
pub enum ItemSpecific {
    Node { lat: i64, lon: i64 },
    Way { refs: Vec<i64> },
    Relation { members: Vec<(String, u64, ItemKind)> },
}

impl View for ItemSpecific {
    type V = ItemSpecificView;

    open spec fn view(&self) -> ItemSpecificView {
        match *self {
            ItemSpecific::Node { lat, lon } => ItemSpecificView::Node { lat, lon },
            ItemSpecific::Way { refs } => ItemSpecificView::Way { refs: refs@ },
            ItemSpecific::Relation { members } => ItemSpecificView::Relation {
                members: members_view(members@),
            },
        }
    }
}

impl Clone for ItemSpecific {
    fn clone(&self) -> (r: Self)
        ensures
            r@ == self@,
    {
        match self {
            ItemSpecific::Node { lat, lon } => ItemSpecific::Node { lat: *lat, lon: *lon },
            ItemSpecific::Way { refs } => {
                let mut copy: Vec<i64> = Vec::new();
                let mut i: usize = 0;
                while i < refs.len()
                    invariant
                        i <= refs@.len(),
                        copy@ == refs@.subrange(0, i as int),
                    decreases refs@.len() - i,
                {
                    copy.push(refs[i]);
                    i = i + 1;
                    assert(refs@.subrange(0, i as int) == refs@.subrange(0, i - 1).push(
                        refs@[i - 1],
                    ));
                }
                assert(refs@.subrange(0, i as int) == refs@);
                ItemSpecific::Way { refs: copy }
            },
            ItemSpecific::Relation { members } => {
                let mut copy: Vec<(String, u64, ItemKind)> = Vec::new();
                let mut i: usize = 0;
                while i < members.len()
                    invariant
                        i <= members@.len(),
                        copy@.len() == i,
                        forall|j: int| 0 <= j < i ==> copy@[j] == members@[j],
                    decreases members@.len() - i,
                {
                    copy.push((members[i].0.clone(), members[i].1, members[i].2));
                    i = i + 1;
                }
                assert(members_view(copy@) =~= members_view(members@));
                ItemSpecific::Relation { members: copy }
            },
        }
    }
}

/// A materialized OpenStreetMap object. It is made once and never changed.
#[derive(Debug)]
pub struct Item {
    pub id: u64,
    pub tags: Tags,
    pub specific: ItemSpecific,
}

impl View for Item {
    type V = ItemView;

    open spec fn view(&self) -> ItemView {
        ItemView { id: self.id, tags: self.tags@, specific: self.specific@ }
    }
}

impl Clone for Item {
    fn clone(&self) -> (r: Self)
        ensures
            r@ == self@,
    {
        Item { id: self.id, tags: self.tags.clone(), specific: self.specific.clone() }
    }
}

impl Item {
    /// An item of the given id, tags and kind-specific content.
    pub fn new(id: u64, tags: Tags, specific: ItemSpecific) -> (item: Item)
        ensures
            item@ == (ItemView { id, tags: tags@, specific: specific@ }),
    {
        Item { id, tags, specific }
    }

    /// The kind of the item.
    pub fn kind(&self) -> (k: ItemKind)
        ensures
            k == self@.kind(),
    {
        match self.specific {
            ItemSpecific::Node { .. } => ItemKind::Node,
            ItemSpecific::Way { .. } => ItemKind::Way,
            ItemSpecific::Relation { .. } => ItemKind::Relation,
        }
    }

    /// Is a node?
    pub fn is_node(&self) -> (b: bool)
        ensures
            b == (self@.kind() == ItemKind::Node),
    {
        match self.specific {
            ItemSpecific::Node { .. } => true,
            _ => false,
        }
    }

    /// Is a way?
    pub fn is_way(&self) -> (b: bool)
        ensures
            b == (self@.kind() == ItemKind::Way),
    {
        match self.specific {
            ItemSpecific::Way { .. } => true,
            _ => false,
        }
    }

    /// Is a closed way?
    pub fn is_area(&self) -> (b: bool)
        ensures
            b == self@.is_area(),
            b <==> (self@.specific matches ItemSpecificView::Way { refs } && refs.len() > 0
                && refs[0] == refs[refs.len() - 1]),
    {
        match &self.specific {
            ItemSpecific::Way { refs } => {
                if refs.len() > 0 {
                    let first = refs[0];
                    let last = refs[refs.len() - 1];
                    first == last
                } else {
                    false
                }
            },
            _ => false,
        }
    }

    /// Is a relation?
    pub fn is_relation(&self) -> (b: bool)
        ensures
            b == (self@.kind() == ItemKind::Relation),
    {
        match self.specific {
            ItemSpecific::Relation { .. } => true,
            _ => false,
        }
    }

    /// The latitude and longitude of a node, each in units of 10^-9
    /// degrees; nothing for a way or a relation.
    pub fn get_lat_lon(&self) -> (r: Option<(i64, i64)>)
        ensures
            r == self@.lat_lon(),
            r is Some <==> self@.kind() == ItemKind::Node,
    {
        match self.specific {
            ItemSpecific::Node { lat, lon } => Some((lat, lon)),
            _ => None,
        }
    }
}

} // verus!
