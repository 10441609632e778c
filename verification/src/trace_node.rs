//! The data flow of a script: a graph of sets, each written by one node.

use vstd::prelude::*;
use crate::process_node::{Process, ProcessView};
use crate::ql::statement::SetName;

verus! {

/// The identity of a set in the data flow. A script may bind one name many
/// times; each binding writes a set of its own.
#[derive(Debug, Eq, PartialEq, Ord, PartialOrd, Hash, Clone, Copy, Structural)]
pub struct UniqueSet {
    pub id: u32,
}

impl UniqueSet {
    /// The identity of the given number.
    pub fn new(id: u32) -> (r: Self)
        ensures
            r == (UniqueSet { id }),
    {
        UniqueSet { id }
    }
}

/// A finite set of set identities.
#[derive(Debug, PartialEq)]
pub struct UniqueSets {
    ids: Vec<UniqueSet>,
}

impl View for UniqueSets {
    type V = Set<UniqueSet>;

    closed spec fn view(&self) -> Set<UniqueSet> {
        self.ids@.to_set()
    }
}

impl UniqueSets {
    /// No identity is stored twice.
    #[verifier::type_invariant]
    spec fn distinct(self) -> bool {
        self.ids@.no_duplicates()
    }

    /// What holds of every value of this type: no identity is stored
    /// twice.
    pub closed spec fn inv(self) -> bool {
        self.distinct()
    }

    /// The identities in the order in which they are stored.
    pub closed spec fn ids(self) -> Seq<UniqueSet> {
        self.ids@
    }

    /// The stored identities are those of the set, none twice.
    pub proof fn lemma_ids(self)
        requires
            self.inv(),
        ensures
            self.ids().no_duplicates(),
            self.ids().to_set() == self@,
            self@.finite(),
            self@.len() == self.ids().len(),
    {
        self.ids@.unique_seq_to_set();
    }

    /// The empty set: it holds no identity and stores none.
    pub fn new() -> (r: Self)
        ensures
            r@ == Set::<UniqueSet>::empty(),
            r.ids() == Seq::<UniqueSet>::empty(),
            r.inv(),
    {
        let r = UniqueSets { ids: Vec::new() };
        assert(r@ =~= Set::<UniqueSet>::empty());
        assert(r.ids() =~= Seq::<UniqueSet>::empty());
        r
    }

    /// The number of identities.
    pub fn len(&self) -> (n: usize)
        ensures
            n == self.ids().len(),
            n == self@.len(),
            self.inv(),
    {
        proof {
            use_type_invariant(self);
            self.lemma_ids();
        }
        self.ids.len()
    }

    /// The stored identity at position `i`.
    pub fn get(&self, i: usize) -> (id: UniqueSet)
        requires
            i < self.ids().len(),
        ensures
            id == self.ids()[i as int],
            self@.contains(id),
    {
        self.ids[i]
    }

    /// Whether `id` is in the set.
    pub fn contains(&self, id: UniqueSet) -> (b: bool)
        ensures
            b == self@.contains(id),
    {
        let mut i: usize = 0;
        while i < self.ids.len()
            invariant
                i <= self.ids@.len(),
                forall|j: int| 0 <= j < i ==> self.ids@[j] != id,
            decreases self.ids@.len() - i,
        {
            if self.ids[i] == id {
                return true;
            }
            i = i + 1;
        }
        false
    }

    /// This set with `id` in it.
    pub fn with(self, id: UniqueSet) -> (r: Self)
        ensures
            r@ == self@.insert(id),
    {
        proof {
            use_type_invariant(&self);
        }
        if self.contains(id) {
            assert(self@.insert(id) =~= self@);
            self
        } else {
            let ghost before = self.ids@;
            let mut ids = self.ids;
            ids.push(id);
            let r = UniqueSets { ids };
            assert(r@ =~= before.to_set().insert(id)) by {
                assert forall|x: UniqueSet| r.ids@.contains(x) <==> (before.contains(x) || x
                    == id) by {
                    if r.ids@.contains(x) {
                        let j = choose|j: int| 0 <= j < r.ids@.len() && r.ids@[j] == x;
                        if j < before.len() {
                            assert(before[j] == x);
                        }
                    }
                    if before.contains(x) {
                        let j = choose|j: int| 0 <= j < before.len() && before[j] == x;
                        assert(r.ids@[j] == x);
                    }
                    if x == id {
                        assert(r.ids@[before.len() as int] == x);
                    }
                }
            }
            r
        }
    }

    /// Puts `id` into the set.
    pub fn insert(&mut self, id: UniqueSet)
        ensures
            final(self)@ == old(self)@.insert(id),
    {
        let mut taken = UniqueSets::new();
        std::mem::swap(self, &mut taken);
        *self = taken.with(id);
    }

    /// Whether every identity of this set is in `other`.
    pub fn is_subset(&self, other: &UniqueSets) -> (b: bool)
        ensures
            b == self@.subset_of(other@),
    {
        let mut i: usize = 0;
        while i < self.ids.len()
            invariant
                i <= self.ids@.len(),
                forall|j: int| 0 <= j < i ==> other@.contains(self.ids@[j]),
            decreases self.ids@.len() - i,
        {
            if !other.contains(self.ids[i]) {
                assert(self@.contains(self.ids@[i as int]));
                return false;
            }
            i = i + 1;
        }
        assert forall|x: UniqueSet| self@.contains(x) implies other@.contains(x) by {
            let j = choose|j: int| 0 <= j < self.ids@.len() && self.ids@[j] == x;
        }
        true
    }
}

impl Clone for UniqueSets {
    fn clone(&self) -> (r: Self)
        ensures
            r@ == self@,
    {
        proof {
            use_type_invariant(self);
        }
        let ids = self.ids.clone();
        assert(ids@ =~= self.ids@);
        UniqueSets { ids }
    }
}

/// The sets that a list of bindings binds names to: a later binding
/// replaces an earlier one of the same name.
pub open spec fn names_of(entries: Seq<(SetName, UniqueSet)>) -> Map<Seq<char>, UniqueSet>
    decreases entries.len(),
{
    if entries.len() == 0 {
        Map::empty()
    } else {
        names_of(entries.drop_last()).insert(entries.last().0@, entries.last().1)
    }
}

/// The names that a list of bindings binds are the names in the list.
pub proof fn lemma_names_domain(entries: Seq<(SetName, UniqueSet)>)
    ensures
        forall|name: Seq<char>|
            names_of(entries).contains_key(name) <==> exists|i: int|
                0 <= i < entries.len() && (#[trigger] entries[i]).0@ == name,
    decreases entries.len(),
{
    if entries.len() > 0 {
        let rest = entries.drop_last();
        lemma_names_domain(rest);
        assert forall|name: Seq<char>|
            names_of(entries).contains_key(name) <==> exists|i: int|
                0 <= i < entries.len() && (#[trigger] entries[i]).0@ == name by {
            if names_of(rest).contains_key(name) {
                let i = choose|i: int| 0 <= i < rest.len() && (#[trigger] rest[i]).0@ == name;
                assert(entries[i].0@ == name);
            }
            if name == entries.last().0@ {
                assert(entries[entries.len() - 1].0@ == name);
            }
            if exists|i: int| 0 <= i < entries.len() && (#[trigger] entries[i]).0@ == name {
                let i = choose|i: int|
                    0 <= i < entries.len() && (#[trigger] entries[i]).0@ == name;
                if i < rest.len() {
                    assert(rest[i].0@ == name);
                }
            }
        }
    }
}

/// Every name that a list of bindings binds is bound to a set in the
/// list.
pub proof fn lemma_names_values(entries: Seq<(SetName, UniqueSet)>)
    ensures
        forall|name: Seq<char>| #[trigger]
            names_of(entries).contains_key(name) ==> exists|i: int|
                0 <= i < entries.len() && (#[trigger] entries[i]).0@ == name && entries[i].1
                    == names_of(entries)[name],
    decreases entries.len(),
{
    if entries.len() > 0 {
        let rest = entries.drop_last();
        lemma_names_values(rest);
        assert forall|name: Seq<char>| #[trigger]
            names_of(entries).contains_key(name) implies exists|i: int|
            0 <= i < entries.len() && (#[trigger] entries[i]).0@ == name && entries[i].1
                == names_of(entries)[name] by {
            if name == entries.last().0@ {
                let i = entries.len() - 1;
                assert(entries[i].0@ == name && entries[i].1 == names_of(entries)[name]);
            } else {
                let i = choose|i: int|
                    0 <= i < rest.len() && (#[trigger] rest[i]).0@ == name && rest[i].1
                        == names_of(rest)[name];
                assert(entries[i].0@ == name && entries[i].1 == names_of(entries)[name]);
            }
        }
    }
}

/// The set that `name` is bound to in a list of bindings, if it is
/// bound.
pub fn lookup_name(entries: &Vec<(SetName, UniqueSet)>, name: &SetName) -> (r: Option<UniqueSet>)
    ensures
        match r {
            Some(set) => names_of(entries@).contains_key(name@) && names_of(entries@)[name@]
                == set,
            None => !names_of(entries@).contains_key(name@),
        },
{
    let mut i = entries.len();
    assert(entries@.subrange(0, i as int) == entries@);
    while i > 0
        invariant
            i <= entries@.len(),
            names_of(entries@).contains_key(name@) == names_of(
                entries@.subrange(0, i as int),
            ).contains_key(name@),
            names_of(entries@).contains_key(name@) ==> names_of(entries@)[name@] == names_of(
                entries@.subrange(0, i as int),
            )[name@],
        decreases i,
    {
        i = i - 1;
        assert(entries@.subrange(0, i + 1).drop_last() == entries@.subrange(0, i as int));
        if entries[i].0.same(name) {
            return Some(entries[i].1);
        }
    }
    None
}

/// A node of the data flow: the sets it reads, the work it does, and the
/// sets that its filters refer to by name, as the names were bound when
/// the node was made.
#[derive(Debug, PartialEq)]
pub struct TraceNode {
    pub input_sets: UniqueSets,
    pub process: Process,
    pub named_sets: Vec<(SetName, UniqueSet)>,
}

/// A node of the data flow as a mathematical value.
pub struct TraceNodeView {
    pub input_sets: Set<UniqueSet>,
    pub process: ProcessView,
    pub named_sets: Map<Seq<char>, UniqueSet>,
}

impl TraceNodeView {
    /// Every set that the node depends on: its inputs, and the sets that
    /// its filters refer to.
    pub open spec fn reads(self) -> Set<UniqueSet> {
        Set::new(
            |x: UniqueSet|
                self.input_sets.contains(x) || exists|name: Seq<char>| #[trigger]
                    self.named_sets.contains_key(name) && self.named_sets[name] == x,
        )
    }
}

impl View for TraceNode {
    type V = TraceNodeView;

    open spec fn view(&self) -> TraceNodeView {
        TraceNodeView {
            input_sets: self.input_sets@,
            process: self.process@,
            named_sets: names_of(self.named_sets@),
        }
    }
}

/// A copy of the given bindings.
pub fn clone_names(entries: &Vec<(SetName, UniqueSet)>) -> (r: Vec<(SetName, UniqueSet)>)
    ensures
        names_of(r@) == names_of(entries@),
        r@.len() == entries@.len(),
        forall|i: int| 0 <= i < r@.len() ==> r@[i].0@ == entries@[i].0@ && r@[i].1 == entries@[i].1,
{
    let mut copy: Vec<(SetName, UniqueSet)> = Vec::new();
    let mut i: usize = 0;
    while i < entries.len()
        invariant
            i <= entries@.len(),
            copy@.len() == i,
            forall|j: int|
                0 <= j < i ==> copy@[j].0@ == entries@[j].0@ && copy@[j].1 == entries@[j].1,
            names_of(copy@) == names_of(entries@.subrange(0, i as int)),
        decreases entries@.len() - i,
    {
        let ghost before = copy@;
        copy.push((entries[i].0.clone(), entries[i].1));
        i = i + 1;
        proof {
            assert(copy@.drop_last() == before);
            assert(entries@.subrange(0, i as int).drop_last() == entries@.subrange(0, i - 1));
        }
    }
    assert(entries@.subrange(0, i as int) == entries@);
    copy
}

impl Clone for TraceNode {
    fn clone(&self) -> (r: Self)
        ensures
            r@ == self@,
    {
        TraceNode {
            input_sets: self.input_sets.clone(),
            process: self.process.clone(),
            named_sets: clone_names(&self.named_sets),
        }
    }
}

impl TraceNode {
    /// Whether every set that the node depends on is among the given
    /// ones.
    pub fn are_all_inputs_satisfied(&self, satisfied_inputs: &UniqueSets) -> (b: bool)
        ensures
            b == self@.reads().subset_of(satisfied_inputs@),
    {
        self.reads().is_subset(satisfied_inputs)
    }

    /// Every set that the node depends on: its inputs, and the sets that
    /// its filters refer to.
    pub fn reads(&self) -> (r: UniqueSets)
        ensures
            r@ == self@.reads(),
    {
        let mut r = self.input_sets.clone();
        let ghost bound = names_of(self.named_sets@);
        let mut i: usize = 0;
        while i < self.named_sets.len()
            invariant
                i <= self.named_sets@.len(),
                bound == names_of(self.named_sets@),
                forall|x: UniqueSet|
                    r@.contains(x) <==> (self.input_sets@.contains(x) || exists|j: int|
                        0 <= j < i && bound[(#[trigger] self.named_sets@[j]).0@] == x),
            decreases self.named_sets@.len() - i,
        {
            let ghost before = r@;
            proof {
                lemma_names_domain(self.named_sets@);
            }
            match lookup_name(&self.named_sets, &self.named_sets[i].0) {
                Some(id) => {
                    r.insert(id);
                },
                None => {
                    assert(false);
                },
            }
            i = i + 1;
            assert forall|x: UniqueSet|
                r@.contains(x) <==> (self.input_sets@.contains(x) || exists|j: int|
                    0 <= j < i && bound[(#[trigger] self.named_sets@[j]).0@] == x) by {
                if before.contains(x) && !self.input_sets@.contains(x) {
                    let j = choose|j: int|
                        0 <= j < i - 1 && bound[(#[trigger] self.named_sets@[j]).0@] == x;
                    assert(0 <= j < i && bound[self.named_sets@[j].0@] == x);
                }
                if x == bound[self.named_sets@[i - 1].0@] {
                    assert(0 <= i - 1 < i && bound[self.named_sets@[i - 1].0@] == x);
                }
                if exists|j: int|
                    0 <= j < i && bound[(#[trigger] self.named_sets@[j]).0@] == x {
                    let j = choose|j: int|
                        0 <= j < i && bound[(#[trigger] self.named_sets@[j]).0@] == x;
                    if j < i - 1 {
                        assert(0 <= j < i - 1 && bound[self.named_sets@[j].0@] == x);
                    }
                }
            }
        }
        proof {
            lemma_names_domain(self.named_sets@);
            assert forall|x: UniqueSet| r@.contains(x) == self@.reads().contains(x) by {
                if r@.contains(x) && !self.input_sets@.contains(x) {
                    let j = choose|j: int|
                        0 <= j < i && bound[(#[trigger] self.named_sets@[j]).0@] == x;
                    assert(bound.contains_key(self.named_sets@[j].0@));
                }
                if self@.reads().contains(x) && !self.input_sets@.contains(x) {
                    let name = choose|name: Seq<char>| #[trigger]
                        bound.contains_key(name) && bound[name] == x;
                    let j = choose|j: int|
                        0 <= j < self.named_sets@.len() && (#[trigger] self.named_sets@[j]).0@
                            == name;
                    assert(0 <= j < i && bound[self.named_sets@[j].0@] == x);
                }
            }
            assert(r@ =~= self@.reads());
        }
        r
    }
}

/// The nodes of a data flow in the order in which they were made, each
/// under the identity of the set that it writes.
pub type Entries = Seq<(UniqueSet, TraceNodeView)>;

/// The position of the node that writes `id`, which is meaningful where
/// there is one.
pub open spec fn position_of(entries: Entries, id: UniqueSet) -> int {
    choose|i: int| 0 <= i < entries.len() && entries[i].0 == id
}

/// Whether one of the first `n` nodes writes `id`.
pub open spec fn written_before(entries: Entries, n: int, id: UniqueSet) -> bool {
    exists|i: int| 0 <= i < n && i < entries.len() && #[trigger] entries[i].0 == id
}

/// What holds of the nodes of every data flow: each set is written by one
/// node, and every set that a node reads is written by an earlier node.
/// So no reference dangles and the graph has no cycle.
pub open spec fn well_ordered(entries: Entries) -> bool {
    &&& forall|i: int, j: int|
        0 <= i < j < entries.len() ==> (#[trigger] entries[i]).0 != (#[trigger] entries[j]).0
    &&& forall|j: int, x: UniqueSet|
        0 <= j < entries.len() && #[trigger] entries[j].1.reads().contains(x)
            ==> written_before(entries, j, x)
}

/// The nodes as a mapping from the sets they write.
pub open spec fn entries_map(entries: Entries) -> Map<UniqueSet, TraceNodeView> {
    Map::new(
        |id: UniqueSet| written_before(entries, entries.len() as int, id),
        |id: UniqueSet| entries[position_of(entries, id)].1,
    )
}

/// In a well-ordered data flow each node stands in the mapping under the
/// set it writes.
pub proof fn lemma_entry_in_map(entries: Entries, i: int)
    requires
        well_ordered(entries),
        0 <= i < entries.len(),
    ensures
        entries_map(entries).contains_key(entries[i].0),
        entries_map(entries)[entries[i].0] == entries[i].1,
        position_of(entries, entries[i].0) == i,
{
    let p = position_of(entries, entries[i].0);
    assert(0 <= p < entries.len() && entries[p].0 == entries[i].0);
    if p < i {
        assert(entries[p].0 != entries[i].0);
    }
    if i < p {
        assert(entries[i].0 != entries[p].0);
    }
}

/// Whether `chain` leads from a root to the sets it depends on: it is a
/// list of positions that starts at a node that writes one of `roots`, and
/// each node in it reads the set that the next one writes.
pub open spec fn is_chain(entries: Entries, roots: Set<UniqueSet>, chain: Seq<int>) -> bool {
    &&& chain.len() > 0
    &&& forall|i: int| 0 <= i < chain.len() ==> 0 <= #[trigger] chain[i] < entries.len()
    &&& roots.contains(entries[chain[0]].0)
    &&& forall|i: int|
        0 <= i < chain.len() - 1 ==> entries[#[trigger] chain[i]].1.reads().contains(
            entries[chain[i + 1]].0,
        )
}

/// Whether the node at position `j` is needed for one of `roots`: a chain
/// leads from a root to it.
pub open spec fn needed(entries: Entries, roots: Set<UniqueSet>, j: int) -> bool {
    exists|chain: Seq<int>| #[trigger] is_chain(entries, roots, chain) && chain.last() == j
}

/// The sets that outputs write.
pub open spec fn output_keys(entries: Entries) -> Set<UniqueSet> {
    Set::new(
        |id: UniqueSet|
            exists|j: int|
                0 <= j < entries.len() && #[trigger] entries[j].0 == id
                    && entries[j].1.process is Output,
    )
}

/// The sets that are needed for `roots`: the roots that nodes write, the
/// sets that their nodes read, and those that the nodes of needed sets
/// read.
pub open spec fn needed_keys(entries: Entries, roots: Set<UniqueSet>) -> Set<UniqueSet> {
    Set::new(|id: UniqueSet| exists|j: int| #[trigger] needed(entries, roots, j) && entries[j].0 == id)
}

/// A root is needed.
pub proof fn lemma_root_needed(entries: Entries, roots: Set<UniqueSet>, j: int)
    requires
        0 <= j < entries.len(),
        roots.contains(entries[j].0),
    ensures
        needed(entries, roots, j),
{
    let chain = seq![j];
    assert(is_chain(entries, roots, chain) && chain.last() == j);
}

/// A node that a needed node reads from is needed.
pub proof fn lemma_read_needed(entries: Entries, roots: Set<UniqueSet>, k: int, j: int)
    requires
        needed(entries, roots, k),
        0 <= j < entries.len(),
        entries[k].1.reads().contains(entries[j].0),
    ensures
        needed(entries, roots, j),
{
    let chain = choose|chain: Seq<int>| #[trigger] is_chain(entries, roots, chain) && chain.last() == k;
    let longer = chain.push(j);
    assert forall|i: int| 0 <= i < longer.len() - 1 implies entries[#[trigger] longer[i]].1.reads().contains(
        entries[longer[i + 1]].0,
    ) by {
        if i < chain.len() - 1 {
            assert(longer[i] == chain[i]);
            assert(longer[i + 1] == chain[i + 1]);
        }
    }
    assert(is_chain(entries, roots, longer) && longer.last() == j);
}

/// A needed node is an output, or a needed node reads from it.
pub proof fn lemma_needed_cases(entries: Entries, roots: Set<UniqueSet>, j: int)
    requires
        needed(entries, roots, j),
    ensures
        0 <= j < entries.len(),
        roots.contains(entries[j].0) || exists|k: int|
            0 <= k < entries.len() && #[trigger] needed(entries, roots, k)
                && entries[k].1.reads().contains(entries[j].0),
{
    let chain = choose|chain: Seq<int>| #[trigger] is_chain(entries, roots, chain) && chain.last() == j;
    if chain.len() > 1 {
        let shorter = chain.drop_last();
        let k = shorter.last();
        assert forall|i: int| 0 <= i < shorter.len() - 1 implies entries[#[trigger] shorter[i]].1.reads().contains(
            entries[shorter[i + 1]].0,
        ) by {
            assert(shorter[i] == chain[i]);
            assert(shorter[i + 1] == chain[i + 1]);
        }
        assert(is_chain(entries, roots, shorter) && shorter.last() == k);
        assert(k == chain[chain.len() - 2]);
        assert(entries[chain[chain.len() - 2]].1.reads().contains(
            entries[chain[chain.len() - 2 + 1]].0,
        ));
        assert(needed(entries, roots, k) && entries[k].1.reads().contains(entries[j].0));
    } else {
        assert(chain[0] == j);
    }
}

/// In a well-ordered data flow a node stands behind the nodes that it
/// reads from.
pub proof fn lemma_reads_earlier(entries: Entries, k: int, j: int)
    requires
        well_ordered(entries),
        0 <= k < entries.len(),
        0 <= j < entries.len(),
        entries[k].1.reads().contains(entries[j].0),
    ensures
        j < k,
{
    assert(written_before(entries, k, entries[j].0));
    let i = choose|i: int| 0 <= i < k && i < entries.len() && #[trigger] entries[i].0
        == entries[j].0;
    if i < j {
        assert(entries[i].0 != entries[j].0);
    }
    if j < i {
        assert(entries[j].0 != entries[i].0);
    }
}

/// In a well-ordered data flow a needed node reads only sets of needed
/// nodes before it.
pub proof fn lemma_needed_inputs(entries: Entries, roots: Set<UniqueSet>, j: int, x: UniqueSet)
    requires
        well_ordered(entries),
        needed(entries, roots, j),
        0 <= j < entries.len(),
        entries[j].1.reads().contains(x),
    ensures
        0 <= position_of(entries, x) < j,
        entries[position_of(entries, x)].0 == x,
        needed(entries, roots, position_of(entries, x)),
        needed_keys(entries, roots).contains(x),
{
    assert(written_before(entries, j, x));
    let i = choose|i: int| 0 <= i < j && i < entries.len() && #[trigger] entries[i].0 == x;
    lemma_entry_in_map(entries, i);
    lemma_read_needed(entries, roots, j, i);
}

/// Whether the node at position `n` is the first that keeps the nodes from
/// being a data flow, for the reason that the error names: it writes a set
/// that an earlier node writes, or else it reads a set, the one named, that
/// no earlier node writes.
pub open spec fn first_fault(entries: Entries, n: int, error: PlanError) -> bool {
    &&& 0 <= n < entries.len()
    &&& well_ordered(entries.subrange(0, n))
    &&& match error {
        PlanError::Rewritten(id) => entries[n].0 == id && written_before(entries, n, id),
        PlanError::Unsatisfiable(id) => !written_before(entries, n, entries[n].0)
            && entries[n].1.reads().contains(id) && !written_before(entries, n, id),
    }
}

/// Why nodes are no data flow.
#[derive(Debug, Clone, Copy, PartialEq, Eq, Structural)]
pub enum PlanError {
    /// A set is written by two nodes.
    Rewritten(UniqueSet),
    /// A node reads a set that no earlier node writes: the reference
    /// dangles, or the graph has a cycle.
    Unsatisfiable(UniqueSet),
}

/// The data flow of a script.
#[derive(Debug, PartialEq)]
pub struct Trace {
    trace: Vec<(UniqueSet, TraceNode)>,
}

/// The nodes as mathematical values, in order.
pub open spec fn entries_view(nodes: Seq<(UniqueSet, TraceNode)>) -> Entries {
    nodes.map_values(|e: (UniqueSet, TraceNode)| (e.0, e.1@))
}

impl View for Trace {
    type V = Map<UniqueSet, TraceNodeView>;

    closed spec fn view(&self) -> Map<UniqueSet, TraceNodeView> {
        entries_map(entries_view(self.trace@))
    }
}

impl Trace {
    /// The nodes are well ordered.
    #[verifier::type_invariant]
    spec fn ordered(self) -> bool {
        well_ordered(entries_view(self.trace@))
    }

    /// The nodes in the order in which they were made.
    pub closed spec fn entries(self) -> Entries {
        entries_view(self.trace@)
    }

    /// What holds of every value of this type: its nodes are well
    /// ordered.
    pub closed spec fn inv(self) -> bool {
        self.ordered()
    }

    /// The nodes of a data flow are well ordered, and its mapping is the
    /// one of its nodes.
    pub proof fn lemma_entries(self)
        requires
            self.inv(),
        ensures
            well_ordered(self.entries()),
            self@ == entries_map(self.entries()),
            forall|id: UniqueSet|
                self@.contains_key(id) <==> written_before(
                    self.entries(),
                    self.entries().len() as int,
                    id,
                ),
    {
    }

    /// The data flow without nodes: it has no node in its order and none in
    /// its mapping, and it is well ordered.
    pub fn empty() -> (r: Self)
        ensures
            r.entries() == Seq::<(UniqueSet, TraceNodeView)>::empty(),
            r@ == Map::<UniqueSet, TraceNodeView>::empty(),
            r.inv(),
    {
        let r = Trace { trace: Vec::new() };
        assert(r.entries() =~= Seq::<(UniqueSet, TraceNodeView)>::empty());
        assert(r@ =~= Map::<UniqueSet, TraceNodeView>::empty());
        r
    }

    /// The number of nodes.
    pub fn len(&self) -> (n: usize)
        ensures
            n == self.entries().len(),
            self.inv(),
    {
        proof {
            use_type_invariant(self);
        }
        self.trace.len()
    }

    /// The set that the node at position `i` writes.
    pub fn key_at(&self, i: usize) -> (id: UniqueSet)
        requires
            i < self.entries().len(),
        ensures
            id == self.entries()[i as int].0,
    {
        self.trace[i].0
    }

    /// The node at position `i`.
    pub fn node_at(&self, i: usize) -> (node: &TraceNode)
        requires
            i < self.entries().len(),
        ensures
            node@ == self.entries()[i as int].1,
    {
        &self.trace[i].1
    }

    /// The position of the node that writes `output`, if there is one.
    pub fn position(&self, output: UniqueSet) -> (r: Option<usize>)
        ensures
            match r {
                Some(i) => i < self.entries().len() && self.entries()[i as int].0 == output,
                None => !written_before(self.entries(), self.entries().len() as int, output),
            },
    {
        let mut i: usize = 0;
        while i < self.trace.len()
            invariant
                i <= self.trace@.len(),
                forall|j: int| 0 <= j < i ==> entries_view(self.trace@)[j].0 != output,
            decreases self.trace@.len() - i,
        {
            if self.trace[i].0 == output {
                return Some(i);
            }
            i = i + 1;
        }
        None
    }

    /// The node that writes `output`, if there is one.
    pub fn get_by_output(&self, output: UniqueSet) -> (r: Option<&TraceNode>)
        ensures
            match r {
                Some(node) => self@.contains_key(output) && self@[output] == node@,
                None => !self@.contains_key(output),
            },
    {
        proof {
            use_type_invariant(self);
        }
        match self.position(output) {
            Some(i) => {
                proof {
                    lemma_entry_in_map(entries_view(self.trace@), i as int);
                }
                Some(&self.trace[i].1)
            },
            None => None,
        }
    }

    /// This data flow with one more node, which writes `output`. The error
    /// where `output` is written already or where the node reads a set
    /// that no node of this data flow writes.
    pub fn with(self, output: UniqueSet, node: TraceNode) -> (r: Result<Self, PlanError>)
        ensures
            self.inv(),
            r matches Ok(trace) ==> trace.inv(),
            match r {
                Ok(trace) => trace.entries() == self.entries().push((output, node@))
                    && !self@.contains_key(output) && node@.reads().subset_of(self@.dom())
                    && trace@ == self@.insert(output, node@),
                Err(PlanError::Rewritten(id)) => id == output && self@.contains_key(output),
                Err(PlanError::Unsatisfiable(id)) => !self@.contains_key(output)
                    && node@.reads().contains(id) && !self@.contains_key(id),
            },
    {
        proof {
            use_type_invariant(&self);
        }
        if self.position(output).is_some() {
            return Err(PlanError::Rewritten(output));
        }
        let reads = node.reads();
        let n = reads.len();
        let mut i: usize = 0;
        while i < n
            invariant
                i <= n,
                n == reads.ids().len(),
                reads@ == node@.reads(),
                self.inv(),
                !self@.contains_key(output),
                forall|j: int| 0 <= j < i ==> self@.contains_key(reads.ids()[j]),
            decreases n - i,
        {
            let id = reads.get(i);
            if self.position(id).is_none() {
                return Err(PlanError::Unsatisfiable(id));
            }
            i = i + 1;
        }
        let ghost before = entries_view(self.trace@);
        let ghost added = node@;
        proof {
            reads.lemma_ids();
            assert forall|x: UniqueSet| added.reads().contains(x) implies self@.contains_key(
                x,
            ) by {
                let j = choose|j: int| 0 <= j < reads.ids().len() && reads.ids()[j] == x;
            }
        }
        let mut trace = self.trace;
        trace.push((output, node));
        proof {
            let after = entries_view(trace@);
            assert(after =~= before.push((output, added)));
            assert forall|i: int, j: int| 0 <= i < j < after.len() implies (#[trigger] after[i]).0
                != (#[trigger] after[j]).0 by {
                if j == before.len() {
                    assert(before[i].0 != output);
                } else {
                    assert(before[i].0 != before[j].0);
                }
            }
            assert forall|j: int, x: UniqueSet|
                0 <= j < after.len() && #[trigger] after[j].1.reads().contains(
                    x,
                ) implies written_before(after, j, x) by {
                if j == before.len() {
                    let p = choose|p: int|
                        0 <= p < before.len() && p < before.len() && #[trigger] before[p].0 == x;
                    assert(after[p].0 == x);
                } else {
                    assert(before[j].1.reads().contains(x));
                    let p = choose|p: int| 0 <= p < j && p < before.len() && #[trigger] before[p].0
                        == x;
                    assert(after[p].0 == x);
                }
            }
        }
        let r = Trace { trace };
        proof {
            let after = entries_view(r.trace@);
            assert forall|id: UniqueSet|
                r@.contains_key(id) == self@.insert(output, added).contains_key(id) by {
                if r@.contains_key(id) {
                    let p = choose|p: int|
                        0 <= p < after.len() && p < after.len() && #[trigger] after[p].0 == id;
                    if p < before.len() {
                        assert(before[p].0 == id);
                    }
                }
                if self@.contains_key(id) {
                    let p = choose|p: int|
                        0 <= p < before.len() && p < before.len() && #[trigger] before[p].0
                            == id;
                    assert(after[p].0 == id);
                }
                if id == output {
                    assert(after[before.len() as int].0 == id);
                }
            }
            assert forall|id: UniqueSet| r@.contains_key(id) implies r@[id] == self@.insert(
                output,
                added,
            )[id] by {
                let p = position_of(after, id);
                assert(0 <= p < after.len() && after[p].0 == id);
                lemma_entry_in_map(after, p);
                if p < before.len() {
                    assert(before[p].0 == id);
                    lemma_entry_in_map(before, p);
                }
            }
            assert(r@ =~= self@.insert(output, added));
        }
        Ok(r)
    }

    /// The data flow of the given nodes, or why they are none: each must
    /// write a set of its own and read only sets that nodes before it
    /// write.
    pub fn new(trace: Vec<(UniqueSet, TraceNode)>) -> (r: Result<Self, PlanError>)
        ensures
            r is Ok <==> well_ordered(entries_view(trace@)),
            r matches Ok(made) ==> made.entries() == entries_view(trace@),
            r matches Err(error) ==> exists|n: int|
                first_fault(entries_view(trace@), n, error),
    {
        let ghost given = entries_view(trace@);
        let ghost nodes = trace@;
        let mut result = Trace::empty();
        for entry in it: trace
            invariant
                it.seq() == nodes,
                given == entries_view(nodes),
                result.entries() == given.subrange(0, it.index() as int),
                result.inv(),
        {
            let ghost done = it.index() as int;
            let ghost before = result;
            let (output, node) = entry;
            proof {
                before.lemma_entries();
                assert(given[done] == (output, node@));
            }
            match result.with(output, node) {
                Ok(next) => {
                    result = next;
                    proof {
                        use_type_invariant(&result);
                        assert(given.subrange(0, done + 1) =~= given.subrange(0, done).push(
                            given[done],
                        ));
                    }
                },
                Err(PlanError::Rewritten(id)) => {
                    proof {
                        let p = choose|p: int|
                            0 <= p < done && p < before.entries().len()
                                && #[trigger] before.entries()[p].0 == id;
                        assert(given[p].0 == id);
                        assert(first_fault(given, done, PlanError::Rewritten(id)));
                        if well_ordered(given) {
                            assert(given[p].0 != given[done].0);
                        }
                    }
                    return Err(PlanError::Rewritten(id));
                },
                Err(PlanError::Unsatisfiable(id)) => {
                    proof {
                        if written_before(given, done, id) {
                            let p = choose|p: int|
                                0 <= p < done && p < given.len() && #[trigger] given[p].0 == id;
                            assert(before.entries()[p].0 == id);
                        }
                        if written_before(given, done, output) {
                            let p = choose|p: int|
                                0 <= p < done && p < given.len() && #[trigger] given[p].0
                                    == output;
                            assert(before.entries()[p].0 == output);
                        }
                        assert(first_fault(given, done, PlanError::Unsatisfiable(id)));
                        if well_ordered(given) {
                            assert(given[done].1.reads().contains(id));
                            assert(written_before(given, done, id));
                        }
                    }
                    return Err(PlanError::Unsatisfiable(id));
                },
            }
        }
        proof {
            assert(given.subrange(0, given.len() as int) =~= given);
            result.lemma_entries();
        }
        Ok(result)
    }
}

impl Trace {
    /// For each position, whether the node there is needed for one of the
    /// sets `from`.
    pub fn needed_flags(&self, from: &UniqueSets) -> (flags: Vec<bool>)
        ensures
            flags@.len() == self.entries().len(),
            forall|j: int| 0 <= j < flags@.len() ==> flags@[j] == needed(self.entries(), from@, j),
    {
        let n = self.len();
        let ghost entries = self.entries();
        let ghost roots = from@;
        proof {
            self.lemma_entries();
        }
        let mut flags: Vec<bool> = Vec::new();
        let mut j: usize = 0;
        while j < n
            invariant
                j <= n,
                flags@.len() == j,
            decreases n - j,
        {
            flags.push(false);
            j = j + 1;
        }
        let mut j = n;
        while j > 0
            invariant
                j <= n,
                n == self.entries().len(),
                entries == self.entries(),
                self.inv(),
                roots == from@,
                flags@.len() == n,
                forall|k: int| j <= k < n ==> flags@[k] == needed(entries, roots, k),
            decreases j,
        {
            j = j - 1;
            let key = self.key_at(j);
            let mut flag = from.contains(key);
            proof {
                if flag {
                    lemma_root_needed(entries, roots, j as int);
                }
            }
            let mut k = j + 1;
            while !flag && k < n
                invariant
                    j < k <= n,
                    n == self.entries().len(),
                    entries == self.entries(),
                    flags@.len() == n,
                    key == entries[j as int].0,
                    forall|m: int| j < m < n ==> flags@[m] == needed(entries, roots, m),
                    flag ==> needed(entries, roots, j as int),
                    !flag ==> !roots.contains(entries[j as int].0),
                    !flag ==> forall|m: int|
                        j < m < k ==> !(needed(entries, roots, m) && entries[m].1.reads().contains(
                            key,
                        )),
                decreases n - k + (if flag { 0int } else { 1int }),
            {
                if flags[k] && self.node_at(k).reads().contains(key) {
                    proof {
                        lemma_read_needed(entries, roots, k as int, j as int);
                    }
                    flag = true;
                }
                k = k + 1;
            }
            proof {
                if flag != needed(entries, roots, j as int) {
                    lemma_needed_cases(entries, roots, j as int);
                    let m = choose|m: int|
                        0 <= m < entries.len() && #[trigger] needed(entries, roots, m)
                            && entries[m].1.reads().contains(entries[j as int].0);
                    self.lemma_entries();
                    lemma_reads_earlier(entries, m, j as int);
                }
            }
            flags.set(j, flag);
        }
        flags
    }

    /// The sets that outputs write.
    pub fn output_nodes(&self) -> (r: UniqueSets)
        ensures
            r@ == output_keys(self.entries()),
    {
        let n = self.len();
        let ghost entries = self.entries();
        let mut r = UniqueSets::new();
        let mut j: usize = 0;
        while j < n
            invariant
                j <= n,
                n == self.entries().len(),
                entries == self.entries(),
                forall|id: UniqueSet|
                    r@.contains(id) <==> exists|m: int|
                        0 <= m < j && #[trigger] entries[m].0 == id
                            && entries[m].1.process is Output,
            decreases n - j,
        {
            let ghost before = r@;
            if self.node_at(j).process.is_output() {
                r.insert(self.key_at(j));
            }
            j = j + 1;
            assert forall|id: UniqueSet|
                r@.contains(id) <==> exists|m: int|
                    0 <= m < j && #[trigger] entries[m].0 == id
                        && entries[m].1.process is Output by {
                if before.contains(id) {
                    let m = choose|m: int|
                        0 <= m < j - 1 && #[trigger] entries[m].0 == id
                            && entries[m].1.process is Output;
                    assert(0 <= m < j && entries[m].0 == id && entries[m].1.process is Output);
                }
                if entries[j - 1].1.process is Output && id == entries[j - 1].0 {
                    assert(0 <= j - 1 < j && entries[j - 1].0 == id);
                }
                if exists|m: int|
                    0 <= m < j && #[trigger] entries[m].0 == id
                        && entries[m].1.process is Output {
                    let m = choose|m: int|
                        0 <= m < j && #[trigger] entries[m].0 == id
                            && entries[m].1.process is Output;
                    if m < j - 1 {
                        assert(0 <= m < j - 1 && entries[m].0 == id
                            && entries[m].1.process is Output);
                    }
                }
            }
        }
        assert(r@ =~= output_keys(entries));
        r
    }

    /// The sets that are needed for an output: every set that is reached
    /// from an output by going from a node to the sets it reads.
    pub fn trace_back_from_outputs(&self) -> (r: UniqueSets)
        ensures
            r@ == needed_keys(self.entries(), output_keys(self.entries())),
    {
        let outputs = self.output_nodes();
        self.trace_back_from(&outputs)
    }

    /// The sets that are needed for the sets `from`: every set that is
    /// reached from one of them by going from a node to the sets it
    /// reads.
    pub fn trace_back_from(&self, from: &UniqueSets) -> (r: UniqueSets)
        ensures
            r@ == needed_keys(self.entries(), from@),
    {
        let flags = self.needed_flags(from);
        let n = self.len();
        let ghost entries = self.entries();
        let ghost roots = from@;
        let mut r = UniqueSets::new();
        let mut j: usize = 0;
        while j < n
            invariant
                j <= n,
                n == self.entries().len(),
                entries == self.entries(),
                flags@.len() == n,
                forall|m: int| 0 <= m < n ==> flags@[m] == needed(entries, roots, m),
                forall|id: UniqueSet|
                    r@.contains(id) <==> exists|m: int|
                        0 <= m < j && #[trigger] needed(entries, roots, m) && entries[m].0 == id,
            decreases n - j,
        {
            let ghost before = r@;
            if flags[j] {
                r.insert(self.key_at(j));
            }
            j = j + 1;
            assert forall|id: UniqueSet|
                r@.contains(id) <==> exists|m: int|
                    0 <= m < j && #[trigger] needed(entries, roots, m) && entries[m].0 == id by {
                if before.contains(id) {
                    let m = choose|m: int|
                        0 <= m < j - 1 && #[trigger] needed(entries, roots, m) && entries[m].0 == id;
                    assert(0 <= m < j && needed(entries, roots, m) && entries[m].0 == id);
                }
                if flags@[j - 1] && id == entries[j - 1].0 {
                    assert(0 <= j - 1 < j && needed(entries, roots, j - 1) && entries[j - 1].0 == id);
                }
                if exists|m: int|
                    0 <= m < j && #[trigger] needed(entries, roots, m) && entries[m].0 == id {
                    let m = choose|m: int|
                        0 <= m < j && #[trigger] needed(entries, roots, m) && entries[m].0 == id;
                    if m < j - 1 {
                        assert(0 <= m < j - 1 && needed(entries, roots, m) && entries[m].0 == id);
                    }
                }
            }
        }
        assert(r@ =~= needed_keys(entries, roots));
        r
    }
}

impl Clone for Trace {
    fn clone(&self) -> (r: Self)
        ensures
            r.entries() == self.entries(),
            r@ == self@,
    {
        proof {
            use_type_invariant(self);
        }
        let mut trace: Vec<(UniqueSet, TraceNode)> = Vec::new();
        let mut i: usize = 0;
        while i < self.trace.len()
            invariant
                i <= self.trace@.len(),
                trace@.len() == i,
                forall|j: int|
                    0 <= j < i ==> trace@[j].0 == self.trace@[j].0 && trace@[j].1@
                        == self.trace@[j].1@,
            decreases self.trace@.len() - i,
        {
            trace.push((self.trace[i].0, self.trace[i].1.clone()));
            i = i + 1;
        }
        assert(entries_view(trace@) =~= entries_view(self.trace@));
        Trace { trace }
    }
}

} // verus!
