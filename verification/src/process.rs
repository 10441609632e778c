//! The work of one scan of the data: what a worker does with each item, and
//! how the results of the workers come together.

use std::sync::Arc;
use vstd::prelude::*;
use crate::filter::{all_match, eval_filters};
use crate::item::{Item, ItemKey, ItemView};
use crate::ql::statement::{Filter, FilterView, Statement, clone_filters, filters_view};
use crate::set::{Bindings, Contents, ItemSet, NamedSets, inserted, merged};
use crate::trace_node::{UniqueSet, UniqueSets};

verus! {

/// The items as mathematical values.
pub open spec fn items_view(items: Seq<Item>) -> Seq<ItemView> {
    items.map_values(|item: Item| item@)
}

/// `start` and what a chain of filters selects from the given items: every
/// item of which each filter holds, and of several items with one identity
/// the first.
pub open spec fn selected_into(
    start: Contents,
    filters: Seq<FilterView>,
    sets: Bindings,
    items: Seq<ItemView>,
) -> Contents
    decreases items.len(),
{
    if items.len() == 0 {
        start
    } else {
        let before = selected_into(start, filters, sets, items.drop_last());
        if all_match(filters, items.last(), sets) {
            inserted(before, items.last())
        } else {
            before
        }
    }
}

/// What a chain of filters selects from the given items.
pub open spec fn selected(filters: Seq<FilterView>, sets: Bindings, items: Seq<ItemView>) -> Contents {
    selected_into(Map::empty(), filters, sets, items)
}

/// Sets under their identities, in the order in which they were made.
pub type Made = Seq<(UniqueSet, Contents)>;

/// Sets under their identities as mathematical values.
pub open spec fn made_view(made: Seq<(UniqueSet, ItemSet)>) -> Made {
    made.map_values(|e: (UniqueSet, ItemSet)| (e.0, e.1@))
}

/// The union of those sets whose identity is among `inputs`, taken in the
/// order of the list.
pub open spec fn union_of(made: Made, inputs: Set<UniqueSet>) -> Contents
    decreases made.len(),
{
    if made.len() == 0 {
        Map::empty()
    } else if inputs.contains(made.last().0) {
        merged(union_of(made.drop_last(), inputs), made.last().1)
    } else {
        union_of(made.drop_last(), inputs)
    }
}

/// The set made under the identity `id`; the empty set where none was.
pub open spec fn set_of(made: Made, id: UniqueSet) -> Contents {
    union_of(made, set![id])
}

/// The union of those of the first `upto` sets whose identity is among
/// `inputs`.
pub fn union_sets(made: &Vec<(UniqueSet, ItemSet)>, upto: usize, inputs: &UniqueSets) -> (r: ItemSet)
    requires
        upto <= made@.len(),
    ensures
        r@ == union_of(made_view(made@).subrange(0, upto as int), inputs@),
{
    let ghost views = made_view(made@);
    let mut result = ItemSet::empty();
    let mut i: usize = 0;
    assert(views.subrange(0, 0) =~= Seq::<(UniqueSet, Contents)>::empty());
    while i < upto
        invariant
            i <= upto <= made@.len(),
            views == made_view(made@),
            result@ == union_of(views.subrange(0, i as int), inputs@),
        decreases upto - i,
    {
        proof {
            assert(views.subrange(0, i + 1).drop_last() =~= views.subrange(0, i as int));
            assert(views.subrange(0, i + 1).last() == (made@[i as int].0, made@[i as int].1@));
        }
        if inputs.contains(made[i].0) {
            result.absorb(made[i].1.clone());
        }
        i = i + 1;
    }
    result
}

/// The set made under the identity `id` among the first `upto` sets; the
/// empty set where none was.
pub fn find_set(made: &Vec<(UniqueSet, ItemSet)>, upto: usize, id: UniqueSet) -> (r: ItemSet)
    requires
        upto <= made@.len(),
    ensures
        r@ == set_of(made_view(made@).subrange(0, upto as int), id),
{
    let mut only = UniqueSets::new();
    only.insert(id);
    assert(only@ =~= set![id]);
    union_sets(made, upto, &only)
}

/// One query of a pass: the identity of the set that it makes, its chain
/// of filters, and the sets that the filters refer to by name.
pub struct QueryNode {
    pub id: UniqueSet,
    pub filters: Vec<Filter>,
    pub sets: Arc<NamedSets>,
}

/// A query of a pass as a mathematical value.
pub struct QueryNodeView {
    pub id: UniqueSet,
    pub filters: Seq<FilterView>,
    pub sets: Bindings,
}

impl View for QueryNode {
    type V = QueryNodeView;

    open spec fn view(&self) -> QueryNodeView {
        QueryNodeView { id: self.id, filters: filters_view(self.filters@), sets: (*self.sets)@ }
    }
}

impl Clone for QueryNode {
    fn clone(&self) -> (r: Self)
        ensures
            r@ == self@,
    {
        QueryNode { id: self.id, filters: clone_filters(&self.filters), sets: self.sets.clone() }
    }
}

/// The queries of a pass as mathematical values.
pub open spec fn nodes_view(nodes: Seq<QueryNode>) -> Seq<QueryNodeView> {
    nodes.map_values(|node: QueryNode| node@)
}

/// The identity under which a processor for a lone statement keeps its
/// set: no data flow gives it out.
pub open spec fn lone_set() -> UniqueSet {
    UniqueSet { id: 0 }
}

/// The query node of a lone query statement: it refers to no sets.
pub open spec fn lone_node(filters: Seq<Filter>) -> QueryNodeView {
    QueryNodeView { id: lone_set(), filters: filters_view(filters), sets: Map::empty() }
}

/// The state of a processor as a mathematical value: for each query of
/// the pass the items selected so far.
pub type ProcessorView = Seq<(QueryNodeView, Contents)>;

/// The state of a processor that has selected nothing yet.
pub open spec fn fresh(nodes: Seq<QueryNodeView>) -> ProcessorView {
    nodes.map_values(|node: QueryNodeView| (node, Map::<ItemKey, ItemView>::empty()))
}

/// The state of a processor after an item.
pub open spec fn processed(state: ProcessorView, item: ItemView) -> ProcessorView {
    state.map_values(
        |entry: (QueryNodeView, Contents)|
            (
                entry.0,
                if all_match(entry.0.filters, item, entry.0.sets) {
                    inserted(entry.1, item)
                } else {
                    entry.1
                },
            ),
    )
}

/// The state of a processor after the given items, one after the other.
pub open spec fn processed_all(state: ProcessorView, items: Seq<ItemView>) -> ProcessorView {
    state.map_values(
        |entry: (QueryNodeView, Contents)|
            (entry.0, selected_into(entry.1, entry.0.filters, entry.0.sets, items)),
    )
}

/// What a processor hands back: the set of each query under its
/// identity.
pub open spec fn digested(state: ProcessorView) -> Made {
    state.map_values(|entry: (QueryNodeView, Contents)| (entry.0.id, entry.1))
}

/// The work of one worker in one pass: for each query of the pass the
/// items that it has selected so far. No worker shares its processor.
pub struct Processor {
    nodes: Vec<(QueryNode, ItemSet)>,
}

impl View for Processor {
    type V = ProcessorView;

    closed spec fn view(&self) -> ProcessorView {
        self.nodes@.map_values(|entry: (QueryNode, ItemSet)| (entry.0@, entry.1@))
    }
}

impl Processor {
    /// A processor for a lone query, which has selected nothing yet; none
    /// for a statement of another kind.
    pub fn from_statement(statement: Statement) -> (r: Option<Self>)
        ensures
            match r {
                Some(processor) => statement matches Statement::Query { filters } && processor@
                    == fresh(seq![lone_node(filters@)]),
                None => !(statement is Query),
            },
    {
        match ProcessorFactory::from_statement(statement) {
            Some(factory) => Some(factory.generate()),
            None => None,
        }
    }

    /// Selects `item`, for each query of which every filter holds of it.
    pub fn process(&mut self, item: Item)
        ensures
            final(self)@ == processed(old(self)@, item@),
    {
        let ghost before = self@;
        let n = self.nodes.len();
        let mut k: usize = 0;
        while k < n
            invariant
                k <= n,
                n == self.nodes@.len(),
                before.len() == n,
                forall|j: int| 0 <= j < k ==> self@[j] == processed(before, item@)[j],
                forall|j: int| k <= j < n ==> self@[j] == before[j],
            decreases n - k,
        {
            let ghost now = self@;
            let ghost stored = self.nodes@;
            if eval_filters(&self.nodes[k].0.filters, &item, &self.nodes[k].0.sets) {
                let (node, mut results) = self.nodes.remove(k);
                results.insert(item.clone());
                let ghost entry = (node, results);
                self.nodes.insert(k, (node, results));
                assert(self.nodes@ =~= stored.update(k as int, entry));
            }
            assert(self@.len() == n);
            assert(self@[k as int] == processed(before, item@)[k as int]);
            assert forall|j: int| 0 <= j < k implies self@[j] == processed(before, item@)[j] by {
                assert(self@[j] == now[j]);
            }
            assert forall|j: int| k < j < n implies self@[j] == before[j] by {
                assert(self@[j] == now[j]);
            }
            k = k + 1;
        }
        assert(self@ =~= processed(before, item@));
    }

    /// Processes the given items one after the other.
    pub fn process_all(&mut self, items: &Vec<Item>)
        ensures
            final(self)@ == processed_all(old(self)@, items_view(items@)),
    {
        let ghost views = items_view(items@);
        let ghost before = self@;
        let mut i: usize = 0;
        assert(views.subrange(0, 0) =~= Seq::<ItemView>::empty());
        assert(self@ =~= processed_all(before, views.subrange(0, 0)));
        while i < items.len()
            invariant
                i <= items@.len(),
                views == items_view(items@),
                self@ == processed_all(before, views.subrange(0, i as int)),
            decreases items@.len() - i,
        {
            proof {
                assert(views.subrange(0, i + 1).drop_last() =~= views.subrange(0, i as int));
                assert(views.subrange(0, i + 1).last() == items@[i as int]@);
            }
            let ghost now = self@;
            self.process(items[i].clone());
            i = i + 1;
            assert(self@ =~= processed_all(before, views.subrange(0, i as int)));
        }
        assert(views.subrange(0, i as int) =~= views);
    }

    /// The set of each query under its identity.
    pub fn digest(self) -> (r: Vec<(UniqueSet, ItemSet)>)
        ensures
            made_view(r@) == digested(self@),
    {
        let ghost state = self@;
        let ghost given = self.nodes@;
        let mut sets: Vec<(UniqueSet, ItemSet)> = Vec::new();
        for entry in it: self.nodes
            invariant
                it.seq() == given,
                state == given.map_values(|entry: (QueryNode, ItemSet)| (entry.0@, entry.1@)),
                sets@.len() == it.index(),
                forall|j: int|
                    0 <= j < sets@.len() ==> sets@[j].0 == given[j].0.id && sets@[j].1@
                        == given[j].1@,
        {
            let (node, results) = entry;
            sets.push((node.id, results));
        }
        assert(made_view(sets@) =~= digested(state));
        sets
    }
}

/// What a pass evaluates in its scan: the queries of the pass. It makes
/// the processors of the workers.
pub struct ProcessorFactory {
    nodes: Vec<QueryNode>,
}

impl ProcessorFactory {
    /// The queries of the pass.
    pub closed spec fn nodes(self) -> Seq<QueryNodeView> {
        nodes_view(self.nodes@)
    }

    /// A factory for the given queries.
    pub fn new(nodes: Vec<QueryNode>) -> (r: Self)
        ensures
            r.nodes() == nodes_view(nodes@),
    {
        ProcessorFactory { nodes }
    }

    /// A factory for a lone query; none for a statement of another kind.
    pub fn from_statement(statement: Statement) -> (r: Option<Self>)
        ensures
            match r {
                Some(factory) => statement matches Statement::Query { filters } && factory.nodes()
                    == seq![lone_node(filters@)],
                None => !(statement is Query),
            },
    {
        match statement {
            Statement::Query { filters } => {
                let mut nodes: Vec<QueryNode> = Vec::new();
                let ghost lone = lone_node(filters@);
                nodes.push(
                    QueryNode { id: UniqueSet::new(0), filters, sets: Arc::new(NamedSets::new()) },
                );
                assert(nodes_view(nodes@) =~= seq![lone]);
                Some(ProcessorFactory { nodes })
            },
            _ => None,
        }
    }

    /// The number of queries of the pass.
    pub fn len(&self) -> (n: usize)
        ensures
            n == self.nodes().len(),
    {
        self.nodes.len()
    }

    /// A processor of its own for one worker, which has selected nothing
    /// yet.
    pub fn generate(&self) -> (r: Processor)
        ensures
            r@ == fresh(self.nodes()),
    {
        let mut nodes: Vec<(QueryNode, ItemSet)> = Vec::new();
        let mut i: usize = 0;
        while i < self.nodes.len()
            invariant
                i <= self.nodes@.len(),
                nodes@.len() == i,
                forall|j: int|
                    0 <= j < i ==> nodes@[j].0@ == self.nodes@[j]@ && nodes@[j].1@ == Map::<
                        ItemKey,
                        ItemView,
                    >::empty(),
            decreases self.nodes@.len() - i,
        {
            nodes.push((self.nodes[i].clone(), ItemSet::empty()));
            i = i + 1;
        }
        let r = Processor { nodes };
        assert(r@ =~= fresh(self.nodes()));
        r
    }
}

/// What the results of the workers come together to: for each query of
/// the first worker's result, in its order, the union of the sets that the
/// workers hold for it, taken from the first worker to the last.
pub open spec fn merged_digests(parts: Seq<Made>) -> Made {
    if parts.len() == 0 {
        Seq::empty()
    } else {
        parts[0].map_values(|entry: (UniqueSet, Contents)| (entry.0, merged_for(parts, entry.0)))
    }
}

/// The union of the sets that the workers hold for the query `id`.
pub open spec fn merged_for(parts: Seq<Made>, id: UniqueSet) -> Contents
    decreases parts.len(),
{
    if parts.len() == 0 {
        Map::empty()
    } else {
        merged(merged_for(parts.drop_last(), id), set_of(parts.last(), id))
    }
}

/// The results of the workers as mathematical values.
pub open spec fn parts_view(parts: Seq<Vec<(UniqueSet, ItemSet)>>) -> Seq<Made> {
    parts.map_values(|part: Vec<(UniqueSet, ItemSet)>| made_view(part@))
}

/// Merges the results of the workers by the identity of the sets.
pub fn merge_digests(parts: &Vec<Vec<(UniqueSet, ItemSet)>>) -> (r: Vec<(UniqueSet, ItemSet)>)
    ensures
        made_view(r@) == merged_digests(parts_view(parts@)),
{
    let ghost views = parts_view(parts@);
    let mut result: Vec<(UniqueSet, ItemSet)> = Vec::new();
    if parts.len() == 0 {
        assert(made_view(result@) =~= merged_digests(views));
        return result;
    }
    let first = &parts[0];
    assert(views[0] == made_view(first@));
    let mut k: usize = 0;
    while k < first.len()
        invariant
            k <= first@.len(),
            views == parts_view(parts@),
            parts@.len() > 0,
            first@ == parts@[0]@,
            result@.len() == k,
            forall|j: int|
                0 <= j < k ==> result@[j].0 == first@[j].0 && result@[j].1@ == merged_for(
                    views,
                    first@[j].0,
                ),
        decreases first@.len() - k,
    {
        let id = first[k].0;
        let mut set = ItemSet::empty();
        let mut w: usize = 0;
        assert(views.subrange(0, 0) =~= Seq::<Made>::empty());
        while w < parts.len()
            invariant
                w <= parts@.len(),
                views == parts_view(parts@),
                set@ == merged_for(views.subrange(0, w as int), id),
            decreases parts@.len() - w,
        {
            proof {
                assert(views.subrange(0, w + 1).drop_last() =~= views.subrange(0, w as int));
                assert(views.subrange(0, w + 1).last() == made_view(parts@[w as int]@));
                assert(made_view(parts@[w as int]@).subrange(0, parts@[w as int]@.len() as int)
                    =~= made_view(parts@[w as int]@));
            }
            let part = &parts[w];
            set.absorb(find_set(part, part.len(), id));
            w = w + 1;
        }
        assert(views.subrange(0, w as int) =~= views);
        result.push((id, set));
        k = k + 1;
    }
    assert(made_view(result@) =~= merged_digests(views));
    result
}

/// The worker that takes the next blob when blobs are dealt out in turn:
/// the one after `worker`, and the first one after the last.
pub fn next_worker(worker: usize, worker_count: usize) -> (r: usize)
    requires
        worker < worker_count,
    ensures
        r == (worker + 1) % (worker_count as int),
        r < worker_count,
{
    if worker + 1 >= worker_count {
        proof {
            vstd::arithmetic::div_mod::lemma_mod_self_0(worker_count as int);
        }
        0
    } else {
        proof {
            vstd::arithmetic::div_mod::lemma_small_mod((worker + 1) as nat, worker_count as nat);
        }
        worker + 1
    }
}

/// An item is selected exactly when every filter holds of it: the
/// selection holds an identity exactly when some item of that identity
/// passes every filter, and it holds only such items.
pub proof fn lemma_selected(
    filters: Seq<FilterView>,
    sets: Bindings,
    items: Seq<ItemView>,
    key: ItemKey,
)
    ensures
        selected(filters, sets, items).contains_key(key) <==> exists|i: int|
            0 <= i < items.len() && (#[trigger] items[i]).key() == key && all_match(
                filters,
                items[i],
                sets,
            ),
        selected(filters, sets, items).contains_key(key) ==> selected(filters, sets, items)[key].key()
            == key && all_match(filters, selected(filters, sets, items)[key], sets),
    decreases items.len(),
{
    if items.len() > 0 {
        let rest = items.drop_last();
        lemma_selected(filters, sets, rest, key);
        let last = items.last();
        if selected(filters, sets, rest).contains_key(key) {
            let i = choose|i: int|
                0 <= i < rest.len() && (#[trigger] rest[i]).key() == key && all_match(
                    filters,
                    rest[i],
                    sets,
                );
            assert(items[i].key() == key && all_match(filters, items[i], sets));
        }
        if last.key() == key && all_match(filters, last, sets) {
            assert(items[items.len() - 1] == last);
        }
        if exists|i: int|
            0 <= i < items.len() && (#[trigger] items[i]).key() == key && all_match(
                filters,
                items[i],
                sets,
            ) {
            let i = choose|i: int|
                0 <= i < items.len() && (#[trigger] items[i]).key() == key && all_match(
                    filters,
                    items[i],
                    sets,
                );
            if i < rest.len() {
                assert(rest[i].key() == key && all_match(filters, rest[i], sets));
            }
        }
    }
}

/// What a chain of filters selects is the same whether the items are
/// scanned in one piece or in two pieces whose results are merged.
pub proof fn lemma_selected_split(
    filters: Seq<FilterView>,
    sets: Bindings,
    first: Seq<ItemView>,
    second: Seq<ItemView>,
)
    ensures
        selected(filters, sets, first + second) == merged(
            selected(filters, sets, first),
            selected(filters, sets, second),
        ),
    decreases second.len(),
{
    if second.len() == 0 {
        assert(first + second =~= first);
        assert(merged(selected(filters, sets, first), Map::empty()) =~= selected(
            filters,
            sets,
            first,
        ));
    } else {
        let all = first + second;
        assert(all.drop_last() =~= first + second.drop_last());
        assert(all.last() == second.last());
        lemma_selected_split(filters, sets, first, second.drop_last());
        let a = selected(filters, sets, first);
        let b = selected(filters, sets, second.drop_last());
        let item = second.last();
        if all_match(filters, item, sets) {
            assert(inserted(merged(a, b), item) =~= merged(a, inserted(b, item)));
        }
    }
}

/// What one scan of the items selects for each of the given queries.
pub open spec fn scanned(nodes: Seq<QueryNodeView>, items: Seq<ItemView>) -> Made {
    digested(processed_all(fresh(nodes), items))
}

/// Whether the queries make sets of different identities.
pub open spec fn distinct_ids(nodes: Seq<QueryNodeView>) -> bool {
    forall|i: int, j: int|
        0 <= i < j < nodes.len() ==> (#[trigger] nodes[i]).id != (#[trigger] nodes[j]).id
}

/// Where no set of a list was made under an identity, the set of that
/// identity is empty.
proof fn lemma_set_of_absent(made: Made, id: UniqueSet)
    requires
        forall|i: int| 0 <= i < made.len() ==> (#[trigger] made[i]).0 != id,
    ensures
        set_of(made, id) == Map::<ItemKey, ItemView>::empty(),
    decreases made.len(),
{
    if made.len() > 0 {
        assert(made[made.len() - 1].0 != id);
        assert forall|i: int| 0 <= i < made.drop_last().len() implies (
        #[trigger] made.drop_last()[i]).0 != id by {
            assert(made[i].0 != id);
        }
        lemma_set_of_absent(made.drop_last(), id);
    }
}

/// Where the sets of a list were made under different identities, the set
/// of an identity is the one that stands under it.
proof fn lemma_set_of_present(made: Made, k: int)
    requires
        0 <= k < made.len(),
        forall|i: int, j: int|
            0 <= i < j < made.len() ==> (#[trigger] made[i]).0 != (#[trigger] made[j]).0,
    ensures
        set_of(made, made[k].0) == made[k].1,
    decreases made.len(),
{
    let id = made[k].0;
    let rest = made.drop_last();
    if k == made.len() - 1 {
        assert forall|i: int| 0 <= i < rest.len() implies (#[trigger] rest[i]).0 != id by {
            assert(made[i].0 != made[k].0);
        }
        lemma_set_of_absent(rest, id);
        assert(merged(Map::<ItemKey, ItemView>::empty(), made[k].1) =~= made[k].1);
    } else {
        assert(made[k].0 != made[made.len() - 1].0);
        assert forall|i: int, j: int| 0 <= i < j < rest.len() implies (#[trigger] rest[i]).0 != (
        #[trigger] rest[j]).0 by {
            assert(made[i].0 != made[j].0);
        }
        assert(rest[k] == made[k]);
        lemma_set_of_present(rest, k);
    }
}

/// A scan of the items in two pieces by two workers, whose results are
/// merged, selects for each query what one scan of all items selects.
pub proof fn lemma_scan_split(
    nodes: Seq<QueryNodeView>,
    first: Seq<ItemView>,
    second: Seq<ItemView>,
)
    requires
        distinct_ids(nodes),
    ensures
        merged_digests(seq![scanned(nodes, first), scanned(nodes, second)]) == scanned(
            nodes,
            first + second,
        ),
{
    let a = scanned(nodes, first);
    let b = scanned(nodes, second);
    let parts = seq![a, b];
    let whole = scanned(nodes, first + second);
    let merged_parts = merged_digests(parts);
    assert(parts[0] == a);
    assert(merged_parts.len() == whole.len());
    assert forall|k: int| 0 <= k < whole.len() implies merged_parts[k] == whole[k] by {
        let node = nodes[k];
        let id = node.id;
        assert(a[k] == (id, selected(node.filters, node.sets, first)));
        assert(b[k] == (id, selected(node.filters, node.sets, second)));
        assert(whole[k] == (id, selected(node.filters, node.sets, first + second)));
        assert forall|i: int, j: int| 0 <= i < j < a.len() implies (#[trigger] a[i]).0 != (
        #[trigger] a[j]).0 by {
            assert(nodes[i].id != nodes[j].id);
        }
        assert forall|i: int, j: int| 0 <= i < j < b.len() implies (#[trigger] b[i]).0 != (
        #[trigger] b[j]).0 by {
            assert(nodes[i].id != nodes[j].id);
        }
        lemma_set_of_present(a, k);
        lemma_set_of_present(b, k);
        lemma_selected_split(node.filters, node.sets, first, second);
        assert(parts.drop_last() =~= seq![a]);
        assert(parts.drop_last().drop_last() =~= Seq::<Made>::empty());
        assert(parts.last() == b);
        assert(seq![a].last() == a);
        reveal_with_fuel(merged_for, 3);
        assert(merged_for(parts, id) == merged(
            merged(Map::<ItemKey, ItemView>::empty(), set_of(a, id)),
            set_of(b, id),
        ));
        assert(merged(Map::<ItemKey, ItemView>::empty(), set_of(a, id)) =~= set_of(a, id));
    }
    assert(merged_parts =~= whole);
}

} // verus!
