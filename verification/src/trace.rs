//! The tracer: from the statements of a script to its data flow.

use vstd::prelude::*;
use crate::process_node::{Process, ProcessView};
use crate::ql::parser::lemma_union_view;
use crate::ql::statement::{
    SetName, Statement, StatementSpec, StatementSpecView, StatementView, names_view, script_view,
};
use crate::ql::statement::{Filter, FilterView, filters_view};
use crate::trace_node::{
    Entries, PlanError, Trace, TraceNode, TraceNodeView, UniqueSet, UniqueSets,
    lemma_names_values, lookup_name, names_of, well_ordered, written_before,
};

verus! {

/// A reference to a set under a name that no earlier statement has
/// bound.
#[derive(Debug, PartialEq, Eq)]
pub struct ResolveError {
    pub name: SetName,
}

/// Why a script has no data flow.
#[derive(Debug, PartialEq, Eq)]
pub enum TraceError {
    /// A statement reads a set, or a filter refers to one, under a name
    /// that is not bound.
    Resolve(ResolveError),
    /// A statement that passes a set on names no input, or more than one.
    ItemInputs,
    /// The statement is of a kind that has no data flow.
    Unsupported,
    /// The script writes more sets than there are identities.
    Exhausted,
}

/// An error of the tracer as a mathematical value.
pub enum TraceErrorView {
    Unbound(Seq<char>),
    ItemInputs,
    Unsupported,
    Exhausted,
}

impl View for TraceError {
    type V = TraceErrorView;

    open spec fn view(&self) -> TraceErrorView {
        match *self {
            TraceError::Resolve(e) => TraceErrorView::Unbound(e.name@),
            TraceError::ItemInputs => TraceErrorView::ItemInputs,
            TraceError::Unsupported => TraceErrorView::Unsupported,
            TraceError::Exhausted => TraceErrorView::Exhausted,
        }
    }
}

/// Because sets can be overwritten by name, we assign unique ids to
/// each output in the data flow graph.
pub struct UniqueSetGenerator {
    pub last: u32,
}

impl UniqueSetGenerator {
    /// A generator that has given out nothing yet.
    pub fn new() -> (r: Self)
        ensures
            r.last == 0,
    {
        UniqueSetGenerator { last: 0 }
    }

    /// The next identity, one above the last; none when all are used.
    pub fn next(&mut self) -> (r: Option<UniqueSet>)
        ensures
            old(self).last < u32::MAX ==> r == Some(UniqueSet { id: (old(self).last + 1) as u32 })
                && final(self).last == old(self).last + 1,
            old(self).last == u32::MAX ==> r is None && final(self).last == old(self).last,
    {
        if self.last == u32::MAX {
            None
        } else {
            self.last += 1;
            Some(UniqueSet::new(self.last))
        }
    }
}

/// The state of the tracer as a mathematical value: the set that each name
/// is bound to, the last identity given out, and the nodes made so far.
pub struct TracerView {
    pub names: Map<Seq<char>, UniqueSet>,
    pub last: u32,
    pub nodes: Entries,
}

/// The result of a step of the tracer: the new state and the set that the
/// step wrote, or the error.
pub type Traced = Result<(TracerView, UniqueSet), TraceErrorView>;

/// The sets that the given names are bound to, or the error for the first
/// name that is not bound.
pub open spec fn resolved(names: Map<Seq<char>, UniqueSet>, inputs: Seq<Seq<char>>) -> Result<
    Set<UniqueSet>,
    TraceErrorView,
>
    decreases inputs.len(),
{
    if inputs.len() == 0 {
        Ok(Set::empty())
    } else {
        match resolved(names, inputs.drop_last()) {
            Err(e) => Err(e),
            Ok(sets) => if names.contains_key(inputs.last()) {
                Ok(sets.insert(names[inputs.last()]))
            } else {
                Err(TraceErrorView::Unbound(inputs.last()))
            },
        }
    }
}

/// The sets that the filters of a query refer to by name, under these
/// names, or the error for the first name that is not bound.
pub open spec fn resolved_filters(names: Map<Seq<char>, UniqueSet>, filters: Seq<FilterView>) -> Result<
    Map<Seq<char>, UniqueSet>,
    TraceErrorView,
>
    decreases filters.len(),
{
    if filters.len() == 0 {
        Ok(Map::empty())
    } else {
        match resolved_filters(names, filters.drop_last()) {
            Err(e) => Err(e),
            Ok(found) => match filters.last() {
                FilterView::Intersection(name) => if names.contains_key(name) {
                    Ok(found.insert(name, names[name]))
                } else {
                    Err(TraceErrorView::Unbound(name))
                },
                _ => Ok(found),
            },
        }
    }
}

/// The state after a node is added that reads `input_sets`, refers to the
/// sets `named_sets` in its filters, and writes a fresh set, to which
/// `output` is bound from then on.
pub open spec fn with_node(
    state: TracerView,
    input_sets: Set<UniqueSet>,
    named_sets: Map<Seq<char>, UniqueSet>,
    process: ProcessView,
    output: Seq<char>,
) -> Traced {
    if state.last == u32::MAX {
        Err(TraceErrorView::Exhausted)
    } else {
        let id = UniqueSet { id: (state.last + 1) as u32 };
        Ok(
            (
                TracerView {
                    names: state.names.insert(output, id),
                    last: (state.last + 1) as u32,
                    nodes: state.nodes.push(
                        (id, TraceNodeView { input_sets, process, named_sets }),
                    ),
                },
                id,
            ),
        )
    }
}

/// The state after a node is added that reads the sets of the given
/// names.
pub open spec fn with_named_node(
    state: TracerView,
    inputs: Seq<Seq<char>>,
    process: ProcessView,
    output: Seq<char>,
) -> Traced {
    match resolved(state.names, inputs) {
        Ok(input_sets) => with_node(state, input_sets, Map::empty(), process, output),
        Err(e) => Err(e),
    }
}

/// The state after one statement is traced, and the set that the statement
/// writes. A query reads no set, and refers to the sets that its filters
/// name. A union reads the sets of its members,
/// which are traced first; a difference likewise, and it keeps which set is
/// the source and which is removed. A recursion and an output read the
/// sets that the statement names. A statement that passes a set on makes
/// no node: it binds its output to the set that it reads.
pub open spec fn traced(state: TracerView, spec: StatementSpecView) -> Traced
    decreases spec, 0nat,
{
    match spec.statement {
        StatementView::Union { members } => match traced_members(
            state,
            members,
            members.len(),
        ) {
            Ok((after, sets)) => with_node(
                after,
                sets.to_set(),
                Map::empty(),
                ProcessView::Union,
                spec.output,
            ),
            Err(e) => Err(e),
        },
        StatementView::Difference { source, remove } => match traced(state, *source) {
            Err(e) => Err(e),
            Ok((first, source_set)) => match traced(first, *remove) {
                Err(e) => Err(e),
                Ok((second, remove_set)) => with_node(
                    second,
                    set![source_set, remove_set],
                    Map::empty(),
                    ProcessView::Difference { source: source_set, remove: remove_set },
                    spec.output,
                ),
            },
        },
        StatementView::Query { filters } => match resolved_filters(state.names, filters) {
            Ok(named_sets) => with_node(
                state,
                Set::empty(),
                named_sets,
                ProcessView::Query { filters },
                spec.output,
            ),
            Err(e) => Err(e),
        },
        StatementView::Recurse(direction) => with_named_node(
            state,
            spec.inputs,
            ProcessView::Recurse(direction),
            spec.output,
        ),
        StatementView::Item => if spec.inputs.len() != 1 {
            Err(TraceErrorView::ItemInputs)
        } else if state.names.contains_key(spec.inputs[0]) {
            Ok(
                (
                    TracerView {
                        names: state.names.insert(spec.output, state.names[spec.inputs[0]]),
                        last: state.last,
                        nodes: state.nodes,
                    },
                    state.names[spec.inputs[0]],
                ),
            )
        } else {
            Err(TraceErrorView::Unbound(spec.inputs[0]))
        },
        StatementView::Output => with_named_node(
            state,
            spec.inputs,
            ProcessView::Output,
            spec.output,
        ),
        StatementView::IsInArea => Err(TraceErrorView::Unsupported),
    }
}

/// The state after the first `count` of the given statements are traced
/// one after the other, and the sets that they write.
pub open spec fn traced_members(state: TracerView, members: Seq<StatementSpecView>, count: nat) -> Result<
    (TracerView, Seq<UniqueSet>),
    TraceErrorView,
>
    decreases members, count,
{
    if count == 0 || count > members.len() {
        Ok((state, Seq::empty()))
    } else {
        match traced_members(state, members, (count - 1) as nat) {
            Err(e) => Err(e),
            Ok((before, sets)) => match traced(before, members[count - 1]) {
                Err(e) => Err(e),
                Ok((after, set)) => Ok((after, sets.push(set))),
            },
        }
    }
}

/// The state in which a tracer starts: no name is bound, no node is
/// made.
pub open spec fn initial() -> TracerView {
    TracerView { names: Map::empty(), last: 0, nodes: Seq::empty() }
}

/// The nodes of the data flow of a script, or why it has none.
pub open spec fn trace_of(script: Seq<StatementSpecView>) -> Result<Entries, TraceErrorView> {
    match traced_members(initial(), script, script.len()) {
        Ok((state, _)) => Ok(state.nodes),
        Err(e) => Err(e),
    }
}

/// What holds of the state of a tracer: every name is bound to a set that
/// a node writes, no node writes a set above the last identity given out,
/// and the nodes are well ordered.
pub open spec fn state_wf(state: TracerView) -> bool {
    &&& forall|name: Seq<char>| #[trigger]
        state.names.contains_key(name) ==> written_before(
            state.nodes,
            state.nodes.len() as int,
            state.names[name],
        )
    &&& forall|i: int| 0 <= i < state.nodes.len() ==> (#[trigger] state.nodes[i]).0.id <= state.last
    &&& well_ordered(state.nodes)
}

/// Whether the nodes `after` are the nodes `before` and further ones.
pub open spec fn extends(after: Entries, before: Entries) -> bool {
    before.len() <= after.len() && after.subrange(0, before.len() as int) == before
}

/// The state of tracing: the set that each name is bound to, and the
/// nodes made so far.
pub struct Tracer {
    // by name while tracing
    named_sets: Vec<(SetName, UniqueSet)>,
    unique_set_generator: UniqueSetGenerator,
    // result by output set
    nodes: Trace,
}

impl View for Tracer {
    type V = TracerView;

    closed spec fn view(&self) -> TracerView {
        TracerView {
            names: names_of(self.named_sets@),
            last: self.unique_set_generator.last,
            nodes: self.nodes.entries(),
        }
    }
}

impl Tracer {
    /// What holds of a tracer between its steps.
    pub open spec fn wf(self) -> bool {
        state_wf(self@)
    }

    /// A tracer at the start of a script.
    pub fn new() -> (r: Self)
        ensures
            r@ == initial(),
            r.wf(),
    {
        let named_sets = Vec::new();
        let unique_set_generator = UniqueSetGenerator::new();
        let nodes = Trace::empty();
        Tracer { named_sets, unique_set_generator, nodes }
    }

    /// The set that `name` is bound to, if it is bound.
    pub fn get_set(&self, name: &SetName) -> (r: Option<UniqueSet>)
        ensures
            match r {
                Some(set) => self@.names.contains_key(name@) && self@.names[name@] == set,
                None => !self@.names.contains_key(name@),
            },
    {
        lookup_name(&self.named_sets, name)
    }

    /// Binds `output_set` to the set `input_set`, which a node of this
    /// tracer writes.
    pub fn link(&mut self, input_set: UniqueSet, output_set: SetName)
        requires
            old(self).wf(),
            written_before(old(self)@.nodes, old(self)@.nodes.len() as int, input_set),
        ensures
            final(self).wf(),
            final(self)@ == (TracerView {
                names: old(self)@.names.insert(output_set@, input_set),
                last: old(self)@.last,
                nodes: old(self)@.nodes,
            }),
    {
        self.named_sets.push((output_set, input_set));
        assert(self.named_sets@.drop_last() == old(self).named_sets@);
    }

    /// The sets that the given names are bound to, or the error for the
    /// first name that is not bound.
    pub fn resolve(&self, inputs: &Vec<SetName>) -> (r: Result<UniqueSets, TraceError>)
        requires
            self.wf(),
        ensures
            match r {
                Ok(sets) => resolved(self@.names, names_view(inputs@)) == Ok::<
                    Set<UniqueSet>,
                    TraceErrorView,
                >(sets@) && forall|x: UniqueSet| #[trigger]
                    sets@.contains(x) ==> written_before(
                        self@.nodes,
                        self@.nodes.len() as int,
                        x,
                    ),
                Err(e) => resolved(self@.names, names_view(inputs@)) == Err::<
                    Set<UniqueSet>,
                    TraceErrorView,
                >(e@),
            },
    {
        let ghost names = names_view(inputs@);
        let mut sets = UniqueSets::new();
        let mut i: usize = 0;
        assert(names.subrange(0, 0) =~= Seq::<Seq<char>>::empty());
        while i < inputs.len()
            invariant
                i <= inputs@.len(),
                names == names_view(inputs@),
                self.wf(),
                resolved(self@.names, names.subrange(0, i as int)) == Ok::<
                    Set<UniqueSet>,
                    TraceErrorView,
                >(sets@),
                forall|x: UniqueSet| #[trigger]
                    sets@.contains(x) ==> written_before(
                        self@.nodes,
                        self@.nodes.len() as int,
                        x,
                    ),
            decreases inputs@.len() - i,
        {
            proof {
                assert(names.subrange(0, i + 1).drop_last() =~= names.subrange(0, i as int));
                assert(names.subrange(0, i + 1).last() == inputs@[i as int]@);
            }
            match self.get_set(&inputs[i]) {
                Some(set) => {
                    sets.insert(set);
                },
                None => {
                    proof {
                        lemma_resolved_error(self@.names, names, i + 1);
                    }
                    return Err(TraceError::Resolve(ResolveError { name: inputs[i].clone() }));
                },
            }
            i = i + 1;
        }
        assert(names.subrange(0, i as int) =~= names);
        Ok(sets)
    }

    /// The sets that the given filters refer to by name, under these
    /// names, or the error for the first name that is not bound.
    pub fn resolve_filters(&self, filters: &Vec<Filter>) -> (r: Result<
        Vec<(SetName, UniqueSet)>,
        TraceError,
    >)
        requires
            self.wf(),
        ensures
            match r {
                Ok(named) => resolved_filters(self@.names, filters_view(filters@)) == Ok::<
                    Map<Seq<char>, UniqueSet>,
                    TraceErrorView,
                >(names_of(named@)) && forall|i: int|
                    0 <= i < named@.len() ==> written_before(
                        self@.nodes,
                        self@.nodes.len() as int,
                        (#[trigger] named@[i]).1,
                    ),
                Err(e) => resolved_filters(self@.names, filters_view(filters@)) == Err::<
                    Map<Seq<char>, UniqueSet>,
                    TraceErrorView,
                >(e@),
            },
    {
        let ghost views = filters_view(filters@);
        let mut named: Vec<(SetName, UniqueSet)> = Vec::new();
        let mut i: usize = 0;
        assert(views.subrange(0, 0) =~= Seq::<FilterView>::empty());
        while i < filters.len()
            invariant
                i <= filters@.len(),
                views == filters_view(filters@),
                self.wf(),
                resolved_filters(self@.names, views.subrange(0, i as int)) == Ok::<
                    Map<Seq<char>, UniqueSet>,
                    TraceErrorView,
                >(names_of(named@)),
                forall|j: int|
                    0 <= j < named@.len() ==> written_before(
                        self@.nodes,
                        self@.nodes.len() as int,
                        (#[trigger] named@[j]).1,
                    ),
            decreases filters@.len() - i,
        {
            proof {
                assert(views.subrange(0, i + 1).drop_last() =~= views.subrange(0, i as int));
                assert(views.subrange(0, i + 1).last() == filters@[i as int]@);
            }
            match &filters[i] {
                Filter::Intersection(name) => match self.get_set(name) {
                    Some(set) => {
                        let ghost before = named@;
                        named.push((name.clone(), set));
                        assert(named@.drop_last() == before);
                    },
                    None => {
                        proof {
                            lemma_resolved_filters_error(self@.names, views, i + 1);
                        }
                        return Err(TraceError::Resolve(ResolveError { name: name.clone() }));
                    },
                },
                _ => {},
            }
            i = i + 1;
        }
        assert(views.subrange(0, i as int) =~= views);
        Ok(named)
    }

    /// Adds a node that reads the sets of the given names and writes a
    /// fresh set, to which `output` is bound from then on.
    pub fn add_node(&mut self, inputs: &Vec<SetName>, process: Process, output: SetName) -> (r:
        Result<UniqueSet, TraceError>)
        requires
            old(self).wf(),
        ensures
            final(self).wf(),
            extends(final(self)@.nodes, old(self)@.nodes),
            match r {
                Ok(id) => with_named_node(old(self)@, names_view(inputs@), process@, output@)
                    == Ok::<(TracerView, UniqueSet), TraceErrorView>((final(self)@, id))
                    && written_before(final(self)@.nodes, final(self)@.nodes.len() as int, id),
                Err(e) => with_named_node(old(self)@, names_view(inputs@), process@, output@)
                    == Err::<(TracerView, UniqueSet), TraceErrorView>(e@),
            },
    {
        match self.resolve(inputs) {
            Ok(input_sets) => self.add_node_with_sets(input_sets, Vec::new(), process, output),
            Err(e) => {
                assert(self@.nodes.subrange(0, self@.nodes.len() as int) =~= self@.nodes);
                Err(e)
            },
        }
    }

    /// Adds a node that reads `input_sets` and refers to `named_sets` in
    /// its filters, all of which nodes of this tracer write, and writes a
    /// fresh set, to which `output` is bound from then on.
    pub fn add_node_with_sets(
        &mut self,
        input_sets: UniqueSets,
        named_sets: Vec<(SetName, UniqueSet)>,
        process: Process,
        output: SetName,
    ) -> (r: Result<UniqueSet, TraceError>)
        requires
            old(self).wf(),
            forall|x: UniqueSet| #[trigger]
                input_sets@.contains(x) ==> written_before(
                    old(self)@.nodes,
                    old(self)@.nodes.len() as int,
                    x,
                ),
            forall|i: int|
                0 <= i < named_sets@.len() ==> written_before(
                    old(self)@.nodes,
                    old(self)@.nodes.len() as int,
                    (#[trigger] named_sets@[i]).1,
                ),
        ensures
            final(self).wf(),
            extends(final(self)@.nodes, old(self)@.nodes),
            match r {
                Ok(id) => with_node(
                    old(self)@,
                    input_sets@,
                    names_of(named_sets@),
                    process@,
                    output@,
                ) == Ok::<
                    (TracerView, UniqueSet),
                    TraceErrorView,
                >((final(self)@, id)) && written_before(
                    final(self)@.nodes,
                    final(self)@.nodes.len() as int,
                    id,
                ),
                Err(e) => with_node(
                    old(self)@,
                    input_sets@,
                    names_of(named_sets@),
                    process@,
                    output@,
                ) == Err::<
                    (TracerView, UniqueSet),
                    TraceErrorView,
                >(e@) && final(self)@ == old(self)@,
            },
    {
        let ghost before = self@;
        assert(before.nodes.subrange(0, before.nodes.len() as int) =~= before.nodes);
        if self.unique_set_generator.last == u32::MAX {
            return Err(TraceError::Exhausted);
        }
        let mut nodes = Trace::empty();
        std::mem::swap(&mut self.nodes, &mut nodes);
        let output_set = UniqueSet::new(self.unique_set_generator.last + 1);
        let node = TraceNode { input_sets, process, named_sets };
        let ghost added = node@;
        let count = nodes.len();
        proof {
            nodes.lemma_entries();
        }
        match nodes.with(output_set, node) {
            Ok(grown) => {
                self.nodes = grown;
                self.unique_set_generator.last = self.unique_set_generator.last + 1;
                self.named_sets.push((output, output_set));
                proof {
                    assert(self.named_sets@.drop_last() == old(self).named_sets@);
                    let after = self@;
                    assert(after.nodes == before.nodes.push((output_set, added)));
                    assert(after.nodes.subrange(0, before.nodes.len() as int) =~= before.nodes);
                    assert(after.nodes[before.nodes.len() as int].0 == output_set);
                    self.nodes.lemma_entries();
                    assert forall|name: Seq<char>| #[trigger]
                        after.names.contains_key(name) implies written_before(
                        after.nodes,
                        after.nodes.len() as int,
                        after.names[name],
                    ) by {
                        if name != output@ {
                            let p = choose|p: int|
                                0 <= p < before.nodes.len() && p < before.nodes.len()
                                    && #[trigger] before.nodes[p].0 == before.names[name];
                            assert(after.nodes[p].0 == before.names[name]);
                        }
                    }
                    assert forall|i: int| 0 <= i < after.nodes.len() implies (
                    #[trigger] after.nodes[i]).0.id <= after.last by {
                        if i < before.nodes.len() {
                            assert(before.nodes[i].0.id <= before.last);
                        }
                    }
                }
                Ok(output_set)
            },
            Err(error) => {
                proof {
                    match error {
                        PlanError::Rewritten(id) => {
                            let p = choose|p: int|
                                0 <= p < before.nodes.len() && p < before.nodes.len()
                                    && #[trigger] before.nodes[p].0 == output_set;
                            assert(before.nodes[p].0.id <= before.last);
                        },
                        PlanError::Unsatisfiable(id) => {
                            lemma_names_values(named_sets@);
                            if !input_sets@.contains(id) {
                                let name = choose|name: Seq<char>| #[trigger]
                                    names_of(named_sets@).contains_key(name) && names_of(
                                        named_sets@,
                                    )[name] == id;
                                let i = choose|i: int|
                                    0 <= i < named_sets@.len() && (#[trigger] named_sets@[i]).0@
                                        == name && named_sets@[i].1 == names_of(
                                        named_sets@,
                                    )[name];
                                assert(written_before(
                                    before.nodes,
                                    before.nodes.len() as int,
                                    named_sets@[i].1,
                                ));
                            }
                        },
                    }
                    assert(false);
                }
                Err(TraceError::Exhausted)
            },
        }
    }

    /// The data flow of the nodes made so far.
    pub fn finish(self) -> (trace: Trace)
        ensures
            trace.entries() == self@.nodes,
    {
        self.nodes
    }
}

/// Where the first `n` filters do not resolve, all of them do not, for
/// the same reason.
proof fn lemma_resolved_filters_error(
    names: Map<Seq<char>, UniqueSet>,
    filters: Seq<FilterView>,
    n: int,
)
    requires
        0 <= n <= filters.len(),
        resolved_filters(names, filters.subrange(0, n)) is Err,
    ensures
        resolved_filters(names, filters) == resolved_filters(names, filters.subrange(0, n)),
    decreases filters.len() - n,
{
    if n == filters.len() {
        assert(filters.subrange(0, n) =~= filters);
    } else {
        assert(filters.subrange(0, n + 1).drop_last() =~= filters.subrange(0, n));
        lemma_resolved_filters_error(names, filters, n + 1);
    }
}

/// Where a name is not bound, the names up to and with it do not resolve.
proof fn lemma_resolved_error(names: Map<Seq<char>, UniqueSet>, inputs: Seq<Seq<char>>, n: int)
    requires
        0 < n <= inputs.len(),
        resolved(names, inputs.subrange(0, n - 1)) is Ok,
        !names.contains_key(inputs[n - 1]),
    ensures
        resolved(names, inputs) == Err::<Set<UniqueSet>, TraceErrorView>(
            TraceErrorView::Unbound(inputs[n - 1]),
        ),
    decreases inputs.len() - n,
{
    assert(inputs.subrange(0, n).drop_last() =~= inputs.subrange(0, n - 1));
    if n == inputs.len() {
        assert(inputs.subrange(0, n) =~= inputs);
    } else {
        lemma_resolved_prefix_error(names, inputs, n);
    }
}

/// Where the first `n` names do not resolve, all of them do not, for the
/// same reason.
proof fn lemma_resolved_prefix_error(names: Map<Seq<char>, UniqueSet>, inputs: Seq<Seq<char>>, n: int)
    requires
        0 <= n <= inputs.len(),
        resolved(names, inputs.subrange(0, n)) is Err,
    ensures
        resolved(names, inputs) == resolved(names, inputs.subrange(0, n)),
    decreases inputs.len() - n,
{
    if n == inputs.len() {
        assert(inputs.subrange(0, n) =~= inputs);
    } else {
        assert(inputs.subrange(0, n + 1).drop_last() =~= inputs.subrange(0, n));
        lemma_resolved_prefix_error(names, inputs, n + 1);
    }
}

/// A set that a node writes is still written when further nodes are
/// added.
pub proof fn lemma_extends_keeps(after: Entries, before: Entries, id: UniqueSet)
    requires
        extends(after, before),
        written_before(before, before.len() as int, id),
    ensures
        written_before(after, after.len() as int, id),
{
    let p = choose|p: int| 0 <= p < before.len() && p < before.len() && #[trigger] before[p].0 == id;
    assert(after.subrange(0, before.len() as int)[p] == before[p]);
    assert(after[p].0 == id);
}

/// Adding nodes to nodes that were added is adding nodes.
pub proof fn lemma_extends_transitive(last: Entries, middle: Entries, first: Entries)
    requires
        extends(last, middle),
        extends(middle, first),
    ensures
        extends(last, first),
{
    assert forall|i: int| 0 <= i < first.len() implies last.subrange(0, first.len() as int)[i]
        == first[i] by {
        assert(middle.subrange(0, first.len() as int)[i] == first[i]);
        assert(last.subrange(0, middle.len() as int)[i] == middle[i]);
    }
    assert(last.subrange(0, first.len() as int) =~= first);
}

/// Where one of the first `n` statements has no data flow, the statements
/// have none, for the same reason.
proof fn lemma_members_error(state: TracerView, members: Seq<StatementSpecView>, n: nat)
    requires
        n <= members.len(),
        traced_members(state, members, n) is Err,
    ensures
        traced_members(state, members, members.len()) == traced_members(state, members, n),
    decreases members.len() - n,
{
    if n < members.len() {
        lemma_members_error(state, members, n + 1);
    }
}

/// Traces one statement: makes its nodes and binds its output. Returns
/// output set
pub fn trace_statement_spec(statement_spec: StatementSpec, tracer: &mut Tracer) -> (r: Result<
    UniqueSet,
    TraceError,
>)
    requires
        old(tracer).wf(),
    ensures
        final(tracer).wf(),
        extends(final(tracer)@.nodes, old(tracer)@.nodes),
        match r {
            Ok(id) => traced(old(tracer)@, statement_spec@) == Ok::<
                (TracerView, UniqueSet),
                TraceErrorView,
            >((final(tracer)@, id)) && written_before(
                final(tracer)@.nodes,
                final(tracer)@.nodes.len() as int,
                id,
            ),
            Err(e) => traced(old(tracer)@, statement_spec@) == Err::<
                (TracerView, UniqueSet),
                TraceErrorView,
            >(e@),
        },
    decreases statement_spec,
{
    let ghost start = tracer@;
    let ghost whole = statement_spec;
    assert(start.nodes.subrange(0, start.nodes.len() as int) =~= start.nodes);
    let statement = statement_spec.statement;
    let statement_inputs = statement_spec.inputs;
    let output = statement_spec.output;
    match statement {
        Statement::Union { members } => {
            let ghost given = members@;
            let ghost views = script_view(members@);
            proof {
                lemma_union_view(members);
            }
            let mut input_sets = UniqueSets::new();
            let ghost mut sets: Seq<UniqueSet> = Seq::empty();
            assert(input_sets@ =~= sets.to_set());
            for member in it: members
                invariant
                    it.seq() == given,
                    views == script_view(given),
                    whole == statement_spec,
                    start == old(tracer)@,
                    statement_spec@.statement == (StatementView::Union { members: views }),
                    whole.statement == (Statement::Union { members }),
                    members@ == given,
                    tracer.wf(),
                    extends(tracer@.nodes, start.nodes),
                    traced_members(start, views, it.index() as nat) == Ok::<
                        (TracerView, Seq<UniqueSet>),
                        TraceErrorView,
                    >((tracer@, sets)),
                    input_sets@ == sets.to_set(),
                    forall|x: UniqueSet| #[trigger]
                        input_sets@.contains(x) ==> written_before(
                            tracer@.nodes,
                            tracer@.nodes.len() as int,
                            x,
                        ),
            {
                let ghost before = tracer@;
                let ghost done = it.index() as int;
                assert(member == members@[done]);
                assert(views[done] == member@);
                assert(decreases_to!(statement_spec => whole.statement));
                assert(decreases_to!(whole.statement => members));
                assert(decreases_to!(members => members[done]));
                match trace_statement_spec(member, tracer) {
                    Ok(id) => {
                        input_sets.insert(id);
                        proof {
                            sets.lemma_push_to_set_commute(id);
                            assert forall|x: UniqueSet| #[trigger]
                                input_sets@.contains(x) implies written_before(
                                tracer@.nodes,
                                tracer@.nodes.len() as int,
                                x,
                            ) by {
                                if x != id {
                                    lemma_extends_keeps(tracer@.nodes, before.nodes, x);
                                }
                            }
                            lemma_extends_transitive(tracer@.nodes, before.nodes, start.nodes);
                            sets = sets.push(id);
                        }
                    },
                    Err(e) => {
                        proof {
                            lemma_extends_transitive(tracer@.nodes, before.nodes, start.nodes);
                            lemma_members_error(start, views, (done + 1) as nat);
                        }
                        return Err(e);
                    },
                }
            }
            let node = Process::Union;
            let ghost middle = tracer@;
            let r = tracer.add_node_with_sets(input_sets, Vec::new(), node, output);
            proof {
                lemma_extends_transitive(tracer@.nodes, middle.nodes, start.nodes);
            }
            r
        },
        Statement::Difference { source, remove } => {
            let source_input = match trace_statement_spec(*source, tracer) {
                Ok(id) => id,
                Err(e) => {
                    return Err(e);
                },
            };
            let ghost first = tracer@;
            let remove_input = match trace_statement_spec(*remove, tracer) {
                Ok(id) => id,
                Err(e) => {
                    proof {
                        lemma_extends_transitive(tracer@.nodes, first.nodes, start.nodes);
                    }
                    return Err(e);
                },
            };
            let ghost second = tracer@;
            let node = Process::Difference { source: source_input, remove: remove_input };
            let mut input_sets = UniqueSets::new();
            input_sets.insert(source_input);
            input_sets.insert(remove_input);
            proof {
                assert(input_sets@ =~= set![source_input, remove_input]);
                lemma_extends_keeps(second.nodes, first.nodes, source_input);
                lemma_extends_transitive(second.nodes, first.nodes, start.nodes);
            }
            let r = tracer.add_node_with_sets(input_sets, Vec::new(), node, output);
            proof {
                lemma_extends_transitive(tracer@.nodes, second.nodes, start.nodes);
            }
            r
        },
        Statement::Query { filters } => {
            let named_sets = match tracer.resolve_filters(&filters) {
                Ok(named_sets) => named_sets,
                Err(e) => {
                    return Err(e);
                },
            };
            let node = Process::Query { filters };
            let input_sets = UniqueSets::new();
            tracer.add_node_with_sets(input_sets, named_sets, node, output)
        },
        Statement::Recurse(rt) => {
            let node = Process::Recurse(rt);
            tracer.add_node(&statement_inputs, node, output)
        },
        Statement::Item => {
            if statement_inputs.len() != 1 {
                return Err(TraceError::ItemInputs);
            }
            let input_set = match tracer.get_set(&statement_inputs[0]) {
                Some(set) => set,
                None => {
                    return Err(
                        TraceError::Resolve(ResolveError { name: statement_inputs[0].clone() }),
                    );
                },
            };
            // Needs no node representation in the flow graph
            tracer.link(input_set, output);
            Ok(input_set)
        },
        Statement::Output => {
            let node = Process::Output;
            tracer.add_node(&statement_inputs, node, output)
        },
        Statement::IsInArea => Err(TraceError::Unsupported),
    }
}

/// Execute a query script to establish a graph representation of the
/// data flow.
pub fn trace(statement_specs: Vec<StatementSpec>) -> (r: Result<Trace, TraceError>)
    ensures
        match r {
            Ok(trace) => trace_of(script_view(statement_specs@)) == Ok::<Entries, TraceErrorView>(
                trace.entries(),
            ),
            Err(e) => trace_of(script_view(statement_specs@)) == Err::<Entries, TraceErrorView>(
                e@,
            ),
        },
{
    let ghost given = statement_specs@;
    let ghost views = script_view(statement_specs@);
    let mut tracer = Tracer::new();
    let ghost mut sets: Seq<UniqueSet> = Seq::empty();
    for statement_spec in it: statement_specs
        invariant
            it.seq() == given,
            views == script_view(given),
            tracer.wf(),
            traced_members(initial(), views, it.index() as nat) == Ok::<
                (TracerView, Seq<UniqueSet>),
                TraceErrorView,
            >((tracer@, sets)),
    {
        let ghost done = it.index() as int;
        assert(views[done] == statement_spec@);
        match trace_statement_spec(statement_spec, &mut tracer) {
            Ok(id) => {
                proof {
                    sets = sets.push(id);
                }
            },
            Err(e) => {
                proof {
                    lemma_members_error(initial(), views, (done + 1) as nat);
                }
                return Err(e);
            },
        }
    }
    Ok(tracer.finish())
}

/// Tracing is a function of the script: two scripts of the same statements
/// have the same data flow, node for node and set for set.
pub proof fn lemma_trace_repeatable(first: Seq<StatementSpec>, second: Seq<StatementSpec>)
    requires
        script_view(first) == script_view(second),
    ensures
        trace_of(script_view(first)) == trace_of(script_view(second)),
{
}

} // verus!
