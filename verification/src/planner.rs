//! The planner: from the data flow of a script to the passes over the
//! data that evaluate it.

use std::sync::Arc;
use vstd::prelude::*;
use crate::item::{Item, ItemView};
use crate::process::{
    Made, ProcessorFactory, QueryNode, QueryNodeView, find_set, items_view, made_view, nodes_view,
    scanned, set_of, union_of, union_sets,
};
use crate::process_node::{Process, ProcessView};
use crate::ql::statement::{SetName, clone_filters};
use crate::recurse::{recurse, recursed};
use crate::set::{Bindings, Contents, ItemSet, NamedSets, difference};
use crate::trace_node::names_of;
use crate::trace_node::{
    Entries, PlanError, Trace, TraceNodeView, UniqueSet, UniqueSets, entries_map,
    lemma_entry_in_map, lemma_needed_inputs, needed, needed_keys, output_keys, position_of,
    well_ordered, written_before,
};

verus! {

/// The passes of a plan: for each pass the sets that it makes, in the
/// order in which it makes them.
pub type Passes = Seq<Seq<UniqueSet>>;

/// Whether `id` stands in one of the passes.
pub open spec fn placed(passes: Passes, id: UniqueSet) -> bool {
    exists|a: int, b: int|
        0 <= a < passes.len() && 0 <= b < passes[a].len() && #[trigger] passes[a][b] == id
}

/// Whether `id` stands in a pass before pass `p`, or in pass `p` before
/// position `q`.
pub open spec fn placed_before(passes: Passes, p: int, q: int, id: UniqueSet) -> bool {
    exists|a: int, b: int|
        0 <= a < passes.len() && 0 <= b < passes[a].len() && #[trigger] passes[a][b] == id && (a
            < p || (a == p && b < q))
}

/// A plan as a mathematical value: the nodes that are needed for an
/// output, and the passes that make their sets.
pub struct PlanView {
    pub outputs: Map<UniqueSet, TraceNodeView>,
    pub passes: Passes,
}

/// What holds of every plan. The passes hold exactly the sets of the
/// plan's nodes, each once. A query or a recursion reads only sets of
/// earlier passes, since it takes a scan of the data to make its set.
/// Every other node reads only sets of earlier passes and sets that stand
/// before it in its own pass.
pub open spec fn closed_plan(plan: PlanView) -> bool {
    &&& forall|a: int, b: int|
        0 <= a < plan.passes.len() && 0 <= b < plan.passes[a].len()
            ==> plan.outputs.contains_key(#[trigger] plan.passes[a][b])
    &&& forall|id: UniqueSet| #[trigger]
        plan.outputs.contains_key(id) ==> placed(plan.passes, id)
    &&& forall|a: int, b: int, c: int, d: int|
        0 <= a < plan.passes.len() && 0 <= b < plan.passes[a].len() && 0 <= c
            < plan.passes.len() && 0 <= d < plan.passes[c].len() && #[trigger] plan.passes[a][b]
            == #[trigger] plan.passes[c][d] ==> a == c && b == d
    &&& forall|a: int, b: int, x: UniqueSet|
        0 <= a < plan.passes.len() && 0 <= b < plan.passes[a].len()
            && #[trigger] plan.outputs[plan.passes[a][b]].reads().contains(x)
            ==> placed_before(
            plan.passes,
            a,
            if plan.outputs[plan.passes[a][b]].process.is_query_family() {
                0
            } else {
                b
            },
            x,
        )
}

/// Whether `chain` leads from a set of the plan to a set that it depends
/// on: each set in it is read by the node of the set before it.
pub open spec fn is_ancestry(outputs: Map<UniqueSet, TraceNodeView>, chain: Seq<UniqueSet>) -> bool {
    &&& chain.len() > 0
    &&& forall|i: int|
        0 <= i < chain.len() - 1 ==> outputs.contains_key(#[trigger] chain[i])
            && outputs[chain[i]].reads().contains(chain[i + 1])
}

/// In a closed plan every set that a set depends on, however far back,
/// stands in an earlier pass or in the same pass, and there not behind
/// it.
pub proof fn lemma_ancestors_stand_before(plan: PlanView, chain: Seq<UniqueSet>, a: int, b: int)
    requires
        closed_plan(plan),
        is_ancestry(plan.outputs, chain),
        0 <= a < plan.passes.len(),
        0 <= b < plan.passes[a].len(),
        plan.passes[a][b] == chain[0],
    ensures
        placed_before(plan.passes, a, b + 1, chain.last()),
    decreases chain.len(),
{
    if chain.len() == 1 {
        assert(plan.passes[a][b] == chain.last());
    } else {
        let next = chain[1];
        assert(plan.outputs[plan.passes[a][b]].reads().contains(next));
        let q = if plan.outputs[plan.passes[a][b]].process.is_query_family() {
            0
        } else {
            b
        };
        assert(placed_before(plan.passes, a, q, next));
        let (c, d) = choose|c: int, d: int|
            0 <= c < plan.passes.len() && 0 <= d < plan.passes[c].len()
                && #[trigger] plan.passes[c][d] == next && (c < a || (c == a && d < q));
        let rest = chain.drop_first();
        assert forall|i: int| 0 <= i < rest.len() - 1 implies plan.outputs.contains_key(
            #[trigger] rest[i],
        ) && plan.outputs[rest[i]].reads().contains(rest[i + 1]) by {
            assert(rest[i] == chain[i + 1]);
            assert(rest[i + 1] == chain[i + 1 + 1]);
        }
        lemma_ancestors_stand_before(plan, rest, c, d);
        assert(rest.last() == chain.last());
        let (e, f) = choose|e: int, f: int|
            0 <= e < plan.passes.len() && 0 <= f < plan.passes[e].len()
                && #[trigger] plan.passes[e][f] == chain.last() && (e < c || (e == c && f < d
                + 1));
        assert(plan.passes[e][f] == chain.last() && (e < a || (e == a && f < b + 1)));
    }
}

/// Whether the node at position `b` of pass `a` could not stand in the pass
/// before: a query or a recursion reads a set that no pass before that one
/// makes, every other node reads a set that no pass before its own makes.
pub open spec fn could_not_be_earlier(plan: PlanView, a: int, b: int) -> bool {
    let node = plan.outputs[plan.passes[a][b]];
    exists|x: UniqueSet| #[trigger]
        node.reads().contains(x) && !placed_before(
            plan.passes,
            if node.process.is_query_family() {
                a - 1
            } else {
                a
            },
            0,
            x,
        )
}

/// Whether a plan takes no more passes than it must: every pass makes a
/// set, no node of a later pass could stand in the pass before, and in
/// each pass the queries and recursions, which the scan serves, stand
/// before the other nodes.
pub open spec fn tight_plan(plan: PlanView) -> bool {
    &&& forall|a: int| 0 <= a < plan.passes.len() ==> (#[trigger] plan.passes[a]).len() > 0
    &&& forall|a: int, b: int|
        1 <= a < plan.passes.len() && 0 <= b < plan.passes[a].len()
            ==> #[trigger] could_not_be_earlier(plan, a, b)
    &&& forall|a: int, b: int, c: int|
        0 <= a < plan.passes.len() && 0 <= b < c < plan.passes[a].len()
            && plan.outputs[#[trigger] plan.passes[a][c]].process.is_query_family()
            ==> plan.outputs[#[trigger] plan.passes[a][b]].process.is_query_family()
}

/// Whether every set that the node at position `j` reads is written by a
/// node whose flag is set.
pub open spec fn inputs_flagged(entries: Entries, j: int, flags: Seq<bool>) -> bool {
    forall|i: int|
        0 <= i < entries.len() && i < flags.len() && #[trigger] entries[j].1.reads().contains(
            entries[i].0,
        ) ==> flags[i]
}

/// How many of the first `n` nodes are needed and not placed.
pub open spec fn remaining(flags: Seq<bool>, placed: Seq<bool>, n: int) -> nat
    decreases n,
{
    if n <= 0 {
        0
    } else if flags[n - 1] && !placed[n - 1] {
        remaining(flags, placed, n - 1) + 1
    } else {
        remaining(flags, placed, n - 1)
    }
}

/// Placing more nodes leaves fewer to place.
proof fn lemma_remaining_monotone(flags: Seq<bool>, before: Seq<bool>, after: Seq<bool>, n: int)
    requires
        0 <= n <= flags.len(),
        before.len() == flags.len(),
        after.len() == flags.len(),
        forall|j: int| 0 <= j < n && before[j] ==> after[j],
    ensures
        remaining(flags, after, n) <= remaining(flags, before, n),
    decreases n,
{
    if n > 0 {
        lemma_remaining_monotone(flags, before, after, n - 1);
    }
}

/// Placing a needed node that was not placed leaves strictly fewer to
/// place.
proof fn lemma_remaining_decreases(
    flags: Seq<bool>,
    before: Seq<bool>,
    after: Seq<bool>,
    n: int,
    j: int,
)
    requires
        0 <= j < n <= flags.len(),
        before.len() == flags.len(),
        after.len() == flags.len(),
        forall|i: int| 0 <= i < n && before[i] ==> after[i],
        flags[j],
        !before[j],
        after[j],
    ensures
        remaining(flags, after, n) < remaining(flags, before, n),
    decreases n,
{
    if j == n - 1 {
        lemma_remaining_monotone(flags, before, after, n - 1);
    } else {
        lemma_remaining_decreases(flags, before, after, n - 1, j);
    }
}

/// The state of the planner is consistent: the flags say which nodes stand
/// in the passes, only needed nodes do, none does twice, and each reads
/// only sets that stand before it as `closed_plan` demands.
pub open spec fn consistent(entries: Entries, flags: Seq<bool>, done: Seq<bool>, passes: Passes) -> bool {
    &&& done.len() == entries.len()
    &&& flags.len() == entries.len()
    &&& forall|j: int| 0 <= j < entries.len() && done[j] ==> flags[j]
    &&& forall|j: int| 0 <= j < entries.len() && #[trigger] done[j] ==> placed(passes, entries[j].0)
    &&& forall|a: int, b: int|
        0 <= a < passes.len() && 0 <= b < passes[a].len() ==> written_before(
            entries,
            entries.len() as int,
            #[trigger] passes[a][b],
        ) && done[position_of(entries, passes[a][b])]
    &&& forall|a: int, b: int, c: int, d: int|
        0 <= a < passes.len() && 0 <= b < passes[a].len() && 0 <= c < passes.len() && 0 <= d
            < passes[c].len() && #[trigger] passes[a][b] == #[trigger] passes[c][d] ==> a == c
            && b == d
    &&& forall|a: int, b: int, x: UniqueSet|
        0 <= a < passes.len() && 0 <= b < passes[a].len() && #[trigger] entries[position_of(
            entries,
            passes[a][b],
        )].1.reads().contains(x) ==> placed_before(
            passes,
            a,
            if entries[position_of(entries, passes[a][b])].1.process.is_query_family() {
                0
            } else {
                b
            },
            x,
        )
}

/// A consistent state stays consistent when an empty pass is opened.
proof fn lemma_open_pass(entries: Entries, flags: Seq<bool>, done: Seq<bool>, passes: Passes)
    requires
        consistent(entries, flags, done, passes),
    ensures
        consistent(entries, flags, done, passes.push(Seq::empty())),
        forall|i: int|
            0 <= i < entries.len() && #[trigger] done[i] ==> placed_before(
                passes.push(Seq::empty()),
                passes.len() as int,
                0,
                entries[i].0,
            ),
{
    let opened = passes.push(Seq::<UniqueSet>::empty());
    assert forall|a: int, b: int| 0 <= a < opened.len() && 0 <= b < opened[a].len() implies a
        < passes.len() && opened[a][b] == passes[a][b] by {}
    assert forall|j: int| 0 <= j < entries.len() && #[trigger] done[j] implies placed(
        opened,
        entries[j].0,
    ) && placed_before(opened, passes.len() as int, 0, entries[j].0) by {
        let (a, b) = choose|a: int, b: int|
            0 <= a < passes.len() && 0 <= b < passes[a].len() && #[trigger] passes[a][b]
                == entries[j].0;
        assert(opened[a][b] == entries[j].0);
    }
    assert forall|a: int, b: int, x: UniqueSet|
        0 <= a < opened.len() && 0 <= b < opened[a].len() && #[trigger] entries[position_of(
            entries,
            opened[a][b],
        )].1.reads().contains(x) implies placed_before(
        opened,
        a,
        if entries[position_of(entries, opened[a][b])].1.process.is_query_family() {
            0
        } else {
            b
        },
        x,
    ) by {
        assert(passes[a][b] == opened[a][b]);
        let q = if entries[position_of(entries, opened[a][b])].1.process.is_query_family() {
            0
        } else {
            b
        };
        assert(placed_before(passes, a, q, x));
        let (c, d) = choose|c: int, d: int|
            0 <= c < passes.len() && 0 <= d < passes[c].len() && #[trigger] passes[c][d] == x
                && (c < a || (c == a && d < q));
        assert(opened[c][d] == x);
    }
}

/// A consistent state stays consistent when the node at position `j`,
/// which is needed and not placed, is put at the end of the last pass,
/// given that it reads only sets that stand where `closed_plan` demands.
proof fn lemma_place(
    entries: Entries,
    flags: Seq<bool>,
    done: Seq<bool>,
    earlier: Passes,
    pass: Seq<UniqueSet>,
    j: int,
)
    requires
        well_ordered(entries),
        consistent(entries, flags, done, earlier.push(pass)),
        0 <= j < entries.len(),
        flags[j],
        !done[j],
        forall|x: UniqueSet| #[trigger]
            entries[j].1.reads().contains(x) ==> placed_before(
                earlier.push(pass),
                earlier.len() as int,
                if entries[j].1.process.is_query_family() {
                    0
                } else {
                    pass.len() as int
                },
                x,
            ),
    ensures
        consistent(entries, flags, done.update(j, true), earlier.push(pass.push(entries[j].0))),
        forall|x: UniqueSet, p: int, q: int|
            placed_before(earlier.push(pass), p, q, x) ==> placed_before(
                earlier.push(pass.push(entries[j].0)),
                p,
                q,
                x,
            ),
{
    let old_passes = earlier.push(pass);
    let key = entries[j].0;
    let new_passes = earlier.push(pass.push(key));
    let new_done = done.update(j, true);
    let p = earlier.len() as int;
    lemma_entry_in_map(entries, j);
    assert forall|a: int, b: int|
        0 <= a < old_passes.len() && 0 <= b < old_passes[a].len() implies 0 <= a
        < new_passes.len() && 0 <= b < new_passes[a].len() && new_passes[a][b]
        == old_passes[a][b] by {}
    assert forall|a: int, b: int|
        0 <= a < new_passes.len() && 0 <= b < new_passes[a].len() implies (a == p && b
        == pass.len() && new_passes[a][b] == key) || (0 <= a < old_passes.len() && 0 <= b
        < old_passes[a].len() && new_passes[a][b] == old_passes[a][b]) by {}
    assert forall|x: UniqueSet, a: int, q: int|
        placed_before(old_passes, a, q, x) implies placed_before(new_passes, a, q, x) by {
        let (c, d) = choose|c: int, d: int|
            0 <= c < old_passes.len() && 0 <= d < old_passes[c].len()
                && #[trigger] old_passes[c][d] == x && (c < a || (c == a && d < q));
        assert(new_passes[c][d] == x);
    }
    assert forall|i: int| 0 <= i < entries.len() && #[trigger] new_done[i] implies placed(
        new_passes,
        entries[i].0,
    ) by {
        if i == j {
            assert(new_passes[p][pass.len() as int] == key);
        } else {
            assert(done[i]);
            let (a, b) = choose|a: int, b: int|
                0 <= a < old_passes.len() && 0 <= b < old_passes[a].len()
                    && #[trigger] old_passes[a][b] == entries[i].0;
            assert(new_passes[a][b] == entries[i].0);
        }
    }
    assert forall|a: int, b: int|
        0 <= a < new_passes.len() && 0 <= b < new_passes[a].len() implies written_before(
        entries,
        entries.len() as int,
        #[trigger] new_passes[a][b],
    ) && new_done[position_of(entries, new_passes[a][b])] by {
        if a == p && b == pass.len() {
            assert(entries[j].0 == key);
        } else {
            assert(new_passes[a][b] == old_passes[a][b]);
        }
    }
    assert forall|a: int, b: int, c: int, d: int|
        0 <= a < new_passes.len() && 0 <= b < new_passes[a].len() && 0 <= c < new_passes.len()
            && 0 <= d < new_passes[c].len() && #[trigger] new_passes[a][b]
            == #[trigger] new_passes[c][d] implies a == c && b == d by {
        let first_new = a == p && b == pass.len();
        let second_new = c == p && d == pass.len();
        if first_new && !second_new {
            assert(old_passes[c][d] == key);
            assert(done[position_of(entries, old_passes[c][d])]);
        } else if !first_new && second_new {
            assert(old_passes[a][b] == key);
            assert(done[position_of(entries, old_passes[a][b])]);
        } else if !first_new && !second_new {
            assert(old_passes[a][b] == old_passes[c][d]);
        }
    }
    assert forall|a: int, b: int, x: UniqueSet|
        0 <= a < new_passes.len() && 0 <= b < new_passes[a].len() && #[trigger] entries[position_of(
            entries,
            new_passes[a][b],
        )].1.reads().contains(x) implies placed_before(
        new_passes,
        a,
        if entries[position_of(entries, new_passes[a][b])].1.process.is_query_family() {
            0
        } else {
            b
        },
        x,
    ) by {
        if a == p && b == pass.len() {
            assert(entries[j].1.reads().contains(x));
        } else {
            assert(new_passes[a][b] == old_passes[a][b]);
            let q = if entries[position_of(entries, old_passes[a][b])].1.process.is_query_family() {
                0
            } else {
                b
            };
            assert(placed_before(old_passes, a, q, x));
        }
    }
}

/// Whether the node at position `j` could not stand in a pass before pass
/// `a`.
pub open spec fn late(entries: Entries, passes: Passes, a: int, j: int) -> bool {
    a >= 1 ==> exists|x: UniqueSet| #[trigger]
        entries[j].1.reads().contains(x) && !placed_before(
            passes,
            if entries[j].1.process.is_query_family() {
                a - 1
            } else {
                a
            },
            0,
            x,
        )
}

/// Whether every node in the passes stands in the first pass in which it
/// can stand.
pub open spec fn tight(entries: Entries, passes: Passes) -> bool {
    forall|a: int, b: int|
        0 <= a < passes.len() && 0 <= b < passes[a].len() ==> late(
            entries,
            passes,
            a,
            position_of(entries, #[trigger] passes[a][b]),
        )
}

/// Whether every needed node that was not placed when pass `p` began
/// could not stand in a pass before pass `p`.
pub open spec fn waiting(entries: Entries, flags: Seq<bool>, start: Seq<bool>, passes: Passes, p: int) -> bool {
    forall|j: int|
        0 <= j < entries.len() && j < flags.len() && j < start.len() && flags[j] && !start[j]
            ==> #[trigger] late(entries, passes, p, j)
}

/// Whether every node in the passes was placed when the flags `start`
/// were taken.
pub open spec fn all_started(entries: Entries, start: Seq<bool>, passes: Passes) -> bool {
    forall|c: int, d: int|
        0 <= c < passes.len() && 0 <= d < passes[c].len() ==> start[position_of(
            entries,
            #[trigger] passes[c][d],
        )]
}

/// What is late with respect to some passes is late with respect to
/// passes that begin alike.
proof fn lemma_late_prefix(entries: Entries, first: Passes, second: Passes, a: int, j: int)
    requires
        0 <= a <= first.len(),
        a <= second.len(),
        forall|c: int| 0 <= c < a ==> first[c] == second[c],
        late(entries, first, a, j),
    ensures
        late(entries, second, a, j),
{
    if a >= 1 {
        let at = if entries[j].1.process.is_query_family() {
            a - 1
        } else {
            a
        };
        let x = choose|x: UniqueSet| #[trigger]
            entries[j].1.reads().contains(x) && !placed_before(first, at, 0, x);
        if placed_before(second, at, 0, x) {
            let (c, d) = choose|c: int, d: int|
                0 <= c < second.len() && 0 <= d < second[c].len() && #[trigger] second[c][d]
                    == x && (c < at || (c == at && d < 0));
            assert(first[c][d] == x);
            assert(false);
        }
    }
}

/// Opening an empty pass keeps the passes tight and the unplaced nodes
/// waiting.
proof fn lemma_open_pass_tight(entries: Entries, flags: Seq<bool>, done: Seq<bool>, passes: Passes)
    requires
        consistent(entries, flags, done, passes),
        tight(entries, passes),
        waiting(entries, flags, done, passes, passes.len() as int),
    ensures
        tight(entries, passes.push(Seq::empty())),
        waiting(entries, flags, done, passes.push(Seq::empty()), passes.len() as int),
        all_started(entries, done, passes),
{
    let opened = passes.push(Seq::<UniqueSet>::empty());
    assert forall|a: int, b: int|
        0 <= a < opened.len() && 0 <= b < opened[a].len() implies late(
        entries,
        opened,
        a,
        position_of(entries, #[trigger] opened[a][b]),
    ) by {
        assert(opened[a][b] == passes[a][b]);
        lemma_late_prefix(entries, passes, opened, a, position_of(entries, passes[a][b]));
    }
    assert forall|j: int|
        0 <= j < entries.len() && j < flags.len() && j < done.len() && flags[j] && !done[j]
            implies #[trigger] late(entries, opened, passes.len() as int, j) by {
        assert(late(entries, passes, passes.len() as int, j));
        lemma_late_prefix(entries, passes, opened, passes.len() as int, j);
    }
}

/// Placing a waiting node at the end of the last pass keeps the passes
/// tight and the other nodes waiting.
proof fn lemma_place_tight(
    entries: Entries,
    flags: Seq<bool>,
    start: Seq<bool>,
    earlier: Passes,
    pass: Seq<UniqueSet>,
    j: int,
)
    requires
        well_ordered(entries),
        0 <= j < entries.len(),
        j < flags.len(),
        j < start.len(),
        flags[j],
        !start[j],
        tight(entries, earlier.push(pass)),
        waiting(entries, flags, start, earlier.push(pass), earlier.len() as int),
    ensures
        tight(entries, earlier.push(pass.push(entries[j].0))),
        waiting(
            entries,
            flags,
            start,
            earlier.push(pass.push(entries[j].0)),
            earlier.len() as int,
        ),
{
    let old_passes = earlier.push(pass);
    let new_passes = earlier.push(pass.push(entries[j].0));
    let p = earlier.len() as int;
    lemma_entry_in_map(entries, j);
    assert forall|c: int| 0 <= c < p implies old_passes[c] == new_passes[c] by {}
    assert forall|a: int, b: int|
        0 <= a < new_passes.len() && 0 <= b < new_passes[a].len() implies late(
        entries,
        new_passes,
        a,
        position_of(entries, #[trigger] new_passes[a][b]),
    ) by {
        if a == p && b == pass.len() {
            assert(late(entries, old_passes, p, j));
            lemma_late_prefix(entries, old_passes, new_passes, p, j);
        } else {
            assert(new_passes[a][b] == old_passes[a][b]);
            lemma_late_prefix(
                entries,
                old_passes,
                new_passes,
                a,
                position_of(entries, old_passes[a][b]),
            );
        }
    }
    assert forall|i: int|
        0 <= i < entries.len() && i < flags.len() && i < start.len() && flags[i] && !start[i]
            implies #[trigger] late(entries, new_passes, p, i) by {
        assert(late(entries, old_passes, p, i));
        lemma_late_prefix(entries, old_passes, new_passes, p, i);
    }
}

/// At the end of a pass every needed node that is not placed waits for a
/// later pass: a query or a recursion was not ready when the pass began,
/// and no other node is ready now.
proof fn lemma_end_of_pass(
    entries: Entries,
    flags: Seq<bool>,
    start: Seq<bool>,
    done: Seq<bool>,
    earlier: Passes,
    pass: Seq<UniqueSet>,
)
    requires
        well_ordered(entries),
        consistent(entries, flags, done, earlier.push(pass)),
        start.len() == entries.len(),
        all_started(entries, start, earlier),
        forall|i: int| 0 <= i < entries.len() && start[i] ==> done[i],
        forall|i: int|
            0 <= i < entries.len() && flags[i] && !start[i]
                && entries[i].1.process.is_query_family() && inputs_flagged(entries, i, start)
                ==> done[i],
        forall|i: int|
            0 <= i < entries.len() && flags[i] && !done[i]
                && !entries[i].1.process.is_query_family() ==> !inputs_flagged(entries, i, done),
    ensures
        waiting(entries, flags, done, earlier.push(pass), earlier.len() as int + 1),
{
    let passes = earlier.push(pass);
    let p = earlier.len() as int;
    assert forall|j: int|
        0 <= j < entries.len() && j < flags.len() && j < done.len() && flags[j] && !done[j]
            implies #[trigger] late(entries, passes, p + 1, j) by {
        if entries[j].1.process.is_query_family() {
            assert(!inputs_flagged(entries, j, start));
            let i = choose|i: int|
                0 <= i < entries.len() && i < start.len()
                    && #[trigger] entries[j].1.reads().contains(entries[i].0) && !start[i];
            let x = entries[i].0;
            lemma_entry_in_map(entries, i);
            if placed_before(passes, p, 0, x) {
                let (c, d) = choose|c: int, d: int|
                    0 <= c < passes.len() && 0 <= d < passes[c].len() && #[trigger] passes[c][d]
                        == x && (c < p || (c == p && d < 0));
                assert(earlier[c][d] == x);
                assert(start[position_of(entries, earlier[c][d])]);
                assert(false);
            }
            assert(entries[j].1.reads().contains(x) && !placed_before(passes, p, 0, x));
        } else {
            assert(!inputs_flagged(entries, j, done));
            let i = choose|i: int|
                0 <= i < entries.len() && i < done.len()
                    && #[trigger] entries[j].1.reads().contains(entries[i].0) && !done[i];
            let x = entries[i].0;
            lemma_entry_in_map(entries, i);
            if placed_before(passes, p + 1, 0, x) {
                let (c, d) = choose|c: int, d: int|
                    0 <= c < passes.len() && 0 <= d < passes[c].len() && #[trigger] passes[c][d]
                        == x && (c < p + 1 || (c == p + 1 && d < 0));
                assert(done[position_of(entries, passes[c][d])]);
                assert(false);
            }
            assert(entries[j].1.reads().contains(x) && !placed_before(passes, p + 1, 0, x));
        }
    }
}

/// A pass that placed a node which was not placed before is not empty.
proof fn lemma_pass_not_empty(
    entries: Entries,
    flags: Seq<bool>,
    start: Seq<bool>,
    done: Seq<bool>,
    earlier: Passes,
    pass: Seq<UniqueSet>,
    j: int,
)
    requires
        well_ordered(entries),
        consistent(entries, flags, done, earlier.push(pass)),
        all_started(entries, start, earlier),
        0 <= j < entries.len(),
        done[j],
        !start[j],
    ensures
        pass.len() > 0,
{
    let passes = earlier.push(pass);
    lemma_entry_in_map(entries, j);
    assert(placed(passes, entries[j].0));
    let (a, b) = choose|a: int, b: int|
        0 <= a < passes.len() && 0 <= b < passes[a].len() && #[trigger] passes[a][b]
            == entries[j].0;
    if a < earlier.len() {
        assert(earlier[a][b] == entries[j].0);
        assert(start[position_of(entries, earlier[a][b])]);
    }
}

/// Whether in a pass the queries and recursions stand before the other
/// nodes.
pub open spec fn queries_first(entries: Entries, pass: Seq<UniqueSet>) -> bool {
    forall|b: int, c: int|
        0 <= b < c < pass.len() && entries[position_of(
            entries,
            #[trigger] pass[c],
        )].1.process.is_query_family() ==> entries[position_of(
            entries,
            #[trigger] pass[b],
        )].1.process.is_query_family()
}

/// Whether every node of a pass is a query or a recursion.
pub open spec fn only_queries(entries: Entries, pass: Seq<UniqueSet>) -> bool {
    forall|b: int|
        0 <= b < pass.len() ==> entries[position_of(
            entries,
            #[trigger] pass[b],
        )].1.process.is_query_family()
}

/// A pass keeps its order of kinds when a node comes to stand at its end
/// that is no query, or when the pass holds only queries and
/// recursions and another one comes.
proof fn lemma_queries_first_push(entries: Entries, pass: Seq<UniqueSet>, j: int)
    requires
        well_ordered(entries),
        0 <= j < entries.len(),
        queries_first(entries, pass),
        entries[j].1.process.is_query_family() ==> only_queries(entries, pass),
    ensures
        queries_first(entries, pass.push(entries[j].0)),
        entries[j].1.process.is_query_family() ==> only_queries(
            entries,
            pass.push(entries[j].0),
        ),
{
    let longer = pass.push(entries[j].0);
    lemma_entry_in_map(entries, j);
    assert forall|b: int, c: int|
        0 <= b < c < longer.len() && entries[position_of(
            entries,
            #[trigger] longer[c],
        )].1.process.is_query_family() implies entries[position_of(
        entries,
        #[trigger] longer[b],
    )].1.process.is_query_family() by {
        assert(longer[b] == pass[b]);
        if c < pass.len() {
            assert(longer[c] == pass[c]);
        }
    }
    if entries[j].1.process.is_query_family() {
        assert forall|b: int| 0 <= b < longer.len() implies entries[position_of(
            entries,
            #[trigger] longer[b],
        )].1.process.is_query_family() by {
            if b < pass.len() {
                assert(longer[b] == pass[b]);
            }
        }
    }
}

/// Tight passes make a tight plan.
proof fn lemma_plan_tight(
    entries: Entries,
    passes: Passes,
    outputs: Map<UniqueSet, TraceNodeView>,
)
    requires
        tight(entries, passes),
        nodes_agree(entries, passes, outputs),
        forall|a: int| 0 <= a < passes.len() ==> (#[trigger] passes[a]).len() > 0,
        forall|a: int| 0 <= a < passes.len() ==> queries_first(entries, #[trigger] passes[a]),
    ensures
        tight_plan(PlanView { outputs, passes }),
{
    let plan = PlanView { outputs, passes };
    assert forall|a: int, b: int, c: int|
        0 <= a < passes.len() && 0 <= b < c < passes[a].len()
            && outputs[#[trigger] passes[a][c]].process.is_query_family() implies outputs[
    #[trigger] passes[a][b]].process.is_query_family() by {
        assert(queries_first(entries, passes[a]));
        assert(outputs[passes[a][c]] == entries[position_of(entries, passes[a][c])].1);
        assert(outputs[passes[a][b]] == entries[position_of(entries, passes[a][b])].1);
    }
    assert forall|a: int, b: int|
        1 <= a < passes.len() && 0 <= b < passes[a].len() implies #[trigger] could_not_be_earlier(
        plan,
        a,
        b,
    ) by {
        let id = passes[a][b];
        let j = position_of(entries, id);
        assert(outputs[id] == entries[j].1);
        assert(late(entries, passes, a, j));
    }
}

/// The passes as mathematical values.
pub open spec fn passes_view(passes: Seq<Vec<UniqueSet>>) -> Passes {
    passes.map_values(|pass: Vec<UniqueSet>| pass@)
}

/// Whether the plan has for each set in the passes the node that writes
/// it in the data flow.
pub open spec fn nodes_agree(
    entries: Entries,
    passes: Passes,
    outputs: Map<UniqueSet, TraceNodeView>,
) -> bool {
    forall|a: int, b: int|
        0 <= a < passes.len() && 0 <= b < passes[a].len() ==> outputs.contains_key(
            #[trigger] passes[a][b],
        ) && outputs[passes[a][b]] == entries[position_of(entries, passes[a][b])].1
}

/// A consistent state in which every needed node is placed makes a plan.
proof fn lemma_plan_closed(
    entries: Entries,
    roots: Set<UniqueSet>,
    flags: Seq<bool>,
    done: Seq<bool>,
    passes: Passes,
    outputs: Map<UniqueSet, TraceNodeView>,
)
    requires
        well_ordered(entries),
        consistent(entries, flags, done, passes),
        forall|j: int| 0 <= j < entries.len() ==> flags[j] == needed(entries, roots, j),
        forall|j: int| 0 <= j < entries.len() && flags[j] ==> done[j],
        outputs == entries_map(entries).restrict(needed_keys(entries, roots)),
    ensures
        closed_plan(PlanView { outputs, passes }),
        nodes_agree(entries, passes, outputs),
{
    assert forall|a: int, b: int|
        0 <= a < passes.len() && 0 <= b < passes[a].len() implies outputs.contains_key(
        #[trigger] passes[a][b],
    ) && outputs[passes[a][b]] == entries[position_of(entries, passes[a][b])].1 by {
        let id = passes[a][b];
        assert(written_before(entries, entries.len() as int, id));
        let j = position_of(entries, id);
        assert(0 <= j < entries.len() && entries[j].0 == id);
        assert(done[j]);
        assert(needed(entries, roots, j) && entries[j].0 == id);
    }
    assert forall|id: UniqueSet| #[trigger] outputs.contains_key(id) implies placed(
        passes,
        id,
    ) by {
        let j = choose|j: int| #[trigger] needed(entries, roots, j) && entries[j].0 == id;
        crate::trace_node::lemma_needed_cases(entries, roots, j);
        assert(done[j]);
    }
    assert forall|a: int, b: int, x: UniqueSet|
        0 <= a < passes.len() && 0 <= b < passes[a].len()
            && #[trigger] outputs[passes[a][b]].reads().contains(x) implies placed_before(
        passes,
        a,
        if outputs[passes[a][b]].process.is_query_family() {
            0
        } else {
            b
        },
        x,
    ) by {
        assert(outputs[passes[a][b]] == entries[position_of(entries, passes[a][b])].1);
        assert(entries[position_of(entries, passes[a][b])].1.reads().contains(x));
    }
}

/// Whether every set that the node at position `j` reads is written by a
/// node whose flag is set.
fn inputs_placed(trace: &Trace, j: usize, flags: &Vec<bool>) -> (b: bool)
    requires
        j < trace.entries().len(),
        flags@.len() == trace.entries().len(),
    ensures
        b == inputs_flagged(trace.entries(), j as int, flags@),
{
    let count = trace.len();
    let ghost entries = trace.entries();
    let node = trace.node_at(j);
    let reads = node.reads();
    let n = reads.len();
    proof {
        trace.lemma_entries();
        reads.lemma_ids();
    }
    let mut t: usize = 0;
    while t < n
        invariant
            t <= n,
            j < entries.len(),
            n == reads.ids().len(),
            reads.inv(),
            reads@ == node@.reads(),
            entries == trace.entries(),
            trace.inv(),
            well_ordered(entries),
            node@ == entries[j as int].1,
            flags@.len() == entries.len(),
            forall|s: int, i: int|
                0 <= s < t && 0 <= i < entries.len() && #[trigger] entries[i].0
                    == #[trigger] reads.ids()[s] ==> flags@[i],
        decreases n - t,
    {
        let id = reads.get(t);
        match trace.position(id) {
            Some(i) => {
                if !flags[i] {
                    assert(entries[j as int].1.reads().contains(entries[i as int].0));
                    return false;
                }
                proof {
                    assert forall|m: int|
                        0 <= m < entries.len() && #[trigger] entries[m].0 == id implies flags@[m] by {
                        if m < i {
                            assert(entries[m].0 != entries[i as int].0);
                        }
                        if i < m {
                            assert(entries[i as int].0 != entries[m].0);
                        }
                    }
                }
            },
            None => {
                proof {
                    assert(entries[j as int].1.reads().contains(id));
                    assert(written_before(entries, j as int, id));
                    let m = choose|m: int|
                        0 <= m < j && m < entries.len() && #[trigger] entries[m].0 == id;
                    assert(written_before(entries, entries.len() as int, id));
                }
                return false;
            },
        }
        t = t + 1;
    }
    proof {
        assert forall|i: int|
            0 <= i < entries.len() && i < flags@.len()
                && #[trigger] entries[j as int].1.reads().contains(
                entries[i].0,
            ) implies flags@[i] by {
            let s = choose|s: int|
                0 <= s < reads.ids().len() && reads.ids()[s] == entries[i].0;
            assert(entries[i].0 == reads.ids()[s]);
        }
    }
    true
}

/// The first position of a node that is needed and not placed.
fn first_unplaced(flags: &Vec<bool>, placed: &Vec<bool>) -> (r: Option<usize>)
    requires
        flags@.len() == placed@.len(),
    ensures
        match r {
            Some(j) => j < flags@.len() && flags@[j as int] && !placed@[j as int] && forall|i: int|
                0 <= i < j && flags@[i] ==> placed@[i],
            None => forall|i: int| 0 <= i < flags@.len() && flags@[i] ==> placed@[i],
        },
{
    let mut j: usize = 0;
    while j < flags.len()
        invariant
            j <= flags@.len(),
            flags@.len() == placed@.len(),
            forall|i: int| 0 <= i < j && flags@[i] ==> placed@[i],
        decreases flags@.len() - j,
    {
        if flags[j] && !placed[j] {
            return Some(j);
        }
        j = j + 1;
    }
    None
}

/// The needed nodes of a data flow, which are a data flow of their own.
fn needed_part(trace: &Trace, flags: &Vec<bool>, Ghost(roots): Ghost<Set<UniqueSet>>) -> (r:
    Trace)
    requires
        flags@.len() == trace.entries().len(),
        forall|j: int| 0 <= j < flags@.len() ==> flags@[j] == needed(trace.entries(), roots, j),
    ensures
        r@ == trace@.restrict(needed_keys(trace.entries(), roots)),
{
    let n = trace.len();
    let ghost entries = trace.entries();
    proof {
        trace.lemma_entries();
    }
    let mut result = Trace::empty();
    let mut j: usize = 0;
    while j < n
        invariant
            j <= n,
            n == entries.len(),
            entries == trace.entries(),
            trace.inv(),
            well_ordered(entries),
            trace@ == entries_map(entries),
            flags@.len() == n,
            forall|m: int| 0 <= m < n ==> flags@[m] == needed(entries, roots, m),
            forall|id: UniqueSet|
                result@.contains_key(id) <==> exists|m: int|
                    0 <= m < j && #[trigger] needed(entries, roots, m) && entries[m].0 == id,
            forall|id: UniqueSet| #[trigger] result@.contains_key(id) ==> result@[id] == trace@[id],
        decreases n - j,
    {
        let ghost before = result@;
        if flags[j] {
            let node = trace.node_at(j).clone();
            let key = trace.key_at(j);
            proof {
                lemma_entry_in_map(entries, j as int);
            }
            match result.with(key, node) {
                Ok(grown) => {
                    result = grown;
                },
                Err(error) => {
                    proof {
                        match error {
                            PlanError::Rewritten(id) => {
                                let m = choose|m: int|
                                    0 <= m < j && #[trigger] needed(entries, roots, m) && entries[m].0
                                        == id;
                                assert(entries[m].0 != entries[j as int].0);
                            },
                            PlanError::Unsatisfiable(id) => {
                                lemma_needed_inputs(entries, roots, j as int, id);
                                let m = position_of(entries, id);
                                assert(0 <= m < j && needed(entries, roots, m) && entries[m].0 == id);
                            },
                        }
                        assert(false);
                    }
                    return Trace::empty();
                },
            }
        }
        j = j + 1;
        proof {
            assert forall|id: UniqueSet|
                result@.contains_key(id) <==> exists|m: int|
                    0 <= m < j && #[trigger] needed(entries, roots, m) && entries[m].0 == id by {
                if before.contains_key(id) {
                    let m = choose|m: int|
                        0 <= m < j - 1 && #[trigger] needed(entries, roots, m) && entries[m].0 == id;
                    assert(0 <= m < j && needed(entries, roots, m) && entries[m].0 == id);
                }
                if flags@[j - 1] && id == entries[j - 1].0 {
                    assert(0 <= j - 1 < j && needed(entries, roots, j - 1) && entries[j - 1].0 == id);
                }
                if exists|m: int|
                    0 <= m < j && #[trigger] needed(entries, roots, m) && entries[m].0 == id {
                    let m = choose|m: int|
                        0 <= m < j && #[trigger] needed(entries, roots, m) && entries[m].0 == id;
                    if m < j - 1 {
                        assert(0 <= m < j - 1 && needed(entries, roots, m) && entries[m].0 == id);
                    }
                }
            }
        }
    }
    proof {
        let wanted = trace@.restrict(needed_keys(entries, roots));
        assert forall|id: UniqueSet| result@.contains_key(id) == wanted.contains_key(id) by {
            if result@.contains_key(id) {
                let m = choose|m: int|
                    0 <= m < j && #[trigger] needed(entries, roots, m) && entries[m].0 == id;
                lemma_entry_in_map(entries, m);
            }
            if wanted.contains_key(id) {
                let m = choose|m: int| #[trigger] needed(entries, roots, m) && entries[m].0 == id;
                crate::trace_node::lemma_needed_cases(entries, roots, m);
            }
        }
        assert(result@ =~= wanted);
    }
    result
}

/// The passes that evaluate a script: the nodes that are needed for an
/// output, and for each pass the sets that it makes.
#[derive(Debug)]
pub struct Plan {
    outputs: Trace,
    passes: Vec<Vec<UniqueSet>>,
}

impl View for Plan {
    type V = PlanView;

    closed spec fn view(&self) -> PlanView {
        PlanView { outputs: self.outputs@, passes: passes_view(self.passes@) }
    }
}

impl Plan {
    /// The plan is closed.
    #[verifier::type_invariant]
    spec fn closed(self) -> bool {
        closed_plan(self@)
    }

    /// What holds of every value of this type: it is a closed plan.
    pub closed spec fn inv(self) -> bool {
        self.closed()
    }

    /// Every plan is closed.
    pub proof fn lemma_closed(self)
        requires
            self.inv(),
        ensures
            closed_plan(self@),
    {
    }

    /// The nodes that are needed for an output.
    pub fn outputs(&self) -> (r: &Trace)
        ensures
            r@ == self@.outputs,
            self.inv(),
    {
        proof {
            use_type_invariant(self);
        }
        &self.outputs
    }

    /// For each pass the sets that it makes, in the order in which it
    /// makes them.
    pub fn passes(&self) -> (r: &Vec<Vec<UniqueSet>>)
        ensures
            passes_view(r@) == self@.passes,
            self.inv(),
    {
        proof {
            use_type_invariant(self);
        }
        &self.passes
    }
}

/// The plan for the outputs of a data flow. Its nodes are those that are
/// needed for an output. Each pass takes every query and recursion whose
/// inputs earlier passes have made, and then, as long as there is one,
/// every other node whose inputs are made.
pub fn plan(trace: &Trace) -> (plan: Plan)
    ensures
        plan@.outputs == trace@.restrict(
            needed_keys(trace.entries(), output_keys(trace.entries())),
        ),
        closed_plan(plan@),
        tight_plan(plan@),
{
    let outputs = trace.output_nodes();
    plan_for(trace, &outputs)
}

/// The plan for the sets `targets` of a data flow, made like the plan for
/// its outputs.
pub fn plan_for(trace: &Trace, targets: &UniqueSets) -> (plan: Plan)
    ensures
        plan@.outputs == trace@.restrict(needed_keys(trace.entries(), targets@)),
        closed_plan(plan@),
        tight_plan(plan@),
{
    let n = trace.len();
    let ghost entries = trace.entries();
    let ghost roots = targets@;
    proof {
        trace.lemma_entries();
    }
    let flags = trace.needed_flags(targets);
    let outputs = needed_part(trace, &flags, Ghost(roots));
    let mut done: Vec<bool> = Vec::new();
    let mut j: usize = 0;
    while j < n
        invariant
            j <= n,
            done@.len() == j,
            forall|i: int| 0 <= i < j ==> !done@[i],
        decreases n - j,
    {
        done.push(false);
        j = j + 1;
    }
    let mut passes: Vec<Vec<UniqueSet>> = Vec::new();
    assert(passes_view(passes@) =~= Seq::<Seq<UniqueSet>>::empty());
    loop
        invariant
            n == entries.len(),
            entries == trace.entries(),
            trace.inv(),
            well_ordered(entries),
            flags@.len() == n,
            forall|m: int| 0 <= m < n ==> flags@[m] == needed(entries, roots, m),
            consistent(entries, flags@, done@, passes_view(passes@)),
            tight(entries, passes_view(passes@)),
            waiting(entries, flags@, done@, passes_view(passes@), passes@.len() as int),
            forall|a: int|
                0 <= a < passes@.len() ==> (#[trigger] passes_view(passes@)[a]).len() > 0,
            forall|a: int|
                0 <= a < passes@.len() ==> queries_first(
                    entries,
                    #[trigger] passes_view(passes@)[a],
                ),
        ensures
            forall|m: int| 0 <= m < n && flags@[m] ==> done@[m],
        decreases remaining(flags@, done@, n as int),
    {
        let first = match first_unplaced(&flags, &done) {
            Some(first) => first,
            None => {
                break ;
            },
        };
        let ghost earlier = passes_view(passes@);
        let ghost start = done@;
        let before = done.clone();
        assert(before@ =~= start);
        proof {
            lemma_open_pass(entries, flags@, done@, earlier);
            lemma_open_pass_tight(entries, flags@, done@, earlier);
        }
        let mut pass: Vec<UniqueSet> = Vec::new();
        assert(pass@ =~= Seq::<UniqueSet>::empty());
        // For a first step in a pass, all those nodes with data input
        let mut j: usize = 0;
        while j < n
            invariant
                j <= n,
                n == entries.len(),
                entries == trace.entries(),
                trace.inv(),
                well_ordered(entries),
                flags@.len() == n,
                start.len() == n,
                before@ == start,
                queries_first(entries, pass@),
                only_queries(entries, pass@),
                forall|m: int| 0 <= m < n ==> flags@[m] == needed(entries, roots, m),
                consistent(entries, flags@, done@, earlier.push(pass@)),
        tight(entries, earlier.push(pass@)),
        waiting(entries, flags@, start, earlier.push(pass@), earlier.len() as int),
        all_started(entries, start, earlier),
                forall|i: int| 0 <= i < n && start[i] ==> done@[i],
                forall|i: int| j <= i < n ==> done@[i] == start[i],
                forall|i: int|
                    0 <= i < n && #[trigger] start[i] ==> placed_before(
                        earlier.push(pass@),
                        earlier.len() as int,
                        0,
                        entries[i].0,
                    ),
                forall|i: int|
                    0 <= i < j && flags@[i] && !start[i]
                        && entries[i].1.process.is_query_family() && inputs_flagged(
                        entries,
                        i,
                        start,
                    ) ==> done@[i],
            decreases n - j,
        {
            if flags[j] && !before[j] && trace.node_at(j).process.is_query_family()
                && inputs_placed(trace, j, &before) {
                proof {
                    assert forall|x: UniqueSet| #[trigger]
                        entries[j as int].1.reads().contains(x) implies placed_before(
                        earlier.push(pass@),
                        earlier.len() as int,
                        0,
                        x,
                    ) by {
                        lemma_needed_inputs(entries, roots, j as int, x);
                        let i = position_of(entries, x);
                        assert(entries[j as int].1.reads().contains(entries[i].0));
                        assert(start[i]);
                    }
                    lemma_place(entries, flags@, done@, earlier, pass@, j as int);
                    lemma_place_tight(entries, flags@, start, earlier, pass@, j as int);
                    lemma_queries_first_push(entries, pass@, j as int);
                }
                pass.push(trace.key_at(j));
                done.set(j, true);
            }
            j = j + 1;
        }
        // For latter steps in a pass, append all nodes without data input
        let mut progress = true;
        while progress
            invariant
                n == entries.len(),
                entries == trace.entries(),
                trace.inv(),
                well_ordered(entries),
                flags@.len() == n,
                start.len() == n,
                forall|m: int| 0 <= m < n ==> flags@[m] == needed(entries, roots, m),
                consistent(entries, flags@, done@, earlier.push(pass@)),
        tight(entries, earlier.push(pass@)),
        waiting(entries, flags@, start, earlier.push(pass@), earlier.len() as int),
        all_started(entries, start, earlier),
        queries_first(entries, pass@),
                forall|i: int| 0 <= i < n && start[i] ==> done@[i],
                forall|i: int|
                    0 <= i < n && flags@[i] && !start[i]
                        && entries[i].1.process.is_query_family() && inputs_flagged(
                        entries,
                        i,
                        start,
                    ) ==> done@[i],
                !progress ==> forall|i: int|
                    0 <= i < n && flags@[i] && !done@[i]
                        && !entries[i].1.process.is_query_family() ==> !inputs_flagged(
                        entries,
                        i,
                        done@,
                    ),
            decreases remaining(flags@, done@, n as int) + (if progress {
                1int
            } else {
                0int
            }),
        {
            progress = false;
            let ghost scan_start = done@;
            let mut j: usize = 0;
            while j < n
                invariant
                    j <= n,
                    n == entries.len(),
                    entries == trace.entries(),
                    trace.inv(),
                    well_ordered(entries),
                    flags@.len() == n,
                    start.len() == n,
                    scan_start.len() == n,
                    forall|m: int| 0 <= m < n ==> flags@[m] == needed(entries, roots, m),
                    consistent(entries, flags@, done@, earlier.push(pass@)),
        tight(entries, earlier.push(pass@)),
        waiting(entries, flags@, start, earlier.push(pass@), earlier.len() as int),
        all_started(entries, start, earlier),
        queries_first(entries, pass@),
                    forall|i: int| 0 <= i < n && start[i] ==> done@[i],
                    forall|i: int| 0 <= i < n && scan_start[i] ==> done@[i],
                    forall|i: int|
                        0 <= i < n && flags@[i] && !start[i]
                            && entries[i].1.process.is_query_family() && inputs_flagged(
                            entries,
                            i,
                            start,
                        ) ==> done@[i],
                    !progress ==> done@ == scan_start,
                    !progress ==> forall|i: int|
                        0 <= i < j && flags@[i] && !done@[i]
                            && !entries[i].1.process.is_query_family() ==> !inputs_flagged(
                            entries,
                            i,
                            done@,
                        ),
                    progress ==> remaining(flags@, done@, n as int) < remaining(
                        flags@,
                        scan_start,
                        n as int,
                    ),
                decreases n - j,
            {
                if flags[j] && !done[j] && !trace.node_at(j).process.is_query_family()
                    && inputs_placed(trace, j, &done) {
                    let ghost before = done@;
                    proof {
                        assert forall|x: UniqueSet| #[trigger]
                            entries[j as int].1.reads().contains(x) implies placed_before(
                            earlier.push(pass@),
                            earlier.len() as int,
                            pass@.len() as int,
                            x,
                        ) by {
                            lemma_needed_inputs(entries, roots, j as int, x);
                            let i = position_of(entries, x);
                            assert(entries[j as int].1.reads().contains(entries[i].0));
                            assert(done@[i]);
                            let all = earlier.push(pass@);
                            assert(placed(all, entries[i].0));
                            let (a, b) = choose|a: int, b: int|
                                0 <= a < all.len() && 0 <= b < all[a].len() && #[trigger] all[a][b]
                                    == entries[i].0;
                            assert(all[a][b] == x && (a < earlier.len() || (a == earlier.len()
                                && b < pass@.len())));
                        }
                        lemma_place(entries, flags@, done@, earlier, pass@, j as int);
                        lemma_place_tight(entries, flags@, start, earlier, pass@, j as int);
                        lemma_queries_first_push(entries, pass@, j as int);
                    lemma_queries_first_push(entries, pass@, j as int);
                    lemma_place_tight(entries, flags@, start, earlier, pass@, j as int);
                    lemma_queries_first_push(entries, pass@, j as int);
                    }
                    pass.push(trace.key_at(j));
                    done.set(j, true);
                    progress = true;
                    proof {
                        lemma_remaining_decreases(flags@, before, done@, n as int, j as int);
                        lemma_remaining_monotone(flags@, scan_start, before, n as int);
                    }
                }
                j = j + 1;
            }
        }
        proof {
            if !done@[first as int] {
                assert forall|i: int|
                    0 <= i < entries.len() && i < start.len()
                        && #[trigger] entries[first as int].1.reads().contains(
                        entries[i].0,
                    ) implies start[i] by {
                    lemma_needed_inputs(entries, roots, first as int, entries[i].0);
                    lemma_entry_in_map(entries, i);
                }
                assert(inputs_flagged(entries, first as int, start));
                assert(inputs_flagged(entries, first as int, done@));
                assert(false);
            }
            lemma_remaining_decreases(flags@, start, done@, n as int, first as int);
            lemma_end_of_pass(entries, flags@, start, done@, earlier, pass@);
            lemma_pass_not_empty(entries, flags@, start, done@, earlier, pass@, first as int);
        }
        let ghost made = pass@;
        passes.push(pass);
        assert(passes_view(passes@) =~= earlier.push(made));
    }
    proof {
        lemma_plan_closed(entries, roots, flags@, done@, passes_view(passes@), outputs@);
        lemma_plan_tight(entries, passes_view(passes@), outputs@);
    }
    Plan { outputs, passes }
}

/// The sets that the filters of a query refer to by name: each name
/// bound to the set made under the identity that the name stood for.
pub open spec fn bindings_for(named_sets: Map<Seq<char>, UniqueSet>, made: Made) -> Bindings {
    Map::new(
        |name: Seq<char>| named_sets.contains_key(name),
        |name: Seq<char>| set_of(made, named_sets[name]),
    )
}

/// The queries among the first `upto` nodes of a pass, in the order of the
/// pass, each with the sets that its filters refer to as the earlier
/// passes made them.
pub open spec fn query_nodes(
    outputs: Map<UniqueSet, TraceNodeView>,
    pass: Seq<UniqueSet>,
    made: Made,
    upto: nat,
) -> Seq<QueryNodeView>
    decreases upto,
{
    if upto == 0 || upto > pass.len() {
        Seq::empty()
    } else {
        let before = query_nodes(outputs, pass, made, (upto - 1) as nat);
        let id = pass[upto - 1];
        match outputs[id].process {
            ProcessView::Query { filters } => before.push(
                QueryNodeView { id, filters, sets: bindings_for(outputs[id].named_sets, made) },
            ),
            _ => before,
        }
    }
}

/// The set that a node makes. A query has its set from the scan of its
/// pass. A recursion recurses from the union of its inputs as the earlier
/// passes made them. A union and an output are the union of their inputs
/// as made so far; a difference is its source without what is in the set
/// to remove.
pub open spec fn node_result(
    node: TraceNodeView,
    id: UniqueSet,
    before: Made,
    made: Made,
    scan: Made,
    items: Seq<ItemView>,
) -> Contents {
    match node.process {
        ProcessView::Query { .. } => set_of(scan, id),
        ProcessView::Recurse(direction) => recursed(
            direction,
            union_of(before, node.input_sets),
            items,
        ),
        ProcessView::Union => union_of(made, node.input_sets),
        ProcessView::Output => union_of(made, node.input_sets),
        ProcessView::Difference { source, remove } => difference(
            set_of(made, source),
            set_of(made, remove),
        ),
    }
}

/// The sets made after the first `upto` nodes of a pass, given the sets
/// `before` of the earlier passes and the results `scan` of the scan of the
/// pass.
pub open spec fn pass_result(
    outputs: Map<UniqueSet, TraceNodeView>,
    pass: Seq<UniqueSet>,
    before: Made,
    scan: Made,
    items: Seq<ItemView>,
    upto: nat,
) -> Made
    decreases upto,
{
    if upto == 0 || upto > pass.len() {
        before
    } else {
        let made = pass_result(outputs, pass, before, scan, items, (upto - 1) as nat);
        let id = pass[upto - 1];
        made.push((id, node_result(outputs[id], id, before, made, scan, items)))
    }
}

/// The sets made after the first `upto` passes.
pub open spec fn passes_result(
    outputs: Map<UniqueSet, TraceNodeView>,
    passes: Passes,
    items: Seq<ItemView>,
    upto: nat,
) -> Made
    decreases upto,
{
    if upto == 0 || upto > passes.len() {
        Seq::empty()
    } else {
        let before = passes_result(outputs, passes, items, (upto - 1) as nat);
        let pass = passes[upto - 1];
        pass_result(
            outputs,
            pass,
            before,
            scanned(query_nodes(outputs, pass, before, pass.len()), items),
            items,
            pass.len(),
        )
    }
}

/// The sets that a plan makes of the items of the data, in the order in
/// which it makes them.
pub open spec fn evaluated(plan: PlanView, items: Seq<ItemView>) -> Made {
    passes_result(plan.outputs, plan.passes, items, plan.passes.len())
}

/// The sets that the filters of a query refer to by name, as made so
/// far.
pub fn names_for(named_sets: &Vec<(SetName, UniqueSet)>, made: &Vec<(UniqueSet, ItemSet)>) -> (r:
    NamedSets)
    ensures
        r@ == bindings_for(names_of(named_sets@), made_view(made@)),
{
    let ghost views = made_view(made@);
    let mut sets = NamedSets::new();
    let mut i: usize = 0;
    assert(named_sets@.subrange(0, 0) =~= Seq::<(SetName, UniqueSet)>::empty());
    assert(sets@ =~= bindings_for(names_of(named_sets@.subrange(0, 0)), views));
    assert(views.subrange(0, views.len() as int) =~= views);
    while i < named_sets.len()
        invariant
            i <= named_sets@.len(),
            views == made_view(made@),
            views.subrange(0, made@.len() as int) == views,
            sets@ == bindings_for(names_of(named_sets@.subrange(0, i as int)), views),
        decreases named_sets@.len() - i,
    {
        let ghost before = sets@;
        let set = find_set(made, made.len(), named_sets[i].1);
        sets.bind(named_sets[i].0.clone(), set);
        i = i + 1;
        proof {
            assert(named_sets@.subrange(0, i as int).drop_last() =~= named_sets@.subrange(
                0,
                i - 1,
            ));
            assert(sets@ =~= bindings_for(names_of(named_sets@.subrange(0, i as int)), views));
        }
    }
    assert(named_sets@.subrange(0, i as int) =~= named_sets@);
    sets
}

impl Plan {
    /// What pass `pass` evaluates in its scan: its queries, each with the
    /// sets that its filters refer to, which `made` holds.
    pub fn pass_spec(&self, pass: usize, made: &Vec<(UniqueSet, ItemSet)>) -> (factory:
        ProcessorFactory)
        requires
            pass < self@.passes.len(),
        ensures
            factory.nodes() == query_nodes(
                self@.outputs,
                self@.passes[pass as int],
                made_view(made@),
                self@.passes[pass as int].len(),
            ),
    {
        proof {
            use_type_invariant(self);
        }
        let ghost outputs = self@.outputs;
        let ghost views = made_view(made@);
        let ids = &self.passes[pass];
        assert(self@.passes[pass as int] == ids@);
        let mut nodes: Vec<QueryNode> = Vec::new();
        let mut q: usize = 0;
        assert(nodes_view(nodes@) =~= Seq::<QueryNodeView>::empty());
        while q < ids.len()
            invariant
                q <= ids@.len(),
                pass < self.passes@.len(),
                ids@ == self@.passes[pass as int],
                outputs == self@.outputs,
                outputs == self.outputs@,
                closed_plan(self@),
                views == made_view(made@),
                nodes_view(nodes@) == query_nodes(outputs, ids@, views, q as nat),
            decreases ids@.len() - q,
        {
            let id = ids[q];
            assert(self@.passes[pass as int][q as int] == id);
            let ghost found = nodes_view(nodes@);
            match self.outputs.get_by_output(id) {
                Some(node) => match &node.process {
                    Process::Query { filters } => {
                        let sets = Arc::new(names_for(&node.named_sets, made));
                        let query = QueryNode { id, filters: clone_filters(filters), sets };
                        let ghost view = query@;
                        nodes.push(query);
                        assert(nodes_view(nodes@) =~= found.push(view));
                    },
                    _ => {},
                },
                None => {
                    assert(false);
                },
            }
            q = q + 1;
        }
        ProcessorFactory::new(nodes)
    }

    /// Makes the sets of pass `pass` in its order and adds them to the
    /// sets `made` of the earlier passes. `scan` holds what the scan of
    /// the pass selected for its queries.
    pub fn finish_pass(
        &self,
        pass: usize,
        scan: &Vec<(UniqueSet, ItemSet)>,
        items: &Vec<Item>,
        made: Vec<(UniqueSet, ItemSet)>,
    ) -> (r: Vec<(UniqueSet, ItemSet)>)
        requires
            pass < self@.passes.len(),
        ensures
            made_view(r@) == pass_result(
                self@.outputs,
                self@.passes[pass as int],
                made_view(made@),
                made_view(scan@),
                items_view(items@),
                self@.passes[pass as int].len(),
            ),
    {
        proof {
            use_type_invariant(self);
        }
        let ghost outputs = self@.outputs;
        let ghost before = made_view(made@);
        let ghost scans = made_view(scan@);
        let ghost views = items_view(items@);
        let ids = &self.passes[pass];
        assert(self@.passes[pass as int] == ids@);
        let earlier = made.len();
        let mut all = made;
        let mut q: usize = 0;
        assert(scans.subrange(0, scans.len() as int) =~= scans);
        assert(before.subrange(0, before.len() as int) =~= before);
        while q < ids.len()
            invariant
                q <= ids@.len(),
                pass < self.passes@.len(),
                ids@ == self@.passes[pass as int],
                outputs == self@.outputs,
                outputs == self.outputs@,
                closed_plan(self@),
                views == items_view(items@),
                scans == made_view(scan@),
                scans.subrange(0, scan@.len() as int) == scans,
                before == made_view(made@),
                earlier == before.len(),
                earlier <= all@.len(),
                made_view(all@).subrange(0, earlier as int) == before,
                made_view(all@) == pass_result(outputs, ids@, before, scans, views, q as nat),
            decreases ids@.len() - q,
        {
            let id = ids[q];
            assert(self@.passes[pass as int][q as int] == id);
            let ghost so_far = made_view(all@);
            assert(so_far.subrange(0, all@.len() as int) =~= so_far);
            match self.outputs.get_by_output(id) {
                Some(node) => {
                    let set = match &node.process {
                        Process::Query { .. } => find_set(scan, scan.len(), id),
                        Process::Recurse(direction) => {
                            let source = union_sets(&all, earlier, &node.input_sets);
                            recurse(*direction, &source, items)
                        },
                        Process::Union => union_sets(&all, all.len(), &node.input_sets),
                        Process::Output => union_sets(&all, all.len(), &node.input_sets),
                        Process::Difference { source, remove } => {
                            let kept = find_set(&all, all.len(), *source);
                            let removed = find_set(&all, all.len(), *remove);
                            kept.minus(&removed)
                        },
                    };
                    let ghost content = set@;
                    all.push((id, set));
                    assert(made_view(all@) =~= so_far.push((id, content)));
                    assert(made_view(all@).subrange(0, earlier as int) =~= so_far.subrange(
                        0,
                        earlier as int,
                    ));
                },
                None => {
                    assert(false);
                },
            }
            q = q + 1;
        }
        all
    }

    /// Makes the sets of the plan from the items of the data, pass by
    /// pass: one scan for the queries of the pass, then the other nodes of
    /// the pass in the order of the plan.
    pub fn run(&self, items: &Vec<Item>) -> (made: Vec<(UniqueSet, ItemSet)>)
        ensures
            made_view(made@) == evaluated(self@, items_view(items@)),
    {
        proof {
            use_type_invariant(self);
        }
        let ghost outputs = self@.outputs;
        let ghost passes = self@.passes;
        let ghost views = items_view(items@);
        let mut made: Vec<(UniqueSet, ItemSet)> = Vec::new();
        let mut pass: usize = 0;
        assert(made_view(made@) =~= Seq::<(UniqueSet, Contents)>::empty());
        while pass < self.passes.len()
            invariant
                pass <= self.passes@.len(),
                outputs == self@.outputs,
                passes == self@.passes,
                passes == passes_view(self.passes@),
                views == items_view(items@),
                made_view(made@) == passes_result(outputs, passes, views, pass as nat),
            decreases self.passes@.len() - pass,
        {
            let factory = self.pass_spec(pass, &made);
            let mut processor = factory.generate();
            processor.process_all(items);
            let scan = processor.digest();
            made = self.finish_pass(pass, &scan, items, made);
            pass = pass + 1;
        }
        made
    }
}

} // verus!
