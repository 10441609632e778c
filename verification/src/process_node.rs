//! The kinds of work in the data flow of a script.

use std::rc::Rc;
use std::sync::Arc;
use vstd::prelude::*;
use crate::ql::statement::{Filter, FilterView, RecurseType, clone_filters, filters_view};
use crate::query::{QueryTarget, QueryTargetView};
use crate::trace_node::UniqueSet;

verus! {

/// A node of the data flow together with the nodes that read what it
/// makes.
#[derive(Debug, PartialEq)]
pub struct ProcessNode {
    pub process: Process,
    pub targets: Vec<Rc<ProcessNode>>,
}

impl ProcessNode {
    /// A node that nothing reads from yet.
    pub fn new(process: Process) -> (r: Self)
        ensures
            r.process == process,
            r.targets@.len() == 0,
    {
        ProcessNode { process, targets: Vec::new() }
    }

    /// Adds a node that reads from this one.
    pub fn add_target(&mut self, target: Rc<ProcessNode>)
        ensures
            final(self).process == old(self).process,
            final(self).targets@ == old(self).targets@.push(target),
    {
        self.targets.push(target);
    }

    /// The nodes that read from this one.
    pub fn targets(&self) -> (r: &[Rc<ProcessNode>])
        ensures
            r@ == self.targets@,
    {
        self.targets.as_slice()
    }
}

/// What a node of the data flow does to produce its set.
#[derive(Debug, PartialEq)]
pub enum Process {
    /// Data query
    Query { filters: Vec<Filter> },
    /// Must buffer
    Difference { source: UniqueSet, remove: UniqueSet },
    /// Pass-through
    Union,
    /// Data query, with optional index
    Recurse(RecurseType),
    /// Streaming output
    Output,
}

/// The work of a node as a mathematical value.
pub enum ProcessView {
    Query { filters: Seq<FilterView> },
    Difference { source: UniqueSet, remove: UniqueSet },
    Union,
    Recurse(RecurseType),
    Output,
}

impl ProcessView {
    /// Whether the work reads the data in a scan: a query or a recursion.
    /// The other kinds only combine sets that exist.
    pub open spec fn is_query_family(self) -> bool {
        self is Query || self is Recurse
    }

    /// What a scan evaluates for this work, if it takes a scan.
    pub open spec fn query_target(self) -> Option<QueryTargetView> {
        match self {
            ProcessView::Query { filters } => Some(QueryTargetView::Query { filters }),
            ProcessView::Recurse(direction) => Some(QueryTargetView::Recurse(direction)),
            _ => None,
        }
    }
}

impl View for Process {
    type V = ProcessView;

    open spec fn view(&self) -> ProcessView {
        match *self {
            Process::Query { filters } => ProcessView::Query { filters: filters_view(filters@) },
            Process::Difference { source, remove } => ProcessView::Difference { source, remove },
            Process::Union => ProcessView::Union,
            Process::Recurse(direction) => ProcessView::Recurse(direction),
            Process::Output => ProcessView::Output,
        }
    }
}

impl Clone for Process {
    fn clone(&self) -> (r: Self)
        ensures
            r@ == self@,
    {
        match self {
            Process::Query { filters } => Process::Query { filters: clone_filters(filters) },
            Process::Difference { source, remove } => Process::Difference {
                source: *source,
                remove: *remove,
            },
            Process::Union => Process::Union,
            Process::Recurse(direction) => Process::Recurse(*direction),
            Process::Output => Process::Output,
        }
    }
}

impl Process {
    /// What a scan evaluates for this work: for a query a copy of its
    /// filters, for a recursion its direction, nothing for the others.
    pub fn query_target(&self) -> (r: Option<QueryTarget>)
        ensures
            match r {
                Some(target) => self@.query_target() == Some(target@),
                None => self@.query_target() is None,
            },
    {
        match self {
            Process::Query { filters } => {
                let filters = Arc::new(clone_filters(filters));
                Some(QueryTarget::Query { filters })
            },
            Process::Recurse(rt) => Some(QueryTarget::Recurse(*rt)),
            _ => None,
        }
    }

    /// Whether the work takes a scan of the data.
    pub fn is_query_family(&self) -> (b: bool)
        ensures
            b == self@.is_query_family(),
    {
        match self {
            Process::Query { .. } => true,
            Process::Recurse(_) => true,
            _ => false,
        }
    }

    /// Whether the work is a streaming output.
    pub fn is_output(&self) -> (b: bool)
        ensures
            b == (self@ is Output),
    {
        match self {
            Process::Output => true,
            _ => false,
        }
    }
}

} // verus!
