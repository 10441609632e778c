//! What a pass over the data evaluates for one node of the data flow.

use std::sync::Arc;
use vstd::prelude::*;
use crate::ql::statement::{Filter, FilterView, RecurseType, filters_view};

verus! {

/// The work that one scan of the data does for a node: a chain of filters,
/// or a recursion.
pub enum QueryTarget {
    Query { filters: Arc<Vec<Filter>> },
    Recurse(RecurseType),
}

/// A query target as a mathematical value.
pub enum QueryTargetView {
    Query { filters: Seq<FilterView> },
    Recurse(RecurseType),
}

impl View for QueryTarget {
    type V = QueryTargetView;

    open spec fn view(&self) -> QueryTargetView {
        match *self {
            QueryTarget::Query { filters } => QueryTargetView::Query {
                filters: filters_view((*filters)@),
            },
            QueryTarget::Recurse(direction) => QueryTargetView::Recurse(direction),
        }
    }
}

} // verus!
