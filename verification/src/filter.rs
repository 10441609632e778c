//! Evaluation of filters on items.

use vstd::prelude::*;
use crate::item::{Item, ItemKind, ItemView, Tags};
use crate::ql::number::Decimal;
use crate::ql::statement::{Filter, FilterView, QueryType, TagSpec, TagSpecView, filters_view};
use crate::set::{Bindings, NamedSets};

verus! {

/// Whether an item is of the kind that a query asks for. Every item
/// answers to `nwr`; an area is a closed way; no item is derived.
pub open spec fn query_type_matches(query_type: QueryType, item: ItemView) -> bool {
    match query_type {
        QueryType::Node => item.kind() == ItemKind::Node,
        QueryType::Way => item.kind() == ItemKind::Way,
        QueryType::Relation => item.kind() == ItemKind::Relation,
        QueryType::Derived => false,
        QueryType::Area => item.is_area(),
        QueryType::NWR => true,
    }
}

/// Whether an item lies in a bounding box: it has a position, and that
/// lies between south and north and between west and east, the bounds
/// included.
pub open spec fn in_bounding_box(s: Decimal, w: Decimal, n: Decimal, e: Decimal, item: ItemView) -> bool {
    match item.lat_lon() {
        Some((lat, lon)) => s.value() <= lat <= n.value() && w.value() <= lon <= e.value(),
        None => false,
    }
}

/// Whether the tags hold a key that `k` accepts.
pub open spec fn tag_exists(k: TagSpecView, tags: Map<Seq<char>, Seq<char>>) -> bool {
    match k {
        TagSpecView::String(key) => tags.contains_key(key),
        _ => exists|key: Seq<char>| #[trigger] tags.contains_key(key) && k.test(key),
    }
}

/// Whether the tags hold a pair whose key `k` accepts and whose value `v`
/// accepts.
pub open spec fn tag_equals(k: TagSpecView, v: TagSpecView, tags: Map<Seq<char>, Seq<char>>) -> bool {
    match k {
        TagSpecView::String(key) => tags.contains_key(key) && v.test(tags[key]),
        _ => exists|key: Seq<char>| #[trigger]
            tags.contains_key(key) && k.test(key) && v.test(tags[key]),
    }
}

/// Whether a filter holds of an item, given the sets that names are bound
/// to. An item is in no set of an unbound name.
pub open spec fn filter_matches(filter: FilterView, item: ItemView, sets: Bindings) -> bool {
    match filter {
        FilterView::Id(id) => item.id == id,
        FilterView::QueryType(query_type) => query_type_matches(query_type, item),
        FilterView::BoundingBox { s, w, n, e } => in_bounding_box(s, w, n, e, item),
        FilterView::TagExist { k } => tag_exists(k, item.tags),
        FilterView::TagNotExist { k } => !tag_exists(k, item.tags),
        FilterView::TagEqual { k, v } => tag_equals(k, v, item.tags),
        FilterView::TagNotEqual { k, v } => !tag_equals(k, v, item.tags),
        FilterView::Intersection(name) => sets.contains_key(name) && sets[name].contains_key(
            item.key(),
        ),
    }
}

/// Whether every one of the filters holds of an item.
pub open spec fn all_match(filters: Seq<FilterView>, item: ItemView, sets: Bindings) -> bool {
    forall|i: int| 0 <= i < filters.len() ==> filter_matches(#[trigger] filters[i], item, sets)
}

/// An item without a position is in no bounding box, and only a node has
/// a position.
pub proof fn lemma_bounding_box_only_nodes(
    s: Decimal,
    w: Decimal,
    n: Decimal,
    e: Decimal,
    item: ItemView,
    sets: Bindings,
)
    requires
        item.kind() != ItemKind::Node,
    ensures
        !filter_matches(FilterView::BoundingBox { s, w, n, e }, item, sets),
{
}

/// Whether the tags hold a key that `k` accepts.
fn eval_tag_exists(k: &TagSpec, tags: &Tags) -> (b: bool)
    ensures
        b == tag_exists(k@, tags@),
{
    match k {
        TagSpec::String(s) => tags.get(s.as_str()).is_some(),
        _ => {
            let n = tags.count();
            proof {
                tags.lemma_pairs();
            }
            let mut i: usize = 0;
            while i < n
                invariant
                    i <= n,
                    n == tags.pairs().len(),
                    tags.inv(),
                    k@ is Regex,
                    forall|j: int| 0 <= j < i ==> !k@.test(tags.pairs()[j].0),
                decreases n - i,
            {
                if k.test(tags.key_at(i).as_str()) {
                    proof {
                        tags.lemma_pairs();
                        assert(tags@.contains_key(tags.pairs()[i as int].0));
                    }
                    return true;
                }
                i = i + 1;
            }
            proof {
                if tag_exists(k@, tags@) {
                    let key = choose|key: Seq<char>| #[trigger]
                        tags@.contains_key(key) && k@.test(key);
                    let j = choose|j: int|
                        0 <= j < tags.pairs().len() && #[trigger] tags.pairs()[j] == (
                            key,
                            tags@[key],
                        );
                    assert(!k@.test(tags.pairs()[j].0));
                }
            }
            false
        },
    }
}

/// Whether the tags hold a pair whose key `k` accepts and whose value `v`
/// accepts.
fn eval_tag_equals(k: &TagSpec, v: &TagSpec, tags: &Tags) -> (b: bool)
    ensures
        b == tag_equals(k@, v@, tags@),
{
    match k {
        TagSpec::String(s) => match tags.get(s.as_str()) {
            Some(tv) => v.test(tv.as_str()),
            None => false,
        },
        _ => {
            let n = tags.count();
            proof {
                tags.lemma_pairs();
            }
            let mut i: usize = 0;
            while i < n
                invariant
                    i <= n,
                    n == tags.pairs().len(),
                    tags.inv(),
                    k@ is Regex,
                    forall|j: int|
                        0 <= j < i ==> !(k@.test(tags.pairs()[j].0) && v@.test(
                            tags.pairs()[j].1,
                        )),
                decreases n - i,
            {
                if k.test(tags.key_at(i).as_str()) && v.test(tags.value_at(i).as_str()) {
                    proof {
                        tags.lemma_pairs();
                        assert(tags@.contains_key(tags.pairs()[i as int].0));
                    }
                    return true;
                }
                i = i + 1;
            }
            proof {
                if tag_equals(k@, v@, tags@) {
                    let key = choose|key: Seq<char>| #[trigger]
                        tags@.contains_key(key) && k@.test(key) && v@.test(tags@[key]);
                    let j = choose|j: int|
                        0 <= j < tags.pairs().len() && #[trigger] tags.pairs()[j] == (
                            key,
                            tags@[key],
                        );
                    assert(!(k@.test(tags.pairs()[j].0) && v@.test(tags.pairs()[j].1)));
                }
            }
            false
        },
    }
}

/// Whether `filter` holds of `item`, given the sets that names are bound
/// to.
pub fn eval_filter(filter: &Filter, item: &Item, sets: &NamedSets) -> (b: bool)
    ensures
        b == filter_matches(filter@, item@, sets@),
{
    match filter {
        Filter::Id(id) => item.id == *id,
        Filter::QueryType(query_type) => match query_type {
            QueryType::Node => item.is_node(),
            QueryType::Way => item.is_way(),
            QueryType::Relation => item.is_relation(),
            QueryType::Derived => false,
            QueryType::Area => item.is_area(),
            QueryType::NWR => true,
        },
        Filter::BoundingBox { s, w, n, e } => match item.get_lat_lon() {
            Some((lat, lon)) => s.at_most(lat) && n.at_least(lat) && w.at_most(lon) && e.at_least(
                lon,
            ),
            None => false,
        },
        Filter::TagExist { k } => eval_tag_exists(k, &item.tags),
        Filter::TagNotExist { k } => !eval_tag_exists(k, &item.tags),
        Filter::TagEqual { k, v } => eval_tag_equals(k, v, &item.tags),
        Filter::TagNotEqual { k, v } => !eval_tag_equals(k, v, &item.tags),
        Filter::Intersection(name) => match sets.get(name) {
            Some(set) => set.contains(item.kind(), item.id),
            None => false,
        },
    }
}

/// Whether every one of `filters` holds of `item`. The filters are tried
/// in order, up to the first that fails.
pub fn eval_filters(filters: &Vec<Filter>, item: &Item, sets: &NamedSets) -> (b: bool)
    ensures
        b == all_match(filters_view(filters@), item@, sets@),
{
    let mut i: usize = 0;
    while i < filters.len()
        invariant
            i <= filters@.len(),
            forall|j: int|
                0 <= j < i ==> filter_matches(#[trigger] filters_view(filters@)[j], item@, sets@),
        decreases filters@.len() - i,
    {
        if !eval_filter(&filters[i], item, sets) {
            assert(!filter_matches(filters_view(filters@)[i as int], item@, sets@));
            return false;
        }
        i = i + 1;
    }
    true
}

} // verus!
