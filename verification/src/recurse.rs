//! Recursion: from a set of items to the items that belong to them, or
//! that they belong to.

use vstd::prelude::*;
use crate::item::{Item, ItemKey, ItemKind, ItemSpecific, ItemSpecificView, ItemView};
use crate::process::items_view;
use crate::ql::statement::RecurseType;
use crate::set::{Contents, ItemSet, inserted};

verus! {

/// Whether `parent` refers to `child`: a way refers to the nodes on its
/// list of references, a relation to the items on its list of members. A
/// relation's reference to another relation counts only where
/// `follow_relations` says so.
pub open spec fn refers(parent: ItemView, child: ItemView, follow_relations: bool) -> bool {
    match parent.specific {
        ItemSpecificView::Node { .. } => false,
        ItemSpecificView::Way { refs } => child.kind() == ItemKind::Node && exists|i: int|
            0 <= i < refs.len() && #[trigger] refs[i] == child.id,
        ItemSpecificView::Relation { members } => (child.kind() != ItemKind::Relation
            || follow_relations) && exists|i: int|
            0 <= i < members.len() && (#[trigger] members[i]).1 == child.id && members[i].2
                == child.kind(),
    }
}

/// Whether the item `have` brings in `item` when recursing in the given
/// direction: downwards an item brings in what it refers to, upwards what
/// refers to it.
pub open spec fn brings_in(direction: RecurseType, have: ItemView, item: ItemView) -> bool {
    match direction {
        RecurseType::Down => refers(have, item, false),
        RecurseType::DownRelations => refers(have, item, true),
        RecurseType::Up => refers(item, have, false),
        RecurseType::UpRelations => refers(item, have, true),
    }
}

/// Whether some item of `set` brings in `item`.
pub open spec fn set_brings_in(direction: RecurseType, set: Contents, item: ItemView) -> bool {
    exists|k: ItemKey| #[trigger] set.contains_key(k) && brings_in(direction, set[k], item)
}

/// What one scan of the items finds: `found` and, going through the items
/// in order, every item that an item of `source` or an item found so far
/// brings in.
pub open spec fn round(
    direction: RecurseType,
    source: Contents,
    found: Contents,
    items: Seq<ItemView>,
) -> Contents
    decreases items.len(),
{
    if items.len() == 0 {
        found
    } else {
        let before = round(direction, source, found, items.drop_last());
        if set_brings_in(direction, source, items.last()) || set_brings_in(
            direction,
            before,
            items.last(),
        ) {
            inserted(before, items.last())
        } else {
            before
        }
    }
}

/// What `count` scans of the items find, each starting from what the one
/// before it found, the first from nothing.
pub open spec fn rounds(direction: RecurseType, source: Contents, items: Seq<ItemView>, count: nat) -> Contents
    decreases count,
{
    if count == 0 {
        Map::empty()
    } else {
        round(direction, source, rounds(direction, source, items, (count - 1) as nat), items)
    }
}

/// What recursing from `source` in the given direction finds among the
/// items: what as many scans find as there are items. A scan that finds
/// nothing new ends the search, see `lemma_rounds_stable`.
pub open spec fn recursed(direction: RecurseType, source: Contents, items: Seq<ItemView>) -> Contents {
    rounds(direction, source, items, items.len())
}

/// Once a scan finds nothing new, no later scan does.
pub proof fn lemma_rounds_stable(
    direction: RecurseType,
    source: Contents,
    items: Seq<ItemView>,
    count: nat,
    later: nat,
)
    requires
        rounds(direction, source, items, count + 1) == rounds(direction, source, items, count),
        count <= later,
    ensures
        rounds(direction, source, items, later) == rounds(direction, source, items, count),
    decreases later,
{
    if later > count {
        lemma_rounds_stable(direction, source, items, count, (later - 1) as nat);
    }
}

/// Whether `parent` refers to `child`.
pub fn refers_to(parent: &Item, child: &Item, follow_relations: bool) -> (b: bool)
    ensures
        b == refers(parent@, child@, follow_relations),
{
    match &parent.specific {
        ItemSpecific::Node { .. } => false,
        ItemSpecific::Way { refs } => {
            if !child.is_node() {
                return false;
            }
            let mut i: usize = 0;
            while i < refs.len()
                invariant
                    i <= refs@.len(),
                    parent@.specific == (ItemSpecificView::Way { refs: refs@ }),
                    child@.kind() == ItemKind::Node,
                    forall|j: int| 0 <= j < i ==> refs@[j] != child.id,
                decreases refs@.len() - i,
            {
                if refs[i] >= 0 && refs[i] as u64 == child.id {
                    assert(refs@[i as int] == child.id);
                    assert(parent@.specific matches ItemSpecificView::Way { refs: listed }
                        && listed == refs@);
                    return true;
                }
                i = i + 1;
            }
            false
        },
        ItemSpecific::Relation { members } => {
            let kind = child.kind();
            if kind == ItemKind::Relation && !follow_relations {
                return false;
            }
            let ghost views = crate::item::members_view(members@);
            let mut i: usize = 0;
            while i < members.len()
                invariant
                    i <= members@.len(),
                    views == crate::item::members_view(members@),
                    parent@.specific == (ItemSpecificView::Relation { members: views }),
                    kind == child@.kind(),
                    kind != ItemKind::Relation || follow_relations,
                    forall|j: int|
                        0 <= j < i ==> !((#[trigger] views[j]).1 == child.id && views[j].2
                            == kind),
                decreases members@.len() - i,
            {
                if members[i].1 == child.id && members[i].2 == kind {
                    assert(views[i as int].1 == child.id && views[i as int].2 == kind);
                    return true;
                }
                i = i + 1;
            }
            false
        },
    }
}

/// Whether `have` brings in `item` when recursing in the given
/// direction.
pub fn item_brings_in(direction: RecurseType, have: &Item, item: &Item) -> (b: bool)
    ensures
        b == brings_in(direction, have@, item@),
{
    match direction {
        RecurseType::Down => refers_to(have, item, false),
        RecurseType::DownRelations => refers_to(have, item, true),
        RecurseType::Up => refers_to(item, have, false),
        RecurseType::UpRelations => refers_to(item, have, true),
    }
}

/// Whether some item of `set` brings in `item`.
pub fn any_brings_in(direction: RecurseType, set: &ItemSet, item: &Item) -> (b: bool)
    ensures
        b == set_brings_in(direction, set@, item@),
{
    let n = set.len();
    proof {
        set.lemma_items();
    }
    let mut i: usize = 0;
    while i < n
        invariant
            i <= n,
            n == set.items().len(),
            set.inv(),
            forall|j: int| 0 <= j < i ==> !brings_in(direction, set.items()[j], item@),
        decreases n - i,
    {
        if item_brings_in(direction, set.get(i), item) {
            proof {
                set.lemma_items();
                assert(set@.contains_key(set.items()[i as int].key()));
            }
            return true;
        }
        i = i + 1;
    }
    proof {
        if set_brings_in(direction, set@, item@) {
            let k = choose|k: ItemKey| #[trigger]
                set@.contains_key(k) && brings_in(direction, set@[k], item@);
            let j = choose|j: int|
                0 <= j < set.items().len() && #[trigger] set.items()[j] == set@[k];
            assert(!brings_in(direction, set.items()[j], item@));
        }
    }
    false
}

/// One scan of the items: `found` with every item added that an item of
/// `source` or an item found so far brings in, and whether anything was
/// added.
pub fn recurse_round(direction: RecurseType, source: &ItemSet, found: ItemSet, items: &Vec<Item>) -> (r:
    (ItemSet, bool))
    ensures
        r.0@ == round(direction, source@, found@, items_view(items@)),
        !r.1 ==> r.0@ == found@,
{
    let ghost views = items_view(items@);
    let ghost start = found@;
    let mut result = found;
    let mut changed = false;
    let mut i: usize = 0;
    assert(views.subrange(0, 0) =~= Seq::<ItemView>::empty());
    while i < items.len()
        invariant
            i <= items@.len(),
            views == items_view(items@),
            result@ == round(direction, source@, start, views.subrange(0, i as int)),
            !changed ==> result@ == start,
        decreases items@.len() - i,
    {
        proof {
            assert(views.subrange(0, i + 1).drop_last() =~= views.subrange(0, i as int));
            assert(views.subrange(0, i + 1).last() == items@[i as int]@);
        }
        let item = &items[i];
        if !result.contains(item.kind(), item.id) {
            if any_brings_in(direction, source, item) || any_brings_in(direction, &result, item) {
                result.insert(item.clone());
                changed = true;
            }
        }
        i = i + 1;
    }
    assert(views.subrange(0, i as int) =~= views);
    (result, changed)
}

/// What recursing from `source` in the given direction finds among the
/// items.
pub fn recurse(direction: RecurseType, source: &ItemSet, items: &Vec<Item>) -> (r: ItemSet)
    ensures
        r@ == recursed(direction, source@, items_view(items@)),
{
    let ghost views = items_view(items@);
    let mut found = ItemSet::empty();
    let mut count: usize = 0;
    while count < items.len()
        invariant
            count <= items@.len(),
            views == items_view(items@),
            found@ == rounds(direction, source@, views, count as nat),
        decreases items@.len() - count,
    {
        let (next, changed) = recurse_round(direction, source, found, items);
        found = next;
        if !changed {
            proof {
                lemma_rounds_stable(direction, source@, views, count as nat, views.len());
            }
            return found;
        }
        count = count + 1;
    }
    found
}

} // verus!
