use underpass_turbo::item::{Item, ItemKind, ItemSpecific, Tags};
use underpass_turbo::set::{ItemSet, NamedSets};
use underpass_turbo::ql::SetName;

fn tags(pairs: &[(&str, &str)]) -> Tags {
    let mut tags = Tags::new();
    for (k, v) in pairs {
        tags.insert(k.to_string(), v.to_string());
    }
    tags
}

fn node(id: u64, pairs: &[(&str, &str)]) -> Item {
    Item::new(id, tags(pairs), ItemSpecific::Node { lat: 1, lon: 2 })
}

fn way(id: u64, refs: &[i64]) -> Item {
    Item::new(id, Tags::new(), ItemSpecific::Way { refs: refs.to_vec() })
}

fn relation(id: u64, members: &[(&str, u64, ItemKind)]) -> Item {
    let members = members.iter().map(|(role, id, kind)| (role.to_string(), *id, *kind)).collect();
    Item::new(id, Tags::new(), ItemSpecific::Relation { members })
}

fn keys(set: &ItemSet) -> Vec<(ItemKind, u64)> {
    let mut keys: Vec<(ItemKind, u64)> =
        (0..set.len()).map(|i| (set.get(i).kind(), set.get(i).id)).collect();
    keys.sort_by_key(|(kind, id)| (*kind as u8, *id));
    keys
}

#[test]
fn tags_hold_each_key_once() {
    let mut tags = Tags::new();
    assert_eq!(tags.len(), 0);
    tags.insert("name".to_string(), "a".to_string());
    tags.insert("amenity".to_string(), "cafe".to_string());
    tags.insert("name".to_string(), "b".to_string());
    assert_eq!(tags.len(), 2);
    assert_eq!(tags.count(), 2);
    assert_eq!(tags.get("name"), Some(&"b".to_string()));
    assert_eq!(tags.get("amenity"), Some(&"cafe".to_string()));
    assert_eq!(tags.get("shop"), None);
    assert_eq!(tags.key_at(0), "name");
    assert_eq!(tags.value_at(0), "b");
    assert_eq!(tags.key_at(1), "amenity");
    let copy = tags.clone();
    assert_eq!(copy, tags);
    let more = copy.with("shop".to_string(), "x".to_string());
    assert_eq!(more.len(), 3);
    assert_eq!(tags.len(), 2);
}

#[test]
fn kinds_of_items() {
    let n = node(1, &[]);
    let w = way(1, &[1, 2]);
    let r = relation(1, &[("outer", 1, ItemKind::Way)]);
    assert!(n.is_node() && !n.is_way() && !n.is_relation() && !n.is_area());
    assert!(!w.is_node() && w.is_way() && !w.is_relation());
    assert!(!r.is_node() && !r.is_way() && r.is_relation() && !r.is_area());
    assert_eq!(n.kind(), ItemKind::Node);
    assert_eq!(w.kind(), ItemKind::Way);
    assert_eq!(r.kind(), ItemKind::Relation);
    assert_eq!(n.get_lat_lon(), Some((1, 2)));
    assert_eq!(w.get_lat_lon(), None);
    assert_eq!(r.get_lat_lon(), None);
}

#[test]
fn an_area_is_a_closed_way() {
    assert!(way(1, &[5, 6, 7, 5]).is_area());
    assert!(way(1, &[5]).is_area());
    assert!(!way(1, &[5, 6, 7]).is_area());
    assert!(!way(1, &[]).is_area());
    assert!(!node(5, &[]).is_area());
}

#[test]
fn a_copy_of_an_item_is_the_same_item() {
    let r = relation(9, &[("outer", 1, ItemKind::Way), ("", 2, ItemKind::Node)]);
    let copy = r.clone();
    assert_eq!(copy.id, 9);
    assert_eq!(copy.specific, r.specific);
    let n = node(3, &[("a", "b")]).clone();
    assert_eq!(n.tags.get("a"), Some(&"b".to_string()));
    assert_eq!(n.specific, ItemSpecific::Node { lat: 1, lon: 2 });
}

#[test]
fn inserting_twice_yields_one_element() {
    let mut set = ItemSet::empty();
    set.insert(node(1, &[("v", "first")]));
    set.insert(node(1, &[("v", "second")]));
    assert_eq!(set.len(), 1);
    assert_eq!(set.get(0).tags.get("v"), Some(&"first".to_string()));
    assert!(set.contains(ItemKind::Node, 1));
    assert!(!set.contains(ItemKind::Way, 1));
}

#[test]
fn a_way_and_a_node_of_one_id_are_two_items() {
    let set = ItemSet::new(vec![node(5, &[]), way(5, &[1]), node(5, &[])]);
    assert_eq!(keys(&set), vec![(ItemKind::Node, 5), (ItemKind::Way, 5)]);
}

#[test]
fn merging_is_associative_and_has_the_empty_set_as_unit() {
    let a = || ItemSet::new(vec![node(1, &[("from", "a")]), node(2, &[("from", "a")])]);
    let b = || ItemSet::new(vec![node(2, &[("from", "b")]), node(3, &[("from", "b")])]);
    let c = || ItemSet::new(vec![node(3, &[("from", "c")]), node(4, &[("from", "c")])]);
    let left = ItemSet::merge(vec![ItemSet::merge(vec![a(), b()]), c()]);
    let right = ItemSet::merge(vec![a(), ItemSet::merge(vec![b(), c()])]);
    let flat = ItemSet::merge(vec![a(), b(), c()]);
    let origin = |set: &ItemSet| {
        let mut found: Vec<(u64, String)> = (0..set.len())
            .map(|i| (set.get(i).id, set.get(i).tags.get("from").unwrap().clone()))
            .collect();
        found.sort();
        found
    };
    let expected = vec![
        (1, "a".to_string()),
        (2, "a".to_string()),
        (3, "b".to_string()),
        (4, "c".to_string()),
    ];
    assert_eq!(origin(&left), expected);
    assert_eq!(origin(&right), expected);
    assert_eq!(origin(&flat), expected);
    assert_eq!(origin(&ItemSet::merge(vec![a(), ItemSet::empty()])), origin(&a()));
    assert_eq!(origin(&ItemSet::merge(vec![ItemSet::empty(), a()])), origin(&a()));
    assert_eq!(ItemSet::merge(vec![]).len(), 0);
}

#[test]
fn difference_and_absorb() {
    let a = ItemSet::new(vec![node(1, &[]), node(2, &[]), way(2, &[])]);
    let b = ItemSet::new(vec![node(2, &[]), node(7, &[])]);
    assert_eq!(keys(&a.minus(&b)), vec![(ItemKind::Node, 1), (ItemKind::Way, 2)]);
    assert_eq!(keys(&b.minus(&a)), vec![(ItemKind::Node, 7)]);
    let mut c = a.clone();
    c.absorb(b);
    assert_eq!(
        keys(&c),
        vec![(ItemKind::Node, 1), (ItemKind::Node, 2), (ItemKind::Node, 7), (ItemKind::Way, 2)]
    );
    let mut d = ItemSet::empty();
    d.extend(vec![node(4, &[]), node(4, &[]), node(3, &[])]);
    assert_eq!(keys(&d), vec![(ItemKind::Node, 3), (ItemKind::Node, 4)]);
}

#[test]
fn a_name_is_bound_to_the_latest_set() {
    let mut sets = NamedSets::new();
    let name = SetName::from("a".to_string());
    assert!(sets.get(&name).is_none());
    sets.bind(SetName::from("a".to_string()), ItemSet::new(vec![node(1, &[])]));
    sets.bind(SetName::from("b".to_string()), ItemSet::empty());
    sets.bind(SetName::from("a".to_string()), ItemSet::new(vec![node(2, &[]), node(3, &[])]));
    assert_eq!(keys(sets.get(&name).unwrap()), vec![(ItemKind::Node, 2), (ItemKind::Node, 3)]);
    assert_eq!(sets.get(&SetName::from("b".to_string())).unwrap().len(), 0);
    assert!(sets.get(&SetName::default()).is_none());
}
