use std::sync::Arc;
use underpass_turbo::filter::{eval_filter, eval_filters};
use underpass_turbo::item::{Item, ItemKind, ItemSpecific, Tags};
use underpass_turbo::process::{Processor, ProcessorFactory, QueryNode};
use underpass_turbo::trace_node::UniqueSet;
use underpass_turbo::ql::number::Decimal;
use underpass_turbo::ql::statement::Pattern;
use underpass_turbo::ql::{Filter, QueryType, SetName, Statement, TagSpec};
use underpass_turbo::recurse::{recurse, refers_to};
use underpass_turbo::ql::RecurseType;
use underpass_turbo::set::{ItemSet, NamedSets};

fn tags(pairs: &[(&str, &str)]) -> Tags {
    let mut tags = Tags::new();
    for (k, v) in pairs {
        tags.insert(k.to_string(), v.to_string());
    }
    tags
}

fn node_at(id: u64, lat: i64, lon: i64) -> Item {
    Item::new(id, Tags::new(), ItemSpecific::Node { lat, lon })
}

fn node(id: u64, pairs: &[(&str, &str)]) -> Item {
    Item::new(id, tags(pairs), ItemSpecific::Node { lat: 0, lon: 0 })
}

fn way(id: u64, refs: &[i64]) -> Item {
    Item::new(id, Tags::new(), ItemSpecific::Way { refs: refs.to_vec() })
}

fn relation(id: u64, members: &[(&str, u64, ItemKind)]) -> Item {
    let members = members.iter().map(|(role, id, kind)| (role.to_string(), *id, *kind)).collect();
    Item::new(id, Tags::new(), ItemSpecific::Relation { members })
}

fn holds(filter: &Filter, item: &Item) -> bool {
    eval_filter(filter, item, &NamedSets::new())
}

fn keys(set: &ItemSet) -> Vec<(ItemKind, u64)> {
    let mut keys: Vec<(ItemKind, u64)> =
        (0..set.len()).map(|i| (set.get(i).kind(), set.get(i).id)).collect();
    keys.sort_by_key(|(kind, id)| (*kind as u8, *id));
    keys
}

#[test]
fn regex_flag() {
    let insensitive = TagSpec::from_regex("park", true).unwrap();
    assert!(insensitive.test("Park"));
    assert!(insensitive.test("park"));
    let sensitive = TagSpec::from_regex("park", false).unwrap();
    assert!(!sensitive.test("Park"));
    assert!(sensitive.test("park"));
}

#[test]
fn a_regex_matches_anywhere_and_a_string_exactly() {
    let regex = TagSpec::from_regex("space", false).unwrap();
    assert!(regex.test("hackerspace"));
    assert!(regex.test("spaceship"));
    assert!(!regex.test("spa"));
    let anchored = TagSpec::from_regex("^b$", false).unwrap();
    assert!(anchored.test("a\nb\nc"));
    let string = TagSpec::from_string("space");
    assert!(string.test("space"));
    assert!(!string.test("hackerspace"));
    assert!(!string.test("Space"));
}

#[test]
fn a_copy_of_a_regex_matches_the_same() {
    let regex = TagSpec::from_regex("^a+b$", true).unwrap();
    let copy = regex.clone();
    assert_eq!(copy, regex);
    assert!(copy.test("AAB"));
    assert!(!copy.test("ba"));
    let pattern = Pattern::compile("x.z", false).unwrap();
    let twin = pattern.clone();
    assert_eq!(twin.as_str(), "x.z");
    assert!(!twin.is_case_insensitive());
    assert!(twin.is_match("xyz"));
    assert!(!twin.is_match("xz"));
}

#[test]
fn an_invalid_regex_is_an_error_with_its_source() {
    let error = TagSpec::from_regex("(", false).unwrap_err();
    assert_eq!(error.source, "(");
    assert!(!error.cause.is_empty());
    assert_ne!(error.cause, "(");
    assert!(Pattern::compile("a{2,1}", true).is_err());
}

#[test]
fn tag_specs_are_equal_by_source_and_flag() {
    assert_eq!(TagSpec::from_string("a"), TagSpec::from_string("a"));
    assert_ne!(TagSpec::from_string("a"), TagSpec::from_string("b"));
    assert_eq!(TagSpec::from_regex("a", true).unwrap(), TagSpec::from_regex("a", true).unwrap());
    assert_ne!(TagSpec::from_regex("a", true).unwrap(), TagSpec::from_regex("a", false).unwrap());
    assert_ne!(TagSpec::from_regex("a", true).unwrap(), TagSpec::from_regex("b", true).unwrap());
    assert_ne!(TagSpec::from_regex("a", false).unwrap(), TagSpec::from_string("a"));
}

#[test]
fn id_and_query_type() {
    let n = node(7, &[]);
    let open = way(7, &[1, 2]);
    let closed = way(8, &[1, 2, 1]);
    let r = relation(7, &[]);
    assert!(holds(&Filter::Id(7), &n));
    assert!(holds(&Filter::Id(7), &open));
    assert!(!holds(&Filter::Id(8), &n));
    assert!(holds(&Filter::QueryType(QueryType::Node), &n));
    assert!(!holds(&Filter::QueryType(QueryType::Node), &open));
    assert!(holds(&Filter::QueryType(QueryType::Way), &open));
    assert!(!holds(&Filter::QueryType(QueryType::Way), &r));
    assert!(holds(&Filter::QueryType(QueryType::Relation), &r));
    assert!(!holds(&Filter::QueryType(QueryType::Relation), &n));
    for item in [&n, &open, &closed, &r] {
        assert!(holds(&Filter::QueryType(QueryType::NWR), item));
        assert!(!holds(&Filter::QueryType(QueryType::Derived), item));
    }
    assert!(holds(&Filter::QueryType(QueryType::Area), &closed));
    assert!(!holds(&Filter::QueryType(QueryType::Area), &open));
    assert!(!holds(&Filter::QueryType(QueryType::Area), &n));
    assert!(!holds(&Filter::QueryType(QueryType::Area), &r));
}

#[test]
fn a_bounding_box_includes_its_edges_and_only_nodes() {
    let bbox = Filter::BoundingBox {
        s: Decimal::whole(50),
        w: Decimal::whole(12),
        n: Decimal::new(52, 500_000_000).unwrap(),
        e: Decimal::whole(14),
    };
    assert!(holds(&bbox, &node_at(1, 51_081_083_200, 13_728_652_500)));
    assert!(holds(&bbox, &node_at(1, 50_000_000_000, 12_000_000_000)));
    assert!(holds(&bbox, &node_at(1, 52_500_000_000, 14_000_000_000)));
    assert!(!holds(&bbox, &node_at(1, 49_999_999_999, 13_000_000_000)));
    assert!(!holds(&bbox, &node_at(1, 52_500_000_001, 13_000_000_000)));
    assert!(!holds(&bbox, &node_at(1, 51_000_000_000, 11_999_999_999)));
    assert!(!holds(&bbox, &node_at(1, 51_000_000_000, 14_000_000_001)));
    assert!(!holds(&bbox, &node_at(1, -51_000_000_000, 13_000_000_000)));
    assert!(!holds(&bbox, &way(1, &[1, 2, 1])));
    assert!(!holds(&bbox, &relation(1, &[])));
    let everywhere = Filter::BoundingBox {
        s: Decimal::whole(0),
        w: Decimal::whole(0),
        n: Decimal::whole(u64::MAX),
        e: Decimal::whole(u64::MAX),
    };
    assert!(holds(&everywhere, &node_at(1, i64::MAX, 0)));
    assert!(!holds(&everywhere, &way(1, &[])));
}

#[test]
fn decimals() {
    assert_eq!(Decimal::whole(3), Decimal { units: 3, nanos: 0 });
    assert_eq!(Decimal::new(3, 999_999_999), Some(Decimal { units: 3, nanos: 999_999_999 }));
    assert_eq!(Decimal::new(3, 1_000_000_000), None);
    assert_eq!(Decimal { units: 2, nanos: 5 }.steps(), 2_000_000_005);
    assert_eq!(Decimal::whole(u64::MAX).steps(), 18_446_744_073_709_551_615_000_000_000);
    assert!(Decimal::whole(2).at_most(2_000_000_000));
    assert!(!Decimal::whole(2).at_most(1_999_999_999));
    assert!(Decimal::whole(2).at_least(2_000_000_000));
    assert!(!Decimal::whole(2).at_least(2_000_000_001));
    assert!(Decimal::whole(0).at_least(-1));
}

#[test]
fn tag_filters() {
    let item = node(1, &[("name", "Turmcafe"), ("amenity", "cafe"), ("addr:city", "Dresden")]);
    let exact = |s: &str| TagSpec::from_string(s);
    let regex = |s: &str, ci: bool| TagSpec::from_regex(s, ci).unwrap();
    assert!(holds(&Filter::TagExist { k: exact("name") }, &item));
    assert!(!holds(&Filter::TagExist { k: exact("nam") }, &item));
    assert!(holds(&Filter::TagExist { k: regex("^addr:", false) }, &item));
    assert!(!holds(&Filter::TagExist { k: regex("^ADDR:", false) }, &item));
    assert!(holds(&Filter::TagExist { k: regex("^ADDR:", true) }, &item));
    assert!(!holds(&Filter::TagNotExist { k: exact("name") }, &item));
    assert!(holds(&Filter::TagNotExist { k: exact("shop") }, &item));
    assert!(holds(&Filter::TagNotExist { k: regex("^contact:", false) }, &item));
    assert!(holds(&Filter::TagEqual { k: exact("amenity"), v: exact("cafe") }, &item));
    assert!(!holds(&Filter::TagEqual { k: exact("amenity"), v: exact("caf") }, &item));
    assert!(!holds(&Filter::TagEqual { k: exact("shop"), v: exact("cafe") }, &item));
    assert!(holds(&Filter::TagEqual { k: exact("name"), v: regex("cafe$", false) }, &item));
    assert!(holds(&Filter::TagEqual { k: regex("^a", false), v: exact("Dresden") }, &item));
    assert!(!holds(&Filter::TagEqual { k: regex("^n", false), v: exact("Dresden") }, &item));
    assert!(holds(&Filter::TagEqual { k: regex("e$", false), v: regex("^T", false) }, &item));
    assert!(!holds(&Filter::TagNotEqual { k: exact("amenity"), v: exact("cafe") }, &item));
    assert!(holds(&Filter::TagNotEqual { k: exact("amenity"), v: exact("bar") }, &item));
    assert!(holds(&Filter::TagNotEqual { k: exact("shop"), v: exact("bar") }, &item));
    assert!(!holds(&Filter::TagEqual { k: exact("a"), v: exact("b") }, &node(2, &[])));
    assert!(!holds(&Filter::TagExist { k: regex(".", false) }, &node(2, &[])));
}

#[test]
fn intersection_is_membership_in_a_named_set() {
    let mut sets = NamedSets::new();
    sets.bind(SetName::from("a".to_string()), ItemSet::new(vec![node(1, &[]), way(2, &[])]));
    let in_a = Filter::Intersection(SetName::from("a".to_string()));
    let in_b = Filter::Intersection(SetName::from("b".to_string()));
    assert!(eval_filter(&in_a, &node(1, &[]), &sets));
    assert!(eval_filter(&in_a, &way(2, &[]), &sets));
    assert!(!eval_filter(&in_a, &node(2, &[]), &sets));
    assert!(!eval_filter(&in_b, &node(1, &[]), &sets));
    let factory = ProcessorFactory::new(vec![QueryNode {
        id: UniqueSet::new(9),
        filters: vec![Filter::QueryType(QueryType::Node), in_a],
        sets: Arc::new(sets),
    }]);
    let mut processor = factory.generate();
    processor.process_all(&vec![node(1, &[]), node(2, &[]), way(2, &[])]);
    let digest = processor.digest();
    assert_eq!(digest.len(), 1);
    assert_eq!(digest[0].0, UniqueSet::new(9));
    assert_eq!(keys(&digest[0].1), vec![(ItemKind::Node, 1)]);
}

#[test]
fn an_item_is_selected_iff_every_filter_holds() {
    let sets = NamedSets::new();
    let filters = vec![
        Filter::QueryType(QueryType::Node),
        Filter::TagExist { k: TagSpec::from_string("name") },
        Filter::Id(3),
    ];
    let items = vec![
        node(3, &[("name", "x")]),
        node(3, &[]),
        node(4, &[("name", "x")]),
        way(3, &[]),
    ];
    for item in &items {
        let each = filters.iter().all(|f| eval_filter(f, item, &sets));
        assert_eq!(eval_filters(&filters, item, &sets), each);
    }
    assert!(eval_filters(&filters, &items[0], &sets));
    assert!(!eval_filters(&filters, &items[1], &sets));
    assert!(eval_filters(&vec![], &items[3], &sets));
    let mut processor = Processor::from_statement(Statement::Query { filters }).unwrap();
    for item in items {
        processor.process(item);
    }
    let selected = processor.digest().remove(0).1;
    assert_eq!(selected.len(), 1);
    assert_eq!(selected.get(0).tags.get("name"), Some(&"x".to_string()));
    assert!(Processor::from_statement(Statement::Output).is_none());
    assert!(Processor::from_statement(Statement::Union { members: vec![] }).is_none());
}

#[test]
fn who_refers_to_whom() {
    let n = node(1, &[]);
    let w = way(10, &[1, 2]);
    let r = relation(100, &[("", 10, ItemKind::Way), ("", 1, ItemKind::Node)]);
    let rr = relation(200, &[("", 100, ItemKind::Relation), ("", 10, ItemKind::Node)]);
    assert!(refers_to(&w, &n, false));
    assert!(!refers_to(&w, &node(3, &[]), false));
    assert!(!refers_to(&w, &way(1, &[]), true));
    assert!(!refers_to(&n, &w, true));
    assert!(refers_to(&r, &w, false));
    assert!(refers_to(&r, &n, false));
    assert!(!refers_to(&r, &node(10, &[]), false));
    assert!(!refers_to(&rr, &r, false));
    assert!(refers_to(&rr, &r, true));
    assert!(!refers_to(&rr, &w, true));
    assert!(!refers_to(&way(5, &[-1]), &node(u64::MAX, &[]), false));
}

#[test]
fn recursion_down_and_up() {
    let items = vec![
        node(1, &[]),
        node(2, &[]),
        node(3, &[]),
        way(10, &[1, 2]),
        way(11, &[3]),
        relation(100, &[("", 10, ItemKind::Way), ("", 3, ItemKind::Node)]),
        relation(200, &[("", 100, ItemKind::Relation)]),
    ];
    let from = |item: Item| ItemSet::new(vec![item]);
    let way10 = || way(10, &[1, 2]);
    let rel100 = || relation(100, &[("", 10, ItemKind::Way), ("", 3, ItemKind::Node)]);
    let rel200 = || relation(200, &[("", 100, ItemKind::Relation)]);
    assert_eq!(
        keys(&recurse(RecurseType::Down, &from(way10()), &items)),
        vec![(ItemKind::Node, 1), (ItemKind::Node, 2)]
    );
    assert_eq!(
        keys(&recurse(RecurseType::Down, &from(rel100()), &items)),
        vec![(ItemKind::Node, 1), (ItemKind::Node, 2), (ItemKind::Node, 3), (ItemKind::Way, 10)]
    );
    assert_eq!(keys(&recurse(RecurseType::Down, &from(rel200()), &items)), vec![]);
    assert_eq!(
        keys(&recurse(RecurseType::DownRelations, &from(rel200()), &items)),
        vec![
            (ItemKind::Node, 1),
            (ItemKind::Node, 2),
            (ItemKind::Node, 3),
            (ItemKind::Way, 10),
            (ItemKind::Relation, 100)
        ]
    );
    assert_eq!(
        keys(&recurse(RecurseType::Up, &from(node(1, &[])), &items)),
        vec![(ItemKind::Way, 10), (ItemKind::Relation, 100)]
    );
    assert_eq!(
        keys(&recurse(RecurseType::Up, &from(node(3, &[])), &items)),
        vec![(ItemKind::Way, 11), (ItemKind::Relation, 100)]
    );
    assert_eq!(
        keys(&recurse(RecurseType::UpRelations, &from(node(1, &[])), &items)),
        vec![(ItemKind::Way, 10), (ItemKind::Relation, 100), (ItemKind::Relation, 200)]
    );
    assert_eq!(keys(&recurse(RecurseType::Up, &ItemSet::empty(), &items)), vec![]);
    assert_eq!(keys(&recurse(RecurseType::Down, &from(way10()), &vec![])), vec![]);
}
