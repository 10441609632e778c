use underpass_turbo::item::{Item, ItemKind, ItemSpecific, Tags};
use underpass_turbo::planner::{plan, plan_for, Plan};
use underpass_turbo::process::{
    find_set, merge_digests, next_worker, Processor, ProcessorFactory,
};
use underpass_turbo::process_node::Process;
use underpass_turbo::ql::parser::parse;
use underpass_turbo::ql::{Statement, StatementSpec};
use underpass_turbo::set::ItemSet;
use underpass_turbo::trace::{trace, trace_statement_spec, Tracer};
use underpass_turbo::trace_node::{Trace, UniqueSet, UniqueSets};

fn tags(pairs: &[(&str, &str)]) -> Tags {
    let mut tags = Tags::new();
    for (k, v) in pairs {
        tags.insert(k.to_string(), v.to_string());
    }
    tags
}

fn node(id: u64, pairs: &[(&str, &str)]) -> Item {
    Item::new(id, tags(pairs), ItemSpecific::Node { lat: 51_000_000_000, lon: 13_000_000_000 })
}

fn way(id: u64, pairs: &[(&str, &str)], refs: &[i64]) -> Item {
    Item::new(id, tags(pairs), ItemSpecific::Way { refs: refs.to_vec() })
}

fn keys(set: &ItemSet) -> Vec<(ItemKind, u64)> {
    let mut keys: Vec<(ItemKind, u64)> =
        (0..set.len()).map(|i| (set.get(i).kind(), set.get(i).id)).collect();
    keys.sort_by_key(|(kind, id)| (*kind as u8, *id));
    keys
}

fn select(script: &str, items: &Vec<Item>) -> ItemSet {
    let mut statements = parse(script).unwrap();
    assert_eq!(statements.len(), 1);
    let mut processor = Processor::from_statement(statements.remove(0).statement).unwrap();
    processor.process_all(items);
    processor.digest().remove(0).1
}

fn made_set(made: &Vec<(UniqueSet, ItemSet)>, id: u32) -> ItemSet {
    find_set(made, made.len(), UniqueSet::new(id))
}

/// Traces the script and returns its data flow with the set that its last
/// statement writes.
fn traced(script: &str) -> (Trace, UniqueSet) {
    let mut tracer = Tracer::new();
    let mut last = None;
    for statement in parse(script).unwrap() {
        last = Some(trace_statement_spec(statement, &mut tracer).unwrap());
    }
    (tracer.finish(), last.unwrap())
}

fn run_for_last(script: &str, items: &Vec<Item>) -> (Plan, ItemSet) {
    let (trace, last) = traced(script);
    let mut targets = UniqueSets::new();
    targets.insert(last);
    let plan = plan_for(&trace, &targets);
    let made = plan.run(items);
    let set = find_set(&made, made.len(), last);
    (plan, set)
}

#[test]
fn empty_union() {
    let statements = parse("();").unwrap();
    assert_eq!(statements.len(), 1);
    assert_eq!(statements[0].statement, Statement::Union { members: vec![] });
    let items = vec![node(1, &[]), way(10, &[], &[1, 1])];
    let (plan, set) = run_for_last("();", &items);
    assert_eq!(plan.outputs().len(), 1);
    assert_eq!(plan.passes().len(), 1);
    assert_eq!(set.len(), 0);
}

#[test]
fn node_query() {
    let items = vec![node(1, &[]), node(2, &[]), way(10, &[], &[1, 2])];
    let set = select("node;", &items);
    assert_eq!(keys(&set), vec![(ItemKind::Node, 1), (ItemKind::Node, 2)]);
    let (_, planned) = run_for_last("node;", &items);
    assert_eq!(keys(&planned), vec![(ItemKind::Node, 1), (ItemKind::Node, 2)]);
}

#[test]
fn id_filter() {
    let items = vec![way(123, &[], &[1, 2]), way(124, &[], &[2, 3])];
    assert_eq!(keys(&select("way(123);", &items)), vec![(ItemKind::Way, 123)]);
}

#[test]
fn tag_equality() {
    let items = vec![
        way(1, &[("leisure", "hackerspace")], &[5, 6, 7, 5]),
        way(2, &[("leisure", "hackerspace")], &[5, 6, 7]),
    ];
    assert_eq!(
        keys(&select("area[\"leisure\"=\"hackerspace\"];", &items)),
        vec![(ItemKind::Way, 1)]
    );
}

#[test]
fn case_insensitive_regex() {
    let items = vec![node(1, &[("amenity", "workshop")]), node(2, &[("amenity", "cafe")])];
    assert_eq!(
        keys(&select("node[amenity=~\"Workshop\",i];", &items)),
        vec![(ItemKind::Node, 1)]
    );
    assert_eq!(keys(&select("node[amenity=~\"Workshop\"];", &items)), vec![]);
}

#[test]
fn named_pipeline_with_output() {
    let statements = parse("node->.m; .m->.n; .n out;").unwrap();
    assert_eq!(statements.len(), 3);
    let items = vec![node(1, &[]), way(10, &[], &[1, 2]), node(2, &[])];
    let flow = trace(statements).unwrap();
    assert_eq!(flow.len(), 2);
    assert_eq!(flow.key_at(1), UniqueSet::new(2));
    assert_eq!(flow.node_at(1).process, Process::Output);
    let plan = plan(&flow);
    assert_eq!(plan.outputs().len(), 2);
    assert_eq!(plan.passes(), &vec![vec![UniqueSet::new(1), UniqueSet::new(2)]]);
    let made = plan.run(&items);
    let output = made_set(&made, 2);
    assert_eq!(keys(&output), keys(&select("node;", &items)));
    assert_eq!(keys(&output), vec![(ItemKind::Node, 1), (ItemKind::Node, 2)]);
}

#[test]
fn difference() {
    let items = vec![node(1, &[]), node(2, &[]), node(3, &[]), way(1, &[], &[1, 2])];
    let (plan, set) = run_for_last("( node; - node(1); );", &items);
    assert_eq!(keys(&set), vec![(ItemKind::Node, 2), (ItemKind::Node, 3)]);
    assert_eq!(
        plan.passes(),
        &vec![vec![UniqueSet::new(1), UniqueSet::new(2), UniqueSet::new(3)]]
    );
}

#[test]
fn bounding_box_on_a_way() {
    let items = vec![way(1, &[], &[1, 2]), node(1, &[])];
    assert_eq!(keys(&select("way(50,12,52,14);", &items)), vec![]);
    assert_eq!(keys(&select("node(50,12,52,14);", &items)), vec![(ItemKind::Node, 1)]);
    assert_eq!(keys(&select("nwr(50,12,52,14);", &items)), vec![(ItemKind::Node, 1)]);
}

#[test]
fn multi_file_parallelism() {
    let all = || {
        vec![
            node(1, &[("amenity", "cafe")]),
            way(7, &[], &[1, 2]),
            node(2, &[]),
            node(3, &[("amenity", "cafe")]),
            node(4, &[("amenity", "bar")]),
        ]
    };
    let script = "node[amenity=cafe];";
    let whole = select(script, &all());
    let factory =
        ProcessorFactory::from_statement(parse(script).unwrap().remove(0).statement).unwrap();
    let mut items = all();
    let second_file = items.split_off(2);
    let mut first_worker = factory.generate();
    let mut second_worker = factory.generate();
    first_worker.process_all(&items);
    second_worker.process_all(&second_file);
    let merged = merge_digests(&vec![first_worker.digest(), second_worker.digest()]);
    assert_eq!(merged.len(), 1);
    assert_eq!(merged[0].0, UniqueSet::new(0));
    let merged = merged.into_iter().next().unwrap().1;
    assert_eq!(keys(&merged), keys(&whole));
    assert_eq!(keys(&merged), vec![(ItemKind::Node, 1), (ItemKind::Node, 3)]);
    let mut first_worker = factory.generate();
    let mut second_worker = factory.generate();
    first_worker.process_all(&items);
    second_worker.process_all(&second_file);
    let other_way = ItemSet::merge(vec![
        second_worker.digest().remove(0).1,
        first_worker.digest().remove(0).1,
    ]);
    assert_eq!(keys(&other_way), keys(&whole));
    assert_eq!(merge_digests(&vec![]).len(), 0);
}

#[test]
fn blobs_are_dealt_out_in_turn() {
    assert_eq!(next_worker(0, 3), 1);
    assert_eq!(next_worker(1, 3), 2);
    assert_eq!(next_worker(2, 3), 0);
    assert_eq!(next_worker(0, 1), 0);
}

#[test]
fn a_plan_without_outputs_is_empty() {
    let flow = trace(parse("node; way;").unwrap()).unwrap();
    assert_eq!(flow.len(), 2);
    let plan = plan(&flow);
    assert_eq!(plan.outputs().len(), 0);
    assert_eq!(plan.passes().len(), 0);
}

#[test]
fn a_recursion_waits_for_the_pass_after_its_input() {
    let flow = trace(parse("way->.w; .w > ->.n; node->.x; (.w; .n;); out;").unwrap());
    let flow = flow.unwrap();
    let plan = plan(&flow);
    // way (1), recursion (2), node (3, not needed), union (4), output (5)
    assert_eq!(plan.outputs().len(), 4);
    assert_eq!(
        plan.passes(),
        &vec![vec![UniqueSet::new(1)], vec![UniqueSet::new(2), UniqueSet::new(4), UniqueSet::new(5)]]
    );
    let items = vec![
        node(1, &[]),
        node(2, &[]),
        node(3, &[]),
        way(10, &[], &[1, 2]),
    ];
    let made = plan.run(&items);
    assert_eq!(keys(&made_set(&made, 2)), vec![(ItemKind::Node, 1), (ItemKind::Node, 2)]);
    assert_eq!(
        keys(&made_set(&made, 5)),
        vec![(ItemKind::Node, 1), (ItemKind::Node, 2), (ItemKind::Way, 10)]
    );
    assert!(made.iter().all(|(id, _)| *id != UniqueSet::new(3)));
    assert_eq!(made_set(&made, 3).len(), 0);
    let ids: Vec<u32> = made.iter().map(|(id, _)| id.id).collect();
    assert_eq!(ids, vec![1, 2, 4, 5]);
}

#[test]
fn statement_specs_of_a_script_are_plain_values() {
    let statements: Vec<StatementSpec> = parse("node; out;").unwrap();
    assert_eq!(statements.len(), 2);
}

#[test]
fn a_filter_by_a_named_set_waits_for_that_set() {
    let flow = trace(parse("node[amenity]->.a; way->.w; node.a(2); out;").unwrap()).unwrap();
    let plan = plan(&flow);
    // node[amenity] (1), way (2, not needed), node.a(2) (3), output (4)
    assert_eq!(plan.outputs().len(), 3);
    assert_eq!(
        plan.passes(),
        &vec![vec![UniqueSet::new(1)], vec![UniqueSet::new(3), UniqueSet::new(4)]]
    );
    let items = vec![
        node(1, &[("amenity", "cafe")]),
        node(2, &[("amenity", "bar")]),
        node(3, &[]),
        way(2, &[("amenity", "bar")], &[1, 2]),
    ];
    let made = plan.run(&items);
    assert_eq!(keys(&made_set(&made, 1)), vec![(ItemKind::Node, 1), (ItemKind::Node, 2)]);
    assert_eq!(keys(&made_set(&made, 4)), vec![(ItemKind::Node, 2)]);
    let first = plan.pass_spec(0, &vec![]);
    assert_eq!(first.len(), 1);
    let second = plan.pass_spec(1, &made);
    assert_eq!(second.len(), 1);
}

#[test]
fn one_scan_serves_all_queries_of_a_pass() {
    let flow = trace(parse("(node; way(10); relation;); out;").unwrap()).unwrap();
    let plan = plan(&flow);
    assert_eq!(plan.passes().len(), 1);
    let factory = plan.pass_spec(0, &vec![]);
    assert_eq!(factory.len(), 3);
    let items = vec![node(1, &[]), way(10, &[], &[1]), way(11, &[], &[1]), node(2, &[])];
    let mut worker = factory.generate();
    for item in items.iter() {
        worker.process(item.clone());
    }
    let scan = worker.digest();
    let ids: Vec<u32> = scan.iter().map(|(id, _)| id.id).collect();
    assert_eq!(ids, vec![1, 2, 3]);
    assert_eq!(keys(&scan[0].1), vec![(ItemKind::Node, 1), (ItemKind::Node, 2)]);
    assert_eq!(keys(&scan[1].1), vec![(ItemKind::Way, 10)]);
    assert_eq!(keys(&scan[2].1), vec![]);
    let made = plan.finish_pass(0, &scan, &items, vec![]);
    assert_eq!(
        keys(&made_set(&made, 5)),
        vec![(ItemKind::Node, 1), (ItemKind::Node, 2), (ItemKind::Way, 10)]
    );
    assert_eq!(made.len(), 5);
    let again = plan.run(&items);
    assert_eq!(keys(&made_set(&again, 5)), keys(&made_set(&made, 5)));
}
