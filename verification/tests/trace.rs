use underpass_turbo::process_node::Process;
use underpass_turbo::ql::{Filter, QueryType, SetName, Statement, StatementSpec};
use underpass_turbo::planner::plan;
use underpass_turbo::ql::parser::parse;
use underpass_turbo::trace::{
    trace, trace_statement_spec, ResolveError, TraceError, Tracer, UniqueSetGenerator,
};
use underpass_turbo::trace_node::{PlanError, Trace, TraceNode, UniqueSet, UniqueSets};

#[test]
fn test_trace_simple() {
    let nodes = trace(vec![
        StatementSpec {
            inputs: vec![],
            statement: Statement::Query { filters: vec![] },
            output: SetName::default(),
        },
        StatementSpec {
            inputs: vec![SetName::default()],
            statement: Statement::Output,
            output: SetName::default(),
        },
    ])
    .unwrap();
    let output_nodes = (0..nodes.len())
        .filter(|i| nodes.node_at(*i).process == Process::Output)
        .collect::<Vec<_>>();
    assert_eq!(output_nodes.len(), 1);
    let output_inputs = &nodes.node_at(output_nodes[0]).input_sets;
    let query_nodes = (0..nodes.len())
        .filter(|i| output_inputs.contains(nodes.key_at(*i)))
        .collect::<Vec<_>>();
    assert_eq!(query_nodes.len(), 1);
    assert_eq!(nodes.node_at(query_nodes[0]).process, Process::Query { filters: vec![] });
}

fn query(output: &str) -> StatementSpec {
    StatementSpec {
        inputs: vec![],
        statement: Statement::Query { filters: vec![Filter::QueryType(QueryType::Node)] },
        output: SetName::from(output.to_string()),
    }
}

#[test]
fn tracing_twice_gives_the_same_data_flow() {
    let script = || {
        vec![
            query("a"),
            StatementSpec {
                inputs: vec![],
                statement: Statement::Union { members: vec![query("_"), query("_")] },
                output: SetName::from("b".to_string()),
            },
            StatementSpec {
                inputs: vec![SetName::from("b".to_string())],
                statement: Statement::Output,
                output: SetName::default(),
            },
        ]
    };
    let first = trace(script()).unwrap();
    let second = trace(script()).unwrap();
    assert_eq!(first, second);
    assert_eq!(first.len(), 5);
}

#[test]
fn ids_count_up_from_one_and_a_union_reads_its_members() {
    let nodes = trace(vec![StatementSpec {
        inputs: vec![],
        statement: Statement::Union { members: vec![query("_"), query("_")] },
        output: SetName::default(),
    }])
    .unwrap();
    assert_eq!(nodes.len(), 3);
    assert_eq!(nodes.key_at(0), UniqueSet::new(1));
    assert_eq!(nodes.key_at(1), UniqueSet::new(2));
    assert_eq!(nodes.key_at(2), UniqueSet::new(3));
    let union = nodes.node_at(2);
    assert_eq!(union.process, Process::Union);
    assert_eq!(union.input_sets.len(), 2);
    assert!(union.input_sets.contains(UniqueSet::new(1)));
    assert!(union.input_sets.contains(UniqueSet::new(2)));
    assert_eq!(nodes.node_at(0).input_sets.len(), 0);
}

#[test]
fn a_difference_keeps_source_and_remove_apart() {
    let nodes = trace(vec![StatementSpec {
        inputs: vec![],
        statement: Statement::Difference {
            source: Box::new(query("_")),
            remove: Box::new(query("_")),
        },
        output: SetName::default(),
    }])
    .unwrap();
    assert_eq!(nodes.len(), 3);
    assert_eq!(
        nodes.node_at(2).process,
        Process::Difference { source: UniqueSet::new(1), remove: UniqueSet::new(2) }
    );
}

#[test]
fn an_item_statement_binds_a_name_and_makes_no_node() {
    let mut tracer = Tracer::new();
    let first = trace_statement_spec(query("m"), &mut tracer).unwrap();
    let second = trace_statement_spec(
        StatementSpec {
            inputs: vec![SetName::from("m".to_string())],
            statement: Statement::Item,
            output: SetName::from("n".to_string()),
        },
        &mut tracer,
    )
    .unwrap();
    assert_eq!(first, second);
    assert_eq!(tracer.get_set(&SetName::from("n".to_string())), Some(first));
    assert_eq!(tracer.get_set(&SetName::from("x".to_string())), None);
    assert_eq!(tracer.finish().len(), 1);
}

#[test]
fn a_name_is_bound_to_its_latest_set() {
    let mut tracer = Tracer::new();
    let first = trace_statement_spec(query("a"), &mut tracer).unwrap();
    let second = trace_statement_spec(query("a"), &mut tracer).unwrap();
    assert_ne!(first, second);
    assert_eq!(tracer.get_set(&SetName::from("a".to_string())), Some(second));
}

#[test]
fn an_unbound_name_is_an_error() {
    let result = trace(vec![StatementSpec {
        inputs: vec![SetName::from("a".to_string())],
        statement: Statement::Output,
        output: SetName::default(),
    }]);
    assert_eq!(result, Err(TraceError::Resolve(ResolveError { name: SetName::from("a".to_string()) })));
}

#[test]
fn an_item_statement_needs_one_input() {
    let result = trace(vec![StatementSpec {
        inputs: vec![],
        statement: Statement::Item,
        output: SetName::default(),
    }]);
    assert_eq!(result, Err(TraceError::ItemInputs));
}

#[test]
fn an_area_test_has_no_data_flow() {
    let result = trace(vec![StatementSpec {
        inputs: vec![],
        statement: Statement::IsInArea,
        output: SetName::default(),
    }]);
    assert_eq!(result, Err(TraceError::Unsupported));
}

fn node(inputs: &[u32], process: Process) -> TraceNode {
    let mut input_sets = UniqueSets::new();
    for id in inputs {
        input_sets.insert(UniqueSet::new(*id));
    }
    TraceNode { input_sets, process, named_sets: vec![] }
}

#[test]
fn a_data_flow_by_hand_must_be_well_ordered() {
    let good = Trace::new(vec![
        (UniqueSet::new(7), node(&[], Process::Union)),
        (UniqueSet::new(3), node(&[7], Process::Output)),
    ]);
    assert!(good.is_ok());
    let twice = Trace::new(vec![
        (UniqueSet::new(7), node(&[], Process::Union)),
        (UniqueSet::new(7), node(&[], Process::Output)),
    ]);
    assert_eq!(twice, Err(PlanError::Rewritten(UniqueSet::new(7))));
    let dangling = Trace::new(vec![(UniqueSet::new(1), node(&[2], Process::Output))]);
    assert_eq!(dangling, Err(PlanError::Unsatisfiable(UniqueSet::new(2))));
    let cycle = Trace::new(vec![
        (UniqueSet::new(1), node(&[2], Process::Union)),
        (UniqueSet::new(2), node(&[1], Process::Union)),
    ]);
    assert_eq!(cycle, Err(PlanError::Unsatisfiable(UniqueSet::new(2))));
}

#[test]
fn a_query_refers_to_the_sets_that_its_filters_name() {
    let mut tracer = Tracer::new();
    let a = trace_statement_spec(query("a"), &mut tracer).unwrap();
    let _b = trace_statement_spec(query("b"), &mut tracer).unwrap();
    let a_again = trace_statement_spec(query("a"), &mut tracer).unwrap();
    let filtered = StatementSpec {
        inputs: vec![],
        statement: Statement::Query {
            filters: vec![
                Filter::QueryType(QueryType::Way),
                Filter::Intersection(SetName::from("a".to_string())),
            ],
        },
        output: SetName::default(),
    };
    let id = trace_statement_spec(filtered, &mut tracer).unwrap();
    let flow = tracer.finish();
    let node = flow.get_by_output(id).unwrap();
    assert_eq!(node.input_sets.len(), 0);
    assert_eq!(node.named_sets, vec![(SetName::from("a".to_string()), a_again)]);
    assert_ne!(a, a_again);
    let reads = node.reads();
    assert_eq!(reads.len(), 1);
    assert!(reads.contains(a_again));
    let mut satisfied = UniqueSets::new();
    assert!(!node.are_all_inputs_satisfied(&satisfied));
    satisfied.insert(a_again);
    assert!(node.are_all_inputs_satisfied(&satisfied));

    let unbound = trace(vec![StatementSpec {
        inputs: vec![],
        statement: Statement::Query {
            filters: vec![Filter::Intersection(SetName::from("x".to_string()))],
        },
        output: SetName::default(),
    }]);
    assert_eq!(unbound, Err(TraceError::Resolve(ResolveError { name: SetName::from("x".to_string()) })));
}

#[test]
fn the_generator_counts_up() {
    let mut generator = UniqueSetGenerator::new();
    assert_eq!(generator.next(), Some(UniqueSet::new(1)));
    assert_eq!(generator.next(), Some(UniqueSet::new(2)));
    let mut spent = UniqueSetGenerator { last: u32::MAX };
    assert_eq!(spent.next(), None);
    assert_eq!(spent.last, u32::MAX);
}

#[test]
fn what_the_outputs_need() {
    let flow = trace(parse("node->.a; way->.b; (.a; relation;); out; .b > ->.c;").unwrap());
    let flow = flow.unwrap();
    // node (1), way (2), relation (3), union (4), output (5), recursion (6)
    assert_eq!(flow.len(), 6);
    let outputs = flow.output_nodes();
    assert_eq!(outputs.len(), 1);
    assert!(outputs.contains(UniqueSet::new(5)));
    let needed = flow.trace_back_from_outputs();
    assert_eq!(needed.len(), 4);
    for id in [1, 3, 4, 5] {
        assert!(needed.contains(UniqueSet::new(id)));
    }
    assert!(!needed.contains(UniqueSet::new(2)));
    assert!(!needed.contains(UniqueSet::new(6)));
    let mut from = UniqueSets::new();
    from.insert(UniqueSet::new(6));
    let for_recursion = flow.trace_back_from(&from);
    assert_eq!(for_recursion.len(), 2);
    assert!(for_recursion.contains(UniqueSet::new(2)));
    assert!(for_recursion.contains(UniqueSet::new(6)));
    assert_eq!(flow.needed_flags(&from), vec![false, true, false, false, false, true]);
    assert_eq!(flow.position(UniqueSet::new(4)), Some(3));
    assert_eq!(flow.position(UniqueSet::new(9)), None);
    assert!(flow.get_by_output(UniqueSet::new(9)).is_none());
    assert_eq!(flow.clone(), flow);
}

#[test]
fn nodes_added_by_hand() {
    let mut tracer = Tracer::new();
    let a = SetName::from("a".to_string());
    let first = tracer.add_node(&vec![], Process::Union, SetName::from("a".to_string()));
    assert_eq!(first, Ok(UniqueSet::new(1)));
    let second = tracer.add_node(&vec![SetName::from("a".to_string())], Process::Output, SetName::default());
    assert_eq!(second, Ok(UniqueSet::new(2)));
    let missing = tracer.add_node(&vec![SetName::from("x".to_string())], Process::Output, SetName::default());
    assert_eq!(
        missing,
        Err(TraceError::Resolve(ResolveError { name: SetName::from("x".to_string()) }))
    );
    assert_eq!(tracer.resolve(&vec![SetName::from("a".to_string()), SetName::default()]).unwrap().len(), 2);
    tracer.link(UniqueSet::new(1), SetName::from("b".to_string()));
    assert_eq!(tracer.get_set(&SetName::from("b".to_string())), Some(UniqueSet::new(1)));
    assert_eq!(tracer.get_set(&a), Some(UniqueSet::new(1)));
    let mut inputs = UniqueSets::new();
    inputs.insert(UniqueSet::new(2));
    let third = tracer.add_node_with_sets(inputs, vec![], Process::Union, a);
    assert_eq!(third, Ok(UniqueSet::new(3)));
    let flow = tracer.finish();
    assert_eq!(flow.len(), 3);
    assert!(flow.node_at(2).input_sets.contains(UniqueSet::new(2)));
    let grown = flow.with(UniqueSet::new(3), node(&[], Process::Union));
    assert_eq!(grown, Err(PlanError::Rewritten(UniqueSet::new(3))));
}

#[test]
fn every_set_of_a_plan_stands_behind_what_it_needs() {
    let script = "node->.a; way.a->.b; .b > ->.c; (.a; .c; relation;)->.d; ( .d; - .b; ); out; \
                  .c out; relation->.unused;";
    let flow = trace(parse(script).unwrap()).unwrap();
    let plan = plan(&flow);
    let passes = plan.passes();
    let mut seen: Vec<UniqueSet> = Vec::new();
    for pass in passes.iter() {
        assert!(!pass.is_empty());
        let before_pass = seen.clone();
        let mut only_queries = true;
        for id in pass.iter() {
            assert!(!seen.contains(id));
            let node = plan.outputs().get_by_output(*id).unwrap();
            let reads = node.reads();
            let ready = if node.process.is_query_family() { &before_pass } else { &seen };
            for i in 0..reads.len() {
                assert!(ready.contains(&reads.get(i)));
            }
            if node.process.is_query_family() {
                assert!(only_queries);
            } else {
                only_queries = false;
            }
            seen.push(*id);
        }
    }
    assert_eq!(seen.len(), plan.outputs().len());
    assert_eq!(passes.len(), 3);
    assert_eq!(passes[0], vec![UniqueSet::new(1), UniqueSet::new(4)]);
    assert_eq!(passes[1], vec![UniqueSet::new(2)]);
    assert!(!seen.contains(&UniqueSet::new(9)));
}
