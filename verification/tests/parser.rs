use underpass_turbo::ql::parser::{parse, ScriptError};
use underpass_turbo::ql::{
    Decimal, Filter, QueryType, RecurseType, SetName, Statement, StatementSpec, TagSpec,
};

#[test]
fn test_empty_union() {
    assert_eq!(parse("();"), Ok(vec![StatementSpec {
        inputs: vec![],
        statement: Statement::Union { members: vec![] },
        output: SetName::default(),
    }]));
}

#[test]
fn test_union() {
    assert_eq!(parse("( node; way; relation; );"), Ok(vec![StatementSpec {
        inputs: vec![],
        statement: Statement::Union { members: vec![
            StatementSpec {
                inputs: vec![],
                statement: Statement::Query {
                    filters: vec![Filter::QueryType(QueryType::Node)],
                },
                output: SetName::default(),
            },
            StatementSpec {
                inputs: vec![],
                statement: Statement::Query {
                    filters: vec![Filter::QueryType(QueryType::Way)],
                },
                output: SetName::default(),
            },
            StatementSpec {
                inputs: vec![],
                statement: Statement::Query {
                    filters: vec![Filter::QueryType(QueryType::Relation)],
                },
                output: SetName::default(),
            },
        ] },
        output: SetName::default(),
    }]));
}

#[test]
fn test_difference() {
    assert_eq!(parse("( node; - way; );"), Ok(vec![StatementSpec {
        inputs: vec![],
        statement: Statement::Difference {
            source: Box::new(StatementSpec {
                inputs: vec![],
                statement: Statement::Query {
                    filters: vec![Filter::QueryType(QueryType::Node)],
                },
                output: SetName::default(),
            }),
            remove: Box::new(StatementSpec {
                inputs: vec![],
                statement: Statement::Query {
                    filters: vec![Filter::QueryType(QueryType::Way)],
                },
                output: SetName::default(),
            }),
        },
        output: SetName::default(),
    }]));
}

#[test]
fn test_item_default() {
    assert_eq!(parse("._;"), Ok(vec![StatementSpec {
        inputs: vec![SetName::default()],
        statement: Statement::Item,
        output: SetName::default(),
    }]));
}

#[test]
fn test_item_named_input() {
    assert_eq!(parse(".test;"), Ok(vec![StatementSpec {
        inputs: vec![SetName::from("test".to_string())],
        statement: Statement::Item,
        output: SetName::default(),
    }]));
}

#[test]
fn test_item_named_input_to_output() {
    assert_eq!(parse(".test -> .new;"), Ok(vec![StatementSpec {
        inputs: vec![SetName::from("test".to_string())],
        statement: Statement::Item,
        output: SetName::from("new".to_string()),
    }]));
}

#[test]
fn test_query_node() {
    assert_eq!(parse("node;"), Ok(vec![StatementSpec {
        inputs: vec![],
        statement: Statement::Query {
            filters: vec![Filter::QueryType(QueryType::Node)],
        },
        output: SetName::default(),
    }]));
}

#[test]
fn test_query_way_filter_id() {
    assert_eq!(parse("way(123);"), Ok(vec![StatementSpec {
        inputs: vec![],
        statement: Statement::Query {
            filters: vec![
                Filter::QueryType(QueryType::Way),
                Filter::Id(123),
            ],
        },
        output: SetName::default(),
    }]));
}

#[test]
fn test_query_way_filter_intersection() {
    assert_eq!(parse("node.a;"), Ok(vec![StatementSpec {
        inputs: vec![],
        statement: Statement::Query {
            filters: vec![
                Filter::QueryType(QueryType::Node),
                Filter::Intersection(SetName::from("a".to_string())),
            ],
        },
        output: SetName::default(),
    }]));
}

#[test]
fn test_query_way_filter_multi_intersection() {
    assert_eq!(parse("node.a.b .c;"), Ok(vec![StatementSpec {
        inputs: vec![],
        statement: Statement::Query {
            filters: vec![
                Filter::QueryType(QueryType::Node),
                Filter::Intersection(SetName::from("a".to_string())),
                Filter::Intersection(SetName::from("b".to_string())),
                Filter::Intersection(SetName::from("c".to_string())),
            ],
        },
        output: SetName::default(),
    }]));
}

#[test]
fn test_query_filter_key_exist_string() {
    let expected: Result<Vec<StatementSpec>, ScriptError> = Ok(vec![StatementSpec {
            inputs: vec![],
            statement: Statement::Query {
                filters: vec![
                    Filter::QueryType(QueryType::Node),
                    Filter::TagExist { k: TagSpec::from_string("name") },
                ],
            },
            output: SetName::default(),
        }]);
    assert_eq!(parse("node[\"name\"];"), expected);
    assert_eq!(parse("node['name'];"), expected);
    assert_eq!(parse("node[name];"), expected);
}

#[test]
fn test_query_filter_key_not_exist_string() {
    let expected: Result<Vec<StatementSpec>, ScriptError> = Ok(vec![StatementSpec {
            inputs: vec![],
            statement: Statement::Query {
                filters: vec![
                    Filter::QueryType(QueryType::Node),
                    Filter::TagNotExist { k: TagSpec::from_string("name") },
                ],
            },
            output: SetName::default(),
        }]);
    assert_eq!(parse("node[!\"name\"];"), expected);
    assert_eq!(parse("node[! 'name'];"), expected);
    assert_eq!(parse("node[!name];"), expected);
}

#[test]
fn test_query_filter_key_exist_regex() {
    let expected: Result<Vec<StatementSpec>, ScriptError> = Ok(vec![StatementSpec {
            inputs: vec![],
            statement: Statement::Query {
                filters: vec![
                    Filter::QueryType(QueryType::Node),
                    Filter::TagExist { k: TagSpec::from_regex("name", false).unwrap() },
                ],
            },
            output: SetName::default(),
        }]);
    assert_eq!(parse("node[~\"name\"];"), expected);
    assert_eq!(parse("node[~'name'];"), expected);
    assert_eq!(parse("node[~name];"), expected);
}

#[test]
fn test_query_filter_key_not_exist_regex() {
    let expected: Result<Vec<StatementSpec>, ScriptError> = Ok(vec![StatementSpec {
            inputs: vec![],
            statement: Statement::Query {
                filters: vec![
                    Filter::QueryType(QueryType::Node),
                    Filter::TagNotExist { k: TagSpec::from_regex("name", false).unwrap() },
                ],
            },
            output: SetName::default(),
        }]);
    assert_eq!(parse("node[! ~ \"name\"];"), expected);
    assert_eq!(parse("node[!~'name'];"), expected);
    assert_eq!(parse("node[! ~name];"), expected);
}

#[test]
fn test_query_filter_key_exist_regex_case_insensitive() {
    let expected: Result<Vec<StatementSpec>, ScriptError> = Ok(vec![StatementSpec {
            inputs: vec![],
            statement: Statement::Query {
                filters: vec![
                    Filter::QueryType(QueryType::Node),
                    Filter::TagExist { k: TagSpec::from_regex("name", true).unwrap() },
                ],
            },
            output: SetName::default(),
        }]);
    assert_eq!(parse("node[~\"name\",i];"), expected);
    assert_eq!(parse("node[~'name',i];"), expected);
    assert_eq!(parse("node[~name,i];"), expected);
}

#[test]
fn test_query_filter_key_value() {
    let expected: Result<Vec<StatementSpec>, ScriptError> = Ok(vec![StatementSpec {
            inputs: vec![],
            statement: Statement::Query {
                filters: vec![
                    Filter::QueryType(QueryType::Area),
                    Filter::TagEqual {
                        k: TagSpec::from_string("leisure"),
                        v: TagSpec::from_string("hackerspace"),
                    },
                ],
            },
            output: SetName::default(),
        }]);
    assert_eq!(parse("area[\"leisure\" = \"hackerspace\"];"), expected);
    assert_eq!(parse("area[ 'leisure' = 'hackerspace' ];"), expected);
    assert_eq!(parse("area[leisure=hackerspace];"), expected);
}

#[test]
fn test_query_filter_many() {
    assert_eq!(
        parse(r#"
nwr (5)
[! ~addr,i]
(50, 12, 52, 14)
[internet_access]
[leisure=hackerspace]
[amenity=~"workshop",i]
;
"#),
        Ok(vec![StatementSpec {
            inputs: vec![],
            statement: Statement::Query {
                filters: vec![
                    Filter::QueryType(QueryType::NWR),
                    Filter::Id(5),
                    Filter::TagNotExist {
                        k: TagSpec::from_regex("addr", true).unwrap()
                    },
                    Filter::BoundingBox {
                        s: Decimal::whole(50), w: Decimal::whole(12),
                        n: Decimal::whole(52), e: Decimal::whole(14),
                    },
                    Filter::TagExist {
                        k: TagSpec::from_string("internet_access")
                    },
                    Filter::TagEqual {
                        k: TagSpec::from_string("leisure"),
                        v: TagSpec::from_string("hackerspace"),
                    },
                    Filter::TagEqual {
                        k: TagSpec::from_string("amenity"),
                        v: TagSpec::from_regex("workshop", true).unwrap(),
                    },
                ],
            },
            output: SetName::default(),
        }])
    );
}

#[test]
fn test_recurse() {
    assert_eq!(parse("<; .a <<; > -> .b; .a >> -> .b;"), Ok(vec![
        StatementSpec {
            inputs: vec![SetName::default()],
            statement: Statement::Recurse(RecurseType::Up),
            output: SetName::default(),
        },
        StatementSpec {
            inputs: vec![SetName::from("a".to_string())],
            statement: Statement::Recurse(RecurseType::UpRelations),
            output: SetName::default(),
        },
        StatementSpec {
            inputs: vec![SetName::default()],
            statement: Statement::Recurse(RecurseType::Down),
            output: SetName::from("b".to_string()),
        },
        StatementSpec {
            inputs: vec![SetName::from("a".to_string())],
            statement: Statement::Recurse(RecurseType::DownRelations),
            output: SetName::from("b".to_string()),
        },
    ]));
}

#[test]
fn test_output() {
    assert_eq!(parse("out;"), Ok(vec![StatementSpec {
        inputs: vec![SetName::default()],
        statement: Statement::Output,
        output: SetName::default(),
    }]));
}

#[test]
fn test_output_named_input() {
    assert_eq!(parse(".test out;"), Ok(vec![StatementSpec {
        inputs: vec![SetName::from("test".to_string())],
        statement: Statement::Output,
        output: SetName::default(),
    }]));
}

#[test]
fn test_output_many_statements() {
    assert_eq!(parse("node->.m; .m->.n; .n out;"), Ok(vec![
        StatementSpec {
            inputs: vec![],
            statement: Statement::Query {
                filters: vec![
                    Filter::QueryType(QueryType::Node),
                ],
            },
            output: SetName::from("m".to_string()),
        },
        StatementSpec {
            inputs: vec![SetName::from("m".to_string())],
            statement: Statement::Item,
            output: SetName::from("n".to_string()),
        },
        StatementSpec {
            inputs: vec![SetName::from("n".to_string())],
            statement: Statement::Output,
            output: SetName::default(),
        },
    ]));
}
