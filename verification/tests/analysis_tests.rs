//! Tests of the weight arithmetic, the stores, the dependency analysis and
//! the structural validation.

use differential_datalog::ast::{Arrangement, CachingMode, DelayedRelation, Dep, ProgNode,
    Program, RecursiveRelation, Relation, Rule, XFormArrangement, XFormCollection};
use differential_datalog::delta::{delta_dec, delta_inc, DeltaSet};
use differential_datalog::kv::{KvMap, KvSet};
use differential_datalog::weight::CheckedWeight;

fn relation(id: usize, rules: Vec<Rule>, arrangements: Vec<Arrangement>) -> Relation {
    Relation {
        name: format!("R{}", id),
        input: rules.is_empty(),
        distinct: false,
        caching_mode: CachingMode::CacheSet,
        keyed: false,
        id,
        rules,
        arrangements,
    }
}

#[test]
fn checked_weight_arithmetic() {
    let one = CheckedWeight::one();
    let zero = CheckedWeight::zero();
    assert!(zero.is_zero());
    assert!(!one.is_zero());
    assert_eq!(one.add(one).value, 2);
    assert_eq!(CheckedWeight::from_value(-3).mul(CheckedWeight::from_value(7)).value, -21);
    assert_eq!(CheckedWeight::from_value(5).neg().value, -5);
    assert_eq!(CheckedWeight::from_value(-7).to_i64(), -7);
}

#[test]
fn kv_map_basics() {
    let mut m: KvMap<u64> = KvMap::new();
    assert_eq!(m.len(), 0);
    assert_eq!(m.insert(1, 10), None);
    assert_eq!(m.insert(2, 20), None);
    assert_eq!(m.insert(1, 11), Some(10));
    assert_eq!(m.len(), 2);
    assert_eq!(m.get(1), Some(11));
    assert_eq!(m.get(3), None);
    assert!(m.contains_key(2));
    assert_eq!(m.remove(2), Some(20));
    assert_eq!(m.remove(2), None);
    assert_eq!(m.len(), 1);
    m.clear();
    assert_eq!(m.len(), 0);
}

#[test]
fn kv_set_basics() {
    let mut s = KvSet::new();
    assert!(s.insert(5));
    assert!(!s.insert(5));
    assert!(s.contains(5));
    assert_eq!(s.len(), 1);
    assert!(s.remove(5));
    assert!(!s.remove(5));
    assert_eq!(s.len(), 0);
}

#[test]
fn delta_coalesces_to_zero() {
    let mut d: DeltaSet = KvMap::new();
    delta_inc(&mut d, 7);
    assert_eq!(d.get(7), Some(1));
    delta_inc(&mut d, 7);
    assert_eq!(d.get(7), Some(2));
    delta_dec(&mut d, 7);
    delta_dec(&mut d, 7);
    // A count that reaches zero is removed, not stored.
    assert_eq!(d.get(7), None);
    assert_eq!(d.len(), 0);
    delta_dec(&mut d, 7);
    assert_eq!(d.get(7), Some(-1));
}

#[test]
fn chain_dependencies() {
    // Arrange, then join against (5,0), then stream-join the result against
    // relation 9's changes.
    let chain = XFormCollection::Arrange {
        next: Box::new(XFormArrangement::Join {
            arrangement: (5, 0),
            next: Box::new(Some(XFormCollection::StreamJoin {
                arrangement: (6, 1),
                next: Box::new(None),
            })),
        }),
    };
    let deps = chain.dependencies();
    assert_eq!(deps.len(), 2);
    assert!(deps.contains(&Dep::Arr((5, 0))));
    assert!(deps.contains(&Dep::Arr((6, 1))));

    let rule = Rule::CollectionRule { rel: 3, xform: Some(chain) };
    let rdeps = rule.dependencies();
    assert_eq!(rdeps.len(), 3);
    assert!(rdeps.contains(&Dep::Rel(3)));
    assert!(rule.uses_arrangement((5, 0)));
    assert!(!rule.uses_arrangement((5, 1)));
}

#[test]
fn dep_relid() {
    assert_eq!(Dep::Rel(4).relid(), 4);
    assert_eq!(Dep::Arr((7, 2)).relid(), 7);
}

#[test]
fn arrangement_usage_scan() {
    let source = relation(0, vec![], vec![Arrangement::MapArr { queryable: true }]);
    let user = relation(
        1,
        vec![Rule::CollectionRule {
            rel: 0,
            xform: Some(XFormCollection::Arrange {
                next: Box::new(XFormArrangement::Join { arrangement: (0, 0), next: Box::new(None) }),
            }),
        }],
        vec![],
    );
    let bystander = relation(2, vec![Rule::CollectionRule { rel: 0, xform: None }], vec![]);
    let prog = Program {
        nodes: vec![
            ProgNode::Rel { rel: source },
            ProgNode::Rel { rel: user },
            ProgNode::Rel { rel: bystander },
        ],
        delayed_rels: Vec::new(),
        init_data: Vec::new(),
    };
    assert_eq!(prog.arrangement_used_by_nodes((0, 0)), vec![1]);
    assert!(prog.get_relation(2).is_some());
    assert!(prog.get_relation(9).is_none());
    assert_eq!(prog.input_relations().unwrap(), vec![0]);
}

#[test]
fn antijoin_requires_distinct() {
    // An antijoin against a set arrangement whose distinct flag is off is a
    // build-time error; with the flag on the program is accepted.
    let build = |distinct: bool| -> Program {
        let source = relation(0, vec![], vec![Arrangement::SetArr { distinct }]);
        let user = relation(
            1,
            vec![Rule::CollectionRule {
                rel: 0,
                xform: Some(XFormCollection::Arrange {
                    next: Box::new(XFormArrangement::Antijoin {
                        arrangement: (0, 0),
                        next: Box::new(None),
                    }),
                }),
            }],
            vec![],
        );
        Program {
            nodes: vec![ProgNode::Rel { rel: source }, ProgNode::Rel { rel: user }],
            delayed_rels: Vec::new(),
            init_data: Vec::new(),
        }
    };
    let err = build(false).validate().unwrap_err();
    assert_eq!(err, "antijoin requires a distinct set arrangement");
    assert!(build(true).validate().is_ok());
}

#[test]
fn join_flavor_checks() {
    let source = relation(
        0,
        vec![],
        vec![Arrangement::SetArr { distinct: true }, Arrangement::MapArr { queryable: false }],
    );
    let join_against_set = relation(
        1,
        vec![Rule::CollectionRule {
            rel: 0,
            xform: Some(XFormCollection::Arrange {
                next: Box::new(XFormArrangement::Join { arrangement: (0, 0), next: Box::new(None) }),
            }),
        }],
        vec![],
    );
    let prog = Program {
        nodes: vec![ProgNode::Rel { rel: source }, ProgNode::Rel { rel: join_against_set }],
        delayed_rels: Vec::new(),
        init_data: Vec::new(),
    };
    assert_eq!(prog.validate().unwrap_err(), "join: not a map arrangement");

    // A rule rooted at a set arrangement is also rejected.
    let source2 = relation(0, vec![], vec![Arrangement::SetArr { distinct: true }]);
    let rooted = relation(
        1,
        vec![Rule::ArrangementRule {
            arr: (0, 0),
            xform: XFormArrangement::FilterMap { next: Box::new(None) },
        }],
        vec![],
    );
    let prog2 = Program {
        nodes: vec![ProgNode::Rel { rel: source2 }, ProgNode::Rel { rel: rooted }],
        delayed_rels: Vec::new(),
        init_data: Vec::new(),
    };
    assert_eq!(prog2.validate().unwrap_err(), "rule starts with a set arrangement");
}

#[test]
fn nested_scope_checks() {
    // A stream transformation nested inside another one is rejected.
    let nested = XFormCollection::StreamXForm {
        xform: Box::new(Some(XFormCollection::StreamXForm {
            xform: Box::new(None),
            next: Box::new(None),
        })),
        next: Box::new(None),
    };
    let rel0 = relation(0, vec![], vec![]);
    let user = relation(1, vec![Rule::CollectionRule { rel: 0, xform: Some(nested) }], vec![]);
    let prog = Program {
        nodes: vec![ProgNode::Rel { rel: rel0 }, ProgNode::Rel { rel: user }],
        delayed_rels: Vec::new(),
        init_data: Vec::new(),
    };
    assert_eq!(prog.validate().unwrap_err(), "stream transformation in a nested scope");

    // A differentiate inside the scope a stream transformation opens is
    // rejected too.
    let diff_nested = XFormCollection::StreamXForm {
        xform: Box::new(Some(XFormCollection::Differentiate { next: Box::new(None) })),
        next: Box::new(None),
    };
    let rel0b = relation(0, vec![], vec![]);
    let userb = relation(1, vec![Rule::CollectionRule { rel: 0, xform: Some(diff_nested) }], vec![]);
    let progb = Program {
        nodes: vec![ProgNode::Rel { rel: rel0b }, ProgNode::Rel { rel: userb }],
        delayed_rels: Vec::new(),
        init_data: Vec::new(),
    };
    assert_eq!(progb.validate().unwrap_err(), "differentiate operator used in a nested scope");

    // At the top level both are fine.
    let ok_chain = XFormCollection::StreamXForm {
        xform: Box::new(Some(XFormCollection::MapElems { next: Box::new(None) })),
        next: Box::new(Some(XFormCollection::Differentiate { next: Box::new(None) })),
    };
    let rel0c = relation(0, vec![], vec![]);
    let userc = relation(1, vec![Rule::CollectionRule { rel: 0, xform: Some(ok_chain) }], vec![]);
    let progc = Program {
        nodes: vec![ProgNode::Rel { rel: rel0c }, ProgNode::Rel { rel: userc }],
        delayed_rels: Vec::new(),
        init_data: Vec::new(),
    };
    assert!(progc.validate().is_ok());
}

#[test]
fn delayed_relation_checks() {
    let rel0 = relation(0, vec![], vec![]);
    let mk = |delay: u64, rel_id: usize| -> Program {
        Program {
            nodes: vec![ProgNode::Rel {
                rel: relation(0, vec![], vec![]),
            }],
            delayed_rels: vec![DelayedRelation { id: 100, rel_id, delay }],
            init_data: Vec::new(),
        }
    };
    let _ = rel0;
    assert_eq!(
        mk(0, 0).validate().unwrap_err(),
        "delayed relation must delay by at least one epoch"
    );
    assert_eq!(mk(1, 9).validate().unwrap_err(), "delayed relation: unknown base relation");
    assert!(mk(1, 0).validate().is_ok());
}

#[test]
fn scc_dependencies_exclude_members() {
    // Two mutually recursive relations 10 and 11; 10 also reads 0.
    let r10 = relation(
        10,
        vec![
            Rule::CollectionRule { rel: 11, xform: None },
            Rule::CollectionRule { rel: 0, xform: None },
        ],
        vec![],
    );
    let r11 = relation(11, vec![Rule::CollectionRule { rel: 10, xform: None }], vec![]);
    let members = vec![
        RecursiveRelation { rel: r10, distinct: true },
        RecursiveRelation { rel: r11, distinct: true },
    ];
    let deps = Program::dependencies(&members);
    assert_eq!(deps, vec![Dep::Rel(0)]);
}
