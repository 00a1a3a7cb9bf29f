use symposium_rust_analyzer::obligations::{
    CandidateData, Candidates, FailedObligationsState, GoalCandidate, GoalExpansion,
    GoalIndexArg, GoalLookupError, GoalTree, ProofTreeData,
};

fn goal(goal: &str, result: &str, candidates: Vec<CandidateData>) -> ProofTreeData {
    ProofTreeData {
        goal: goal.to_string(),
        result: result.to_string(),
        depth: 0,
        candidates,
    }
}

fn candidate(kind: &str, result: &str, nested_goals: Vec<ProofTreeData>) -> CandidateData {
    CandidateData {
        kind: kind.to_string(),
        result: result.to_string(),
        impl_header: None,
        nested_goals,
    }
}

fn nested_index(view: &GoalTree, i: usize, j: usize) -> Option<String> {
    match &view.candidates {
        Candidates::Candidates(cs) => cs[i].nested_goals[j].goal_index.clone(),
        Candidates::Count(_) => panic!("expected listed candidates"),
    }
}

fn two_level_tree() -> ProofTreeData {
    goal(
        "G",
        "fail",
        vec![candidate(
            "impl",
            "fail",
            vec![goal("H", "fail", vec![candidate("impl", "fail", vec![])])],
        )],
    )
}

#[test]
fn root_with_leaf_nested_goal() {
    let mut state = FailedObligationsState::new();
    let root = goal(
        "G",
        "fail",
        vec![candidate("impl", "fail", vec![goal("H", "fail", vec![])])],
    );
    let view = state.store_failed_obligations(root);
    let expected = GoalTree {
        goal: "G".to_string(),
        result: "fail".to_string(),
        goal_index: None,
        candidates: Candidates::Candidates(vec![GoalCandidate {
            kind: "impl".to_string(),
            result: "fail".to_string(),
            impl_header: None,
            nested_goals: vec![GoalTree {
                goal: "H".to_string(),
                result: "fail".to_string(),
                goal_index: None,
                candidates: Candidates::Count(0),
            }],
        }],
        ),
    };
    assert_eq!(view, expected);
}

#[test]
fn two_level_nesting_expands_by_index() {
    let mut state = FailedObligationsState::new();
    let view = state.store_failed_obligations(two_level_tree());
    assert_eq!(view.goal_index, None);
    let index = nested_index(&view, 0, 0).expect("H has candidates, so it has an index");
    match &view.candidates {
        Candidates::Candidates(cs) => {
            assert_eq!(cs[0].nested_goals[0].goal, "H");
            assert_eq!(cs[0].nested_goals[0].candidates, Candidates::Count(1));
        }
        Candidates::Count(_) => panic!("root must be listed"),
    }
    let expanded = state.get_failed_obligations(&index).expect("index was handed out");
    let expected = GoalTree {
        goal: "H".to_string(),
        result: "fail".to_string(),
        goal_index: Some(index.clone()),
        candidates: Candidates::Candidates(vec![GoalCandidate {
            kind: "impl".to_string(),
            result: "fail".to_string(),
            impl_header: None,
            nested_goals: vec![],
        }]),
    };
    assert_eq!(expanded, expected);
}

#[test]
fn leaf_root_gets_no_index() {
    let mut state = FailedObligationsState::new();
    let view = state.store_failed_obligations(goal("G", "ok", vec![]));
    assert_eq!(view.goal_index, None);
    assert_eq!(view.candidates, Candidates::Candidates(vec![]));
}

#[test]
fn leaves_never_carry_an_index() {
    let mut state = FailedObligationsState::new();
    let tree = goal(
        "G",
        "fail",
        vec![
            candidate("impl", "fail", vec![goal("A", "fail", vec![]), goal("B", "ok", vec![])]),
            candidate(
                "param_env",
                "fail",
                vec![goal("C", "fail", vec![candidate("impl", "fail", vec![goal("D", "fail", vec![])])])],
            ),
        ],
    );
    let view = state.store_failed_obligations(tree);
    assert_eq!(nested_index(&view, 0, 0), None);
    assert_eq!(nested_index(&view, 0, 1), None);
    let c = nested_index(&view, 1, 0).expect("C has a candidate");
    let c_view = state.get_failed_obligations(&c).unwrap();
    assert_eq!(nested_index(&c_view, 0, 0), None);
}

#[test]
fn deep_index_leads_to_its_nested_goal() {
    let mut state = FailedObligationsState::new();
    let tree = goal(
        "G",
        "fail",
        vec![candidate(
            "impl",
            "fail",
            vec![goal(
                "H",
                "maybe",
                vec![candidate("impl", "fail", vec![goal("I", "fail", vec![candidate("builtin", "yes", vec![])])])],
            )],
        )],
    );
    let view = state.store_failed_obligations(tree);
    let h = nested_index(&view, 0, 0).unwrap();
    let h_view = state.get_failed_obligations(&h).unwrap();
    assert_eq!(h_view.goal, "H");
    assert_eq!(h_view.result, "maybe");
    let i = nested_index(&h_view, 0, 0).unwrap();
    assert_ne!(i, h);
    let i_view = state.get_failed_obligations(&i).unwrap();
    assert_eq!(i_view.goal, "I");
    assert_eq!(i_view.result, "fail");
    match &i_view.candidates {
        Candidates::Candidates(cs) => {
            assert_eq!(cs.len(), 1);
            assert_eq!(cs[0].kind, "builtin");
            assert_eq!(cs[0].result, "yes");
        }
        Candidates::Count(_) => panic!("stored views are listed"),
    }
}

#[test]
fn impl_header_is_kept() {
    let mut state = FailedObligationsState::new();
    let mut c = candidate("impl", "fail", vec![]);
    c.impl_header = Some("impl<T: Clone> Foo for T".to_string());
    let view = state.store_failed_obligations(goal("G", "fail", vec![c]));
    match view.candidates {
        Candidates::Candidates(cs) => {
            assert_eq!(cs[0].impl_header.as_deref(), Some("impl<T: Clone> Foo for T"))
        }
        Candidates::Count(_) => panic!("root must be listed"),
    }
}

#[test]
fn unknown_index_is_not_found() {
    let state = FailedObligationsState::new();
    assert_eq!(state.get_failed_obligations("no-such-index"), None);
}

#[test]
fn storing_twice_gives_distinct_indices() {
    let mut state = FailedObligationsState::new();
    let first = state.store_failed_obligations(two_level_tree());
    let second = state.store_failed_obligations(two_level_tree());
    let a = nested_index(&first, 0, 0).unwrap();
    let b = nested_index(&second, 0, 0).unwrap();
    assert_ne!(a, b);
    assert_eq!(state.get_failed_obligations(&a).unwrap().goal, "H");
    assert_eq!(state.get_failed_obligations(&b).unwrap().goal, "H");
}

#[test]
fn store_all_keeps_order() {
    let mut state = FailedObligationsState::new();
    let roots = state.store_all_failed_obligations(vec![goal("A", "fail", vec![]), two_level_tree()]);
    assert_eq!(roots.len(), 2);
    assert_eq!(roots[0].goal, "A");
    assert_eq!(roots[1].goal, "G");
    assert_eq!(roots[1].goal_index, None);
}

#[test]
fn batch_with_one_invalid_index_fails_whole() {
    let mut state = FailedObligationsState::new();
    let first = state.store_failed_obligations(two_level_tree());
    let second = state.store_failed_obligations(two_level_tree());
    let a = nested_index(&first, 0, 0).unwrap();
    let b = nested_index(&second, 0, 0).unwrap();
    let r = state.expand_goals(&vec![a.clone(), "bogus".to_string(), b.clone()]);
    assert_eq!(r, Err(GoalLookupError::UnknownIndex("bogus".to_string())));
    let ok = state.expand_goals(&vec![a, b]).unwrap();
    assert_eq!(ok.len(), 2);
}

#[test]
fn expand_single_and_many() {
    let mut state = FailedObligationsState::new();
    let first = state.store_failed_obligations(two_level_tree());
    let second = state.store_failed_obligations(two_level_tree());
    let a = nested_index(&first, 0, 0).unwrap();
    let b = nested_index(&second, 0, 0).unwrap();
    match state.expand_failed_obligations(&GoalIndexArg::Single(a.clone())) {
        Ok(GoalExpansion::One(t)) => assert_eq!(t.goal_index, Some(a.clone())),
        other => panic!("expected one view, got {:?}", other),
    }
    let arg = GoalIndexArg::List(vec![Some(a.clone()), Some(b.clone())]);
    match state.expand_failed_obligations(&arg) {
        Ok(GoalExpansion::Many(ts)) => {
            assert_eq!(ts.len(), 2);
            assert_eq!(ts[0].goal_index, Some(a.clone()));
            assert_eq!(ts[1].goal_index, Some(b.clone()));
        }
        other => panic!("expected a list, got {:?}", other),
    }
    let arg = GoalIndexArg::List(vec![Some(a.clone())]);
    match state.expand_failed_obligations(&arg) {
        Ok(GoalExpansion::One(t)) => assert_eq!(t.goal_index, Some(a)),
        other => panic!("expected one view, got {:?}", other),
    }
}

#[test]
fn expand_rejects_bad_arguments() {
    let state = FailedObligationsState::new();
    assert_eq!(
        state.expand_failed_obligations(&GoalIndexArg::Other),
        Err(GoalLookupError::NotStringOrList)
    );
    assert_eq!(
        state.expand_failed_obligations(&GoalIndexArg::List(vec![])),
        Err(GoalLookupError::Empty)
    );
    assert_eq!(
        state.expand_failed_obligations(&GoalIndexArg::List(vec![None, None])),
        Err(GoalLookupError::NotStringOrList)
    );
    assert_eq!(
        state.expand_failed_obligations(&GoalIndexArg::Single("x".to_string())),
        Err(GoalLookupError::UnknownIndex("x".to_string()))
    );
}

#[test]
fn lookup_error_messages() {
    assert_eq!(
        GoalLookupError::NotStringOrList.message(),
        "goal_index must be a string or array of strings"
    );
    assert_eq!(GoalLookupError::Empty.message(), "At least one goal_index is required");
    assert_eq!(
        GoalLookupError::UnknownIndex("abc".to_string()).message(),
        "Invalid goal_index 'abc' or expired data"
    );
}

#[test]
fn default_store_is_empty() {
    let state = FailedObligationsState::default();
    assert_eq!(state.get_failed_obligations(""), None);
}

#[test]
fn list_with_non_string_item_is_rejected_before_lookup() {
    let mut state = FailedObligationsState::new();
    let view = state.store_failed_obligations(two_level_tree());
    let a = nested_index(&view, 0, 0).unwrap();
    let arg = GoalIndexArg::List(vec![Some(a.clone()), None]);
    assert_eq!(
        state.expand_failed_obligations(&arg),
        Err(GoalLookupError::NotStringOrList)
    );
    assert_eq!(
        symposium_rust_analyzer::obligations::goal_indices(&GoalIndexArg::List(vec![None, Some(a)])),
        Err(GoalLookupError::NotStringOrList)
    );
}

#[test]
fn stored_views_are_expanded_under_their_index() {
    let mut state = FailedObligationsState::new();
    let view = state.store_failed_obligations(two_level_tree());
    let h = nested_index(&view, 0, 0).unwrap();
    let kept = state.get_failed_obligations(&h).unwrap();
    assert_eq!(kept.goal_index, Some(h));
    match kept.candidates {
        Candidates::Candidates(cs) => assert!(!cs.is_empty()),
        Candidates::Count(_) => panic!("kept views are expanded"),
    }
}
