use daggyr::dag::{DagError, DAG};
use daggyr::structs::State;

#[test]
fn dag_construction() {
    let mut dag = DAG::<usize>::new();

    dag.add_vertices(&[0, 1, 2])
        .expect("Unable to add vertices");
    assert_eq!(dag.len(), 3);

    dag.add_vertices(&[3, 4, 5, 6, 7, 8, 9])
        .expect("Unable to add vertices");
    assert_eq!(dag.len(), 10);

    // Unable to add an existing vertex
    assert!(dag.add_vertices(&[3]).is_err());
}

#[test]
fn dag_cycle_detection() {
    let mut dag = DAG::<usize>::new();
    dag.add_vertices(&[0, 1, 2])
        .expect("Unable to add vertices");
    dag.add_edge(&0, &1).unwrap();
    assert!(dag.add_edge(&1, &2).is_ok());
    assert!(dag.add_edge(&2, &0).is_err());
}

#[test]
fn dag_traversal_order() {
    let mut dag = DAG::new();
    dag.add_vertices(&[0, 1, 2, 3, 4, 5, 6, 7, 8, 9]).unwrap();

    let edges = [
        (0usize, 6usize),
        (1, 5),
        (2, 3),
        (3, 5),
        (5, 6),
        (6, 7),
        (7, 8),
        (8, 9),
        (7, 9),
        (4, 7),
    ];

    for (src, dst) in &edges {
        dag.add_edge(src, dst).unwrap();
    }
    dag.reset();

    let mut visit_order: Vec<usize> = Vec::new();
    visit_order.resize(dag.len(), 0);
    let mut i: usize = 0;
    while let Some(id) = dag.visit_next() {
        dag.complete_visit(&id, false)
            .expect("Unable to complete visit");
        assert_eq!(visit_order[id], 0);
        visit_order[id] = i;
        i += 1;
    }

    // All vertices visited
    assert!(dag.is_complete());
    assert_eq!(visit_order.len(), dag.len());
    for (src, dst) in &edges {
        assert!(visit_order[*src] < visit_order[*dst]);
    }
}

#[test]
fn dag_additions_during_traversal() {
    let mut dag = DAG::new();
    dag.add_vertices(&[0, 1, 2, 3, 4, 5, 6, 7, 8, 9]).unwrap();

    let edges = [
        (0usize, 6usize),
        (1, 5),
        (2, 3),
        (3, 5),
        (5, 6),
        (6, 7),
        (7, 8),
        (8, 9),
        (7, 9),
        (4, 7),
    ];

    for (src, dst) in &edges {
        dag.add_edge(src, dst).unwrap();
    }
    dag.reset();

    // At the visit of item 5, we'll add in 3 new vertices with these
    // extra edges:
    let extra_vertices = vec![10, 11, 12];
    let n_extra_vertices: usize = extra_vertices.len();
    let extra_edges = [
        // Adding on to the end
        (7usize, 10usize),
        (10, 8),
        (10, 9),
        // Adding into the middle
        (5, 11),
        (6, 11),
        // Adding in a dependency that's already been visited
        (4, 12),
    ];

    let mut visit_order: Vec<usize> = Vec::new();
    visit_order.resize(dag.len() + n_extra_vertices, 0);
    let mut i: usize = 0;
    loop {
        if i == 5 {
            dag.add_vertices(&extra_vertices)
                .expect("unable to add vertices");
            for (src, dst) in &extra_edges {
                dag.add_edge(src, dst).unwrap();
            }
        }

        match dag.visit_next() {
            Some(id) => {
                dag.complete_visit(&id, false)
                    .expect("unable to complete visit");
                assert_eq!(visit_order[id], 0);
                visit_order[id] = i;
            }
            None => break,
        }
        i += 1;
    }

    // All vertices visited
    assert_eq!(visit_order.len(), dag.len());
    for (src, dst) in &edges {
        assert!(visit_order[*src] < visit_order[*dst]);
    }
    for (src, dst) in &extra_edges {
        assert!(visit_order[*src] < visit_order[*dst]);
    }
}

fn chain() -> DAG<u32> {
    let mut dag = DAG::new();
    dag.add_vertices(&[0, 1, 2]).unwrap();
    dag.add_edge(&0, &1).unwrap();
    dag.add_edge(&1, &2).unwrap();
    dag
}

#[test]
fn diamond_has_first_and_last() {
    let mut dag = DAG::<u8>::new();
    dag.add_vertices(&[0, 1, 2, 3]).unwrap();
    for (s, d) in [(0u8, 1u8), (0, 2), (1, 3), (2, 3)] {
        dag.add_edge(&s, &d).unwrap();
    }
    let mut order = Vec::new();
    while let Some(id) = dag.visit_next() {
        dag.complete_visit(&id, false).unwrap();
        order.push(id);
    }
    assert_eq!(order.len(), 4);
    assert_eq!(order[0], 0);
    assert_eq!(order[3], 3);
    assert!(dag.is_complete());
    assert!(!dag.can_progress());
}

#[test]
fn cycle_is_rejected_and_graph_unchanged() {
    let mut dag = chain();
    assert_eq!(dag.add_edge(&2, &0), Err(DagError::Cycle));
    assert_eq!(dag.add_edge(&1, &1), Err(DagError::Cycle));
    assert_eq!(dag.has_path(&2, &0), Ok(false));
    assert_eq!(dag.has_path(&0, &2), Ok(true));
    assert_eq!(dag.has_path(&1, &1), Ok(true));
}

#[test]
fn unknown_keys_are_reported() {
    let mut dag = chain();
    assert_eq!(dag.add_edge(&0, &9), Err(DagError::UnknownKey));
    assert_eq!(dag.add_edge(&9, &0), Err(DagError::UnknownKey));
    assert_eq!(dag.has_path(&9, &0), Err(DagError::UnknownKey));
    assert_eq!(dag.complete_visit(&9, false), Err(DagError::UnknownKey));
    assert_eq!(dag.set_vertex_state(&9, State::Killed), Err(DagError::UnknownKey));
    assert!(dag.get_vertex(&9).is_none());
}

#[test]
fn duplicate_key_is_reported() {
    let mut dag = chain();
    assert_eq!(dag.add_vertex(1), Err(DagError::DuplicateKey));
    assert_eq!(dag.len(), 3);
}

#[test]
fn add_vertices_keeps_what_came_before_a_duplicate() {
    let mut dag = DAG::<u32>::new();
    dag.add_vertex(7).unwrap();
    assert_eq!(dag.add_vertices(&[1, 2, 7, 3]), Err(DagError::DuplicateKey));
    assert_eq!(dag.len(), 3);
    assert!(dag.get_vertex(&2).is_some());
    assert!(dag.get_vertex(&3).is_none());
}

#[test]
fn complete_visit_needs_a_visit() {
    let mut dag = chain();
    assert_eq!(dag.complete_visit(&0, false), Err(DagError::NotVisiting));
    assert_eq!(dag.visit_next(), Some(0));
    assert_eq!(dag.get_vertex(&0).unwrap().state, State::Running);
    assert_eq!(dag.complete_visit(&0, false), Ok(()));
    assert_eq!(dag.get_vertex(&0).unwrap().state, State::Completed);
    assert_eq!(dag.complete_visit(&0, false), Err(DagError::NotVisiting));
}

#[test]
fn errored_vertex_blocks_descendants() {
    let mut dag = chain();
    assert_eq!(dag.visit_next(), Some(0));
    dag.complete_visit(&0, false).unwrap();
    assert_eq!(dag.visit_next(), Some(1));
    assert!(dag.can_progress());
    dag.complete_visit(&1, true).unwrap();
    assert_eq!(dag.get_vertex(&1).unwrap().state, State::Errored);
    assert_eq!(dag.visit_next(), None);
    assert!(!dag.can_progress());
    assert!(dag.is_complete());
    assert_eq!(dag.get_vertex(&2).unwrap().state, State::Queued);
}

#[test]
fn requeue_after_error() {
    let mut dag = chain();
    assert_eq!(dag.visit_next(), Some(0));
    dag.complete_visit(&0, false).unwrap();
    assert_eq!(dag.visit_next(), Some(1));
    dag.complete_visit(&1, true).unwrap();
    assert_eq!(dag.set_vertex_state(&1, State::Queued), Ok(()));
    assert!(dag.can_progress());
    assert_eq!(dag.visit_next(), Some(1));
    dag.complete_visit(&1, false).unwrap();
    assert_eq!(dag.visit_next(), Some(2));
    dag.complete_visit(&2, false).unwrap();
    assert!(dag.is_complete());
}

#[test]
fn set_vertex_state_transitions() {
    let mut dag = chain();
    // the state it has: nothing happens
    assert_eq!(dag.set_vertex_state(&0, State::Queued), Ok(()));
    // queued to running is no transition of this endpoint
    assert_eq!(dag.set_vertex_state(&0, State::Running), Err(DagError::BadTransition));
    // completing from outside releases the child
    assert_eq!(dag.set_vertex_state(&0, State::Completed), Ok(()));
    assert_eq!(dag.get_vertex(&0).unwrap().state, State::Completed);
    // completed cannot be queued again
    assert_eq!(dag.set_vertex_state(&0, State::Queued), Err(DagError::BadTransition));
    assert_eq!(dag.visit_next(), Some(1));
    // running cannot be queued
    assert_eq!(dag.set_vertex_state(&1, State::Queued), Err(DagError::BadTransition));
    // killing takes it out of the visiting set
    assert_eq!(dag.set_vertex_state(&1, State::Killed), Ok(()));
    assert_eq!(dag.get_vertex(&1).unwrap().state, State::Killed);
    assert!(!dag.can_progress());
    assert_eq!(dag.complete_visit(&1, false), Err(DagError::NotVisiting));
    assert_eq!(dag.set_vertex_state(&1, State::Queued), Ok(()));
    assert_eq!(dag.visit_next(), Some(1));
    dag.complete_visit(&1, false).unwrap();
    assert_eq!(dag.visit_next(), Some(2));
}

#[test]
fn edge_from_completed_source_adds_no_wait() {
    let mut dag = DAG::<u32>::new();
    dag.add_vertices(&[0, 1]).unwrap();
    assert_eq!(dag.visit_next(), Some(0));
    dag.complete_visit(&0, false).unwrap();
    dag.add_edge(&0, &1).unwrap();
    assert_eq!(dag.visit_next(), Some(1));
}

#[test]
fn edge_from_unfinished_source_takes_target_out_of_ready() {
    let mut dag = DAG::<u32>::new();
    dag.add_vertices(&[0, 1]).unwrap();
    dag.add_edge(&1, &0).unwrap();
    assert_eq!(dag.visit_next(), Some(1));
    assert_eq!(dag.visit_next(), None);
    assert!(dag.can_progress());
    assert!(!dag.is_complete());
    dag.complete_visit(&1, false).unwrap();
    assert_eq!(dag.visit_next(), Some(0));
}

#[test]
fn reset_recounts_parents_and_keeps_states() {
    let mut dag = chain();
    assert_eq!(dag.visit_next(), Some(0));
    dag.complete_visit(&0, false).unwrap();
    dag.reset();
    assert_eq!(dag.get_vertex(&0).unwrap().state, State::Completed);
    // the root is ready again beside its child, which was ready before
    assert_eq!(dag.visit_next(), Some(0));
    assert_eq!(dag.get_vertex(&0).unwrap().state, State::Running);
    assert_eq!(dag.visit_next(), Some(1));
    assert_eq!(dag.visit_next(), None);
}

#[test]
fn empty_graph() {
    let mut dag = DAG::<String>::new();
    assert!(dag.is_empty());
    assert_eq!(dag.len(), 0);
    assert!(dag.is_complete());
    assert!(!dag.can_progress());
    assert_eq!(dag.visit_next(), None);
    dag.add_vertex("a".to_string()).unwrap();
    assert!(!dag.is_empty());
    assert_eq!(dag.visit_next(), Some("a".to_string()));
}

#[test]
fn child_waits_for_every_parent() {
    let mut dag = DAG::<u8>::new();
    dag.add_vertices(&[0, 1, 2, 3]).unwrap();
    for (s, d) in [(0u8, 1u8), (0, 2), (1, 3), (2, 3)] {
        dag.add_edge(&s, &d).unwrap();
    }
    assert_eq!(dag.visit_next(), Some(0));
    assert_eq!(dag.visit_next(), None);
    dag.complete_visit(&0, false).unwrap();
    // both children of 0 are released, 3 is not
    assert_eq!(dag.visit_next(), Some(1));
    assert_eq!(dag.visit_next(), Some(2));
    assert_eq!(dag.visit_next(), None);
    dag.complete_visit(&1, false).unwrap();
    // 3 still waits for 2
    assert_eq!(dag.visit_next(), None);
    assert!(dag.can_progress());
    dag.complete_visit(&2, false).unwrap();
    assert_eq!(dag.visit_next(), Some(3));
    assert!(!dag.is_complete());
    dag.complete_visit(&3, false).unwrap();
    assert!(dag.is_complete());
}

#[test]
fn a_second_edge_between_two_vertices_counts_once() {
    let mut dag = DAG::<usize>::new();
    dag.add_vertices(&[0, 1]).unwrap();
    assert_eq!(dag.add_edge(&0, &1), Ok(()));
    assert_eq!(dag.add_edge(&0, &1), Ok(()));
    assert_eq!(dag.get_vertex(&1).unwrap().parents_outstanding(), 1);
    assert_eq!(dag.visit_next(), Some(0));
    assert_eq!(dag.visit_next(), None);
    dag.complete_visit(&0, false).unwrap();
    // the only parent has completed: the child is released
    assert_eq!(dag.get_vertex(&1).unwrap().parents_outstanding(), 0);
    assert_eq!(dag.visit_next(), Some(1));
    dag.complete_visit(&1, false).unwrap();
    assert!(dag.is_complete());
}

#[test]
fn a_repeated_edge_from_a_completed_source_adds_no_wait() {
    let mut dag = DAG::<usize>::new();
    dag.add_vertices(&[0, 1]).unwrap();
    dag.add_edge(&0, &1).unwrap();
    assert_eq!(dag.visit_next(), Some(0));
    dag.complete_visit(&0, false).unwrap();
    dag.add_edge(&0, &1).unwrap();
    assert_eq!(dag.get_vertex(&1).unwrap().parents_outstanding(), 0);
    assert_eq!(dag.visit_next(), Some(1));
}

#[test]
fn vertex_copies_can_be_read() {
    let mut dag = DAG::<usize>::new();
    dag.add_vertices(&[7, 8]).unwrap();
    dag.add_edge(&7, &8).unwrap();
    let v = dag.get_vertex(&8).unwrap();
    assert_eq!(v.id, 8);
    assert_eq!(v.state, State::Queued);
    assert_eq!(v.parents_outstanding(), 1);
}

#[test]
fn traversal_with_text_keys() {
    let mut dag: DAG<String> = DAG::default();
    let keys = ["fetch".to_string(), "build".to_string(), "ship".to_string()];
    dag.add_vertices(&keys).unwrap();
    dag.add_edge(&keys[1], &keys[2]).unwrap();
    dag.add_edge(&keys[0], &keys[1]).unwrap();
    assert_eq!(dag.has_path(&keys[0], &keys[2]), Ok(true));
    assert_eq!(dag.has_path(&keys[2], &keys[0]), Ok(false));
    let mut order = Vec::new();
    while let Some(k) = dag.visit_next() {
        dag.complete_visit(&k, false).unwrap();
        order.push(k);
    }
    assert_eq!(order, keys.to_vec());
}

#[test]
fn a_visited_vertex_is_not_ready() {
    let mut dag = DAG::<u8>::new();
    dag.add_vertex(4).unwrap();
    assert_eq!(dag.visit_next(), Some(4));
    // it is in the visiting set alone: nothing is ready, and progress is possible
    assert_eq!(dag.visit_next(), None);
    assert!(dag.can_progress());
    dag.complete_visit(&4, true).unwrap();
    assert!(!dag.can_progress());
}

#[test]
fn errors_in_words() {
    assert_eq!(DagError::DuplicateKey.message(), "DAG already contains a vertex with that key");
    assert_eq!(DagError::UnknownKey.message(), "No such key");
    assert_eq!(DagError::Cycle.message(), "Adding edge would result in a cycle");
    assert_eq!(DagError::NotVisiting.message(), "Not currently visiting that vertex");
    assert_eq!(DagError::BadTransition.message(), "Unsupported transition");
}
