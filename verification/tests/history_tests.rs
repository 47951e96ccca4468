use mesh_history::history::{History, RefStatus};
use mesh_history::invocation::{Exception, Ref, Value, WorkerError};
use mesh_history::min_tracker::MinVector;

fn exc(cause_seq: u64, backtrace: &str) -> Exception {
    Exception {
        origin_seq: cause_seq,
        cause_seq,
        error: WorkerError {
            backtrace: backtrace.to_string(),
            worker_actor_id: "test[234].testactor[6]".to_string(),
        },
    }
}

#[test]
fn simple_history() {
    let mut history = History::new(2);
    history.add_invocation(0, vec![], vec![Ref { id: 1 }, Ref { id: 2 }]);
    history.add_invocation(1, vec![Ref { id: 1 }], vec![Ref { id: 3 }]);
    history.add_invocation(2, vec![Ref { id: 3 }], vec![Ref { id: 4 }]);
    history.add_invocation(3, vec![Ref { id: 3 }], vec![Ref { id: 5 }]);
    history.add_invocation(4, vec![Ref { id: 3 }], vec![Ref { id: 6 }]);
    history.add_invocation(5, vec![Ref { id: 4 }], vec![Ref { id: 7 }]);
    history.add_invocation(6, vec![Ref { id: 4 }], vec![Ref { id: 8 }]);

    let mut res = history.iter_users_transitive(1);
    res.sort();
    assert_eq!(res, vec![1, 2, 3, 4, 5, 6]);

    history.rank_completed(0, 2);
    let mut res = history.iter_users_transitive(1);
    res.sort();
    assert_eq!(res, vec![1, 2, 3, 4, 5, 6]);

    history.rank_completed(1, 2);
    let res = history.iter_users_transitive(1);
    assert_eq!(res, Vec::<u64>::new());

    // Invocations can still be added after all ranks have completed that seq.
    history.add_invocation(7, vec![Ref { id: 1 }], vec![]);
}

#[test]
fn delete_errored_invocations() {
    let mut history = History::new(1);
    history.add_invocation(0, vec![], vec![Ref { id: 1 }, Ref { id: 2 }]);
    history.add_invocation(1, vec![Ref { id: 1 }], vec![Ref { id: 3 }]);
    history.propagate_exception(0, exc(0, "worker error happened"));
    history.delete_invocations_for_refs(vec![Ref { id: 1 }, Ref { id: 2 }]);
    history.rank_completed(0, 1);
    assert_eq!(history.ref_index_len(), 1);
    history.delete_invocations_for_refs(vec![Ref { id: 3 }]);
    history.rank_completed(0, 2);
    assert!(history.ref_index_len() == 0);
}

#[test]
fn redefinitions() {
    let mut history = History::new(2);
    history.add_invocation(0, vec![], vec![Ref { id: 1 }, Ref { id: 2 }]);
    history.add_invocation(1, vec![Ref { id: 1 }], vec![Ref { id: 3 }]);
    history.add_invocation(2, vec![Ref { id: 3 }], vec![Ref { id: 4 }]);

    let mut res = history.iter_users_transitive(1);
    res.sort();
    assert_eq!(res, vec![1, 2]);

    history.add_invocation(3, vec![Ref { id: 3 }], vec![Ref { id: 3 }]);
    history.add_invocation(4, vec![Ref { id: 3 }], vec![Ref { id: 6 }]);
    history.add_invocation(5, vec![Ref { id: 4 }], vec![Ref { id: 7 }]);
    history.add_invocation(6, vec![Ref { id: 4 }], vec![Ref { id: 8 }]);

    history.rank_completed(0, 2);
    history.rank_completed(1, 2);

    let res = history.iter_users_transitive(3);
    assert_eq!(res, vec![3, 4]);
}

#[test]
fn min_vector() {
    // Test initialization
    let data: Vec<u64> = vec![3, 1, 4, 1, 5, 9, 2, 6, 5, 3, 5];
    let mut min_vector = MinVector::new(data.clone());

    // Test length
    assert_eq!(min_vector.len(), data.len());

    // Test initial vector
    assert_eq!(min_vector.vec(), &data);

    // Test initial minimum
    assert_eq!(min_vector.min(), 1);

    // Test get method
    for (i, &value) in data.iter().enumerate() {
        assert_eq!(min_vector.get(i), value);
    }

    // Test set method and min update
    min_vector.set(0, 0); // Change first element to 0
    assert_eq!(min_vector.get(0), 0);
    assert_eq!(min_vector.min(), 0);
    min_vector.set(1, 7); // Change second element to 7
    assert_eq!(min_vector.get(1), 7);
    assert_eq!(min_vector.min(), 0);
    min_vector.set(0, 8); // Change first element to 8
    assert_eq!(min_vector.get(0), 8);
    assert_eq!(min_vector.min(), 1); // Minimum should now be 1

    // Test setting a value that already exists
    min_vector.set(2, 5); // Change third element to 5
    assert_eq!(min_vector.get(2), 5);
    assert_eq!(min_vector.min(), 1);

    // Test setting a value to the current minimum
    min_vector.set(3, 0); // Change fourth element to 0
    assert_eq!(min_vector.get(3), 0);
    assert_eq!(min_vector.min(), 0);

    // Test setting all elements to the same value
    for i in 0..min_vector.len() {
        min_vector.set(i, 10);
    }
    assert_eq!(min_vector.min(), 10);
    assert_eq!(min_vector.vec(), &vec![10; min_vector.len()]);
}

#[test]
fn failure_propagation() {
    let mut history = History::new(2);

    history.add_invocation(0, vec![], vec![Ref { id: 1 }, Ref { id: 2 }]);
    history.add_invocation(1, vec![Ref { id: 1 }], vec![Ref { id: 3 }]);
    history.add_invocation(2, vec![Ref { id: 3 }], vec![Ref { id: 4 }, Ref { id: 5 }]);
    history.add_invocation(3, vec![Ref { id: 2 }], vec![Ref { id: 6 }]);
    history.add_invocation(4, vec![Ref { id: 5 }], vec![Ref { id: 6 }]);

    // No error before propagation
    for i in 1..=3 {
        assert!(history.get_invocation(i).unwrap().exception().is_none());
    }

    // Failure happened to invocation 1, invocations 2, 4 should be marked as
    // failed because they depend on 1 directly or indirectly.
    history.propagate_exception(1, exc(1, "worker error happened"));

    // Error should be set for all invocations that depend on the failed invocation
    for i in [1, 2, 4] {
        assert!(history.get_invocation(i).unwrap().exception().is_some());
    }

    // Error should not be set for invocations that do not depend on the failed invocation
    for i in [0, 3] {
        assert!(history.get_invocation(i).unwrap().exception().is_none());
    }

    // A failed but completed invocation should still lead to all its
    // invocations being marked as failed even if they appear in the future.

    // Delete until 2.
    history.rank_completed(0, 2);
    history.rank_completed(1, 2);

    for i in [3u64, 4, 5, 6] {
        assert!(matches!(
            history.ref_status(Ref { id: i }),
            Some(RefStatus::Errored(_))
        ));
        // Invocation should start from 5, so i+2
        history.add_invocation(i + 2, vec![Ref { id: i }], vec![Ref { id: 7 }]);
        assert!(history.get_invocation(i + 2).unwrap().exception().is_some());
    }

    // Test if you can fill a valid result on an errored invocation 2.
    history.set_result(2, Value { payload: "2".to_string() });
    // check that seq 2 is still errored
    assert!(history.get_invocation(2).unwrap().exception().is_some());
    assert!(history.get_invocation(2).unwrap().value().is_none());
}

#[test]
fn poisoned_at_creation_after_propagation() {
    let mut history = History::new(1);
    history.add_invocation(0, vec![], vec![Ref { id: 10 }, Ref { id: 11 }]);
    history.add_invocation(1, vec![Ref { id: 10 }], vec![Ref { id: 12 }]);

    let res = history.propagate_exception(0, exc(0, "boom"));
    let mut seqs: Vec<u64> = res.iter().map(|p| p.0).collect();
    seqs.sort();
    assert_eq!(seqs, vec![0, 1]);
    for (_, outcome) in &res {
        assert!(matches!(outcome, Some(Err(_))));
    }

    // A dependent submitted after the failure is poisoned at creation and
    // reported exactly once, immediately.
    let res2 = history.add_invocation(2, vec![Ref { id: 12 }], vec![Ref { id: 13 }]);
    assert_eq!(res2.len(), 1);
    assert_eq!(res2[0].0, 2);
    assert!(matches!(res2[0].1, Some(Err(_))));
}

#[test]
fn propagated_outcome_names_each_dependent() {
    let mut history = History::new(1);
    history.add_invocation(0, vec![], vec![Ref { id: 1 }]);
    history.add_invocation(1, vec![Ref { id: 1 }], vec![Ref { id: 2 }]);

    let res = history.propagate_exception(0, exc(0, "worker error happened"));
    assert_eq!(res.len(), 2);
    for (seq, outcome) in &res {
        match outcome {
            Some(Err(e)) => {
                // each hop carries its own sequence and the immediate cause
                assert_eq!(e.origin_seq, *seq);
                assert_eq!(e.cause_seq, 0);
                assert_eq!(e.error.backtrace, "worker error happened");
            }
            _ => panic!("expected a failure outcome"),
        }
    }
}

#[test]
fn purge_waits_for_all_ranks() {
    let mut history = History::new(2);
    for s in 0..6u64 {
        history.add_invocation(s, vec![], vec![Ref { id: 100 + s }]);
    }
    // one rank alone purges and reports nothing
    let r = history.rank_completed(0, 5);
    assert!(r.is_empty());
    for s in 0..6u64 {
        assert!(history.get_invocation(s).is_some());
    }
    // the global minimum is the smallest mark across ranks
    let r = history.rank_completed(1, 3);
    let seqs: Vec<u64> = r.iter().map(|p| p.0).collect();
    assert_eq!(seqs, vec![0, 1, 2]);
    assert!(history.get_invocation(0).is_none());
    assert!(history.get_invocation(2).is_none());
    assert!(history.get_invocation(3).is_some());
}

#[test]
fn deletion_deferred_until_behind_min() {
    let mut history = History::new(1);
    history.add_invocation(0, vec![], vec![Ref { id: 1 }]);

    // the defining invocation is still live: the reference stays pending
    history.delete_invocations_for_refs(vec![Ref { id: 1 }]);
    assert!(matches!(
        history.ref_status(Ref { id: 1 }),
        Some(RefStatus::Invoked(0))
    ));

    // advance the global minimum past the definer, then repeat the request:
    // now the reference is actually forgotten
    history.rank_completed(0, 1);
    assert!(history.ref_status(Ref { id: 1 }).is_some());
    history.delete_invocations_for_refs(vec![Ref { id: 1 }]);
    assert!(history.ref_status(Ref { id: 1 }).is_none());
    assert_eq!(history.ref_index_len(), 0);
}

#[test]
fn failure_wins_over_late_value() {
    // failure first, then a late success: the failure stands
    let mut history = History::new(1);
    history.add_invocation(0, vec![], vec![Ref { id: 1 }]);
    history.propagate_exception(0, exc(0, "x"));
    history.set_result(0, Value { payload: "v".to_string() });
    assert!(history.get_invocation(0).unwrap().exception().is_some());
    assert!(history.get_invocation(0).unwrap().value().is_none());

    // success first, then a failure: the failure overwrites it
    let mut history2 = History::new(1);
    history2.add_invocation(0, vec![], vec![]);
    history2.set_result(0, Value { payload: "v".to_string() });
    assert!(history2.get_invocation(0).unwrap().value().is_some());
    history2.propagate_exception(0, exc(0, "x"));
    assert!(history2.get_invocation(0).unwrap().exception().is_some());
    assert!(history2.get_invocation(0).unwrap().value().is_none());
}

#[test]
fn redefinition_isolation() {
    let mut history = History::new(1);
    history.add_invocation(0, vec![], vec![Ref { id: 1 }]);
    // invocation 1 redefines the reference without depending on invocation 0
    history.add_invocation(1, vec![], vec![Ref { id: 1 }]);

    history.propagate_exception(0, exc(0, "x"));

    // the redefining invocation is untouched and still owns the reference
    assert!(history.get_invocation(1).unwrap().exception().is_none());
    assert!(matches!(
        history.ref_status(Ref { id: 1 }),
        Some(RefStatus::Invoked(1))
    ));
}

#[test]
fn success_reported_once() {
    let mut history = History::new(1);
    for s in 0..4u64 {
        history.add_invocation(s, vec![], vec![]);
    }
    let r1 = history.rank_completed(0, 2);
    let r2 = history.rank_completed(0, 4);
    let s1: Vec<u64> = r1.iter().map(|p| p.0).collect();
    let s2: Vec<u64> = r2.iter().map(|p| p.0).collect();
    assert_eq!(s1, vec![0, 1]);
    assert_eq!(s2, vec![2, 3]);
}

#[test]
fn purged_sequence_never_reported() {
    let mut history = History::new(1);
    history.add_invocation(0, vec![], vec![]);
    let r1 = history.rank_completed(0, 1);
    assert_eq!(r1.len(), 1);
    assert_eq!(r1[0].0, 0);

    // a late value for the purged sequence is silently ignored
    history.set_result(0, Value { payload: "late".to_string() });
    assert!(history.get_invocation(0).is_none());

    // a redelivered completion for the same range reports nothing
    let r2 = history.rank_completed(0, 1);
    assert!(r2.is_empty());
}

#[test]
fn unknown_use_is_ignored() {
    let mut history = History::new(1);
    // a reference the index has never seen is treated as already settled
    let res = history.add_invocation(0, vec![Ref { id: 99 }], vec![Ref { id: 1 }]);
    assert!(res.is_empty());
    assert!(history.get_invocation(0).unwrap().exception().is_none());
}

#[test]
fn first_incomplete_seqs_tracks_ranks() {
    let mut history = History::new(3);
    assert_eq!(history.first_incomplete_seqs(), &vec![0, 0, 0]);
    history.rank_completed(1, 4);
    assert_eq!(history.first_incomplete_seqs(), &vec![0, 4, 0]);
}
