use markov_chain::Chain;
use markov_chain::ChainError;

fn built(order: usize) -> Chain {
    Chain::new(order).expect("order is positive")
}

#[test]
fn zero_order_is_rejected() {
    assert_eq!(Chain::new(0).err(), Some(ChainError::InvalidConfiguration));
}

#[test]
fn order_is_reported() {
    assert_eq!(built(3).order(), 3);
}

#[test]
fn fresh_chain_starts_at_boundary() {
    let c = built(4);
    assert_eq!(c.history, vec![0, 0, 0, 0]);
    assert!(c.transitions.is_empty());
}

#[test]
fn end_sentence_resets_history() {
    let mut c = built(2);
    c.add_atom(7);
    c.add_atom(9);
    assert_eq!(c.history, vec![9, 7]);
    c.end_sentence();
    assert_eq!(c.history, vec![0, 0]);
    // the recorded transitions are untouched
    assert_eq!(c.transitions.len(), 2);
}

#[test]
fn unseen_state_samples_empty() {
    let c = built(2);
    assert_eq!(c.sample(&vec![1, 2]), Ok(None));
    assert_eq!(c.sample_with_draw(&vec![1, 2], 5), Ok(None));
}

#[test]
fn wrong_length_state_is_rejected() {
    let c = built(2);
    assert_eq!(c.sample(&vec![1]), Err(ChainError::PreconditionViolation));
    assert_eq!(c.sample(&vec![]), Err(ChainError::PreconditionViolation));
    assert_eq!(
        c.sample(&vec![1, 2, 3]),
        Err(ChainError::PreconditionViolation)
    );
    let mut t = built(1);
    t.add_atom(5);
    assert_eq!(
        t.sample(&vec![5, 5]),
        Err(ChainError::PreconditionViolation)
    );
    assert_eq!(
        t.sample_with_draw(&vec![5, 5], 0),
        Err(ChainError::PreconditionViolation)
    );
}

fn count_for(c: &Chain, key: &[usize], atom: usize) -> Option<usize> {
    let entry = c.transitions.iter().find(|e| e.key == key)?;
    let d = entry.dests.iter().find(|d| d.atom == atom)?;
    Some(d.count)
}

fn total_for(c: &Chain, key: &[usize]) -> Option<usize> {
    Some(c.transitions.iter().find(|e| e.key == key)?.total)
}

#[test]
fn order_one_training_scenario() {
    let mut c = built(1);
    for a in [1, 2, 1, 2, 1] {
        c.add_atom(a);
    }
    assert_eq!(count_for(&c, &[0], 1), Some(1));
    assert_eq!(count_for(&c, &[1], 2), Some(2));
    assert_eq!(count_for(&c, &[2], 1), Some(2));
    assert_eq!(total_for(&c, &[0]), Some(1));
    assert_eq!(total_for(&c, &[1]), Some(2));
    assert_eq!(total_for(&c, &[2]), Some(2));
    // the only destination learned after 1 is 2, so sampling is certain
    for _ in 0..50 {
        assert_eq!(c.sample(&vec![1]), Ok(Some(2)));
    }
}

#[test]
fn totals_match_count_sums_after_mixed_training() {
    let mut c = built(2);
    for a in [3, 1, 4, 1, 5] {
        c.add_atom(a);
    }
    c.end_sentence();
    for a in [3, 1, 4, 1, 3] {
        c.add_atom(a);
    }
    c.end_sentence();
    c.add_atom(9);
    for e in &c.transitions {
        let sum: usize = e.dests.iter().map(|d| d.count).sum();
        assert_eq!(e.total, sum);
        assert_eq!(e.key.len(), 2);
    }
}

#[test]
fn two_destinations_split_evenly() {
    let mut c = built(2);
    for a in [5, 6, 7] {
        c.add_atom(a);
    }
    c.end_sentence();
    for a in [5, 6, 8] {
        c.add_atom(a);
    }
    // the context after training on 5 then 6 is [6, 5]: newest first
    let state = vec![6, 5];
    let mut seven = 0;
    let mut eight = 0;
    for raw in 0..1000 {
        match c.sample_with_draw(&state, raw) {
            Ok(Some(7)) => seven += 1,
            Ok(Some(8)) => eight += 1,
            other => panic!("unexpected outcome {:?}", other),
        }
    }
    assert_eq!(seven, 500);
    assert_eq!(eight, 500);
    // the process-wide source also only ever produces the two learned atoms
    let mut seen_seven = false;
    let mut seen_eight = false;
    for _ in 0..200 {
        match c.sample(&state) {
            Ok(Some(7)) => seen_seven = true,
            Ok(Some(8)) => seen_eight = true,
            other => panic!("unexpected outcome {:?}", other),
        }
    }
    assert!(seen_seven && seen_eight);
}

#[test]
fn large_atom_values_are_accepted() {
    let mut c = built(1);
    c.add_atom(usize::MAX);
    c.add_atom(usize::MAX - 1);
    assert_eq!(count_for(&c, &[0], usize::MAX), Some(1));
    assert_eq!(count_for(&c, &[usize::MAX], usize::MAX - 1), Some(1));
}

#[test]
fn walker_on_untrained_state_is_empty() {
    let mut c = built(2);
    c.add_atom(1);
    let mut w = c.sample_seq(&vec![41, 42]);
    assert_eq!(w.next(), Ok(None));
    // exhausted for good
    assert_eq!(w.next(), Ok(None));
}

#[test]
fn walker_follows_the_learned_cycle() {
    let mut c = built(1);
    for a in [1, 2, 1, 2, 1] {
        c.add_atom(a);
    }
    // from 1 the only successor is 2; from 2 the only successor is 1
    let mut w = c.sample_seq(&vec![1]);
    let mut expected = 2;
    for _ in 0..10 {
        assert_eq!(w.next(), Ok(Some(expected)));
        expected = 3 - expected;
    }
}

#[test]
fn walker_rejects_wrong_length_seed_lazily() {
    let mut c = built(2);
    c.add_atom(1);
    let mut w = c.sample_seq(&vec![1, 2, 3]);
    assert_eq!(w.next(), Err(ChainError::PreconditionViolation));
    // the cursor is left in place, so the misuse is reported again
    assert_eq!(w.next(), Err(ChainError::PreconditionViolation));
}
