use tear::reconcile::{table_of, Registry};

fn running(handles: Vec<u32>) -> Registry<u32> {
    let mut r = Registry::new();
    r.adopt(handles);
    r
}

/// The table of a desired set with no two equal entries.
fn distinct(m: usize) -> Vec<Vec<bool>> {
    vec![vec![false; m]; m]
}

fn contents(r: &Registry<u32>) -> Vec<u32> {
    let mut v = Vec::new();
    for i in 0..r.len() {
        v.push(*r.get(i));
    }
    v
}

#[test]
fn added_subscription_starts_and_existing_one_stays() {
    // running {A}; desired {A, B}
    let mut reg = running(vec![1]);
    let eq = vec![vec![true, false]];
    let out = reg.reconcile(&eq, &distinct(2), vec![11, 12]);
    assert!(out.stopped.is_empty());
    assert_eq!(out.started, vec![12]);
    assert_eq!(contents(&reg), vec![1]);
    reg.adopt(out.started);
    assert_eq!(contents(&reg), vec![1, 12]);
}

#[test]
fn replaced_subscription_stops_and_new_one_starts() {
    // running {A, B}; desired {B, C}
    let mut reg = running(vec![1, 2]);
    let eq = vec![vec![false, false], vec![true, false]];
    let out = reg.reconcile(&eq, &distinct(2), vec![22, 23]);
    assert_eq!(out.stopped, vec![1]);
    assert_eq!(out.started, vec![23]);
    reg.adopt(out.started);
    assert_eq!(contents(&reg), vec![2, 23]);
}

#[test]
fn unchanged_set_restarts_nothing() {
    let mut reg = running(vec![1, 2, 3]);
    let eq = vec![
        vec![false, false, true],
        vec![true, false, false],
        vec![false, true, false],
    ];
    let out = reg.reconcile(&eq, &distinct(3), vec![32, 33, 31]);
    assert!(out.stopped.is_empty());
    assert!(out.started.is_empty());
    assert_eq!(contents(&reg), vec![1, 2, 3]);
}

#[test]
fn first_pass_starts_everything() {
    let mut reg: Registry<u32> = Registry::new();
    let out = reg.reconcile(&Vec::new(), &distinct(3), vec![5, 6, 7]);
    assert!(out.stopped.is_empty());
    assert_eq!(out.started, vec![5, 6, 7]);
    assert_eq!(reg.len(), 0);
}

#[test]
fn empty_desired_set_stops_everything() {
    let mut reg = running(vec![1, 2]);
    let eq = vec![vec![], vec![]];
    let out = reg.reconcile(&eq, &distinct(0), Vec::new());
    assert_eq!(out.stopped, vec![1, 2]);
    assert!(out.started.is_empty());
    assert_eq!(reg.len(), 0);
}

#[test]
fn equal_desired_twice_starts_nothing_new() {
    // one running A; desired {A, A}: A keeps running and no copy is started
    let mut reg = running(vec![1]);
    let eq = vec![vec![true, true]];
    let among = vec![vec![true, true], vec![true, true]];
    let out = reg.reconcile(&eq, &among, vec![11, 12]);
    assert!(out.stopped.is_empty());
    assert!(out.started.is_empty());
    assert_eq!(contents(&reg), vec![1]);
}

#[test]
fn new_subscription_named_twice_starts_once() {
    // nothing running; desired {A, A}: only the first copy is started
    let mut reg: Registry<u32> = Registry::new();
    let desired = vec![5, 5];
    let among = table_of(&desired, &desired, |a: &u32, b: &u32| a == b);
    let out = reg.reconcile(&Vec::new(), &among, desired);
    assert_eq!(out.started, vec![5]);
    reg.adopt(out.started);
    assert_eq!(contents(&reg), vec![5]);
}

#[test]
fn later_duplicate_of_running_is_not_started() {
    // running {A}; desired {B, A, B}: B starts once, A is kept
    let mut reg = running(vec![1]);
    let desired = vec![2, 1, 2];
    let eq = reg.equality_table(&desired, |a: &u32, b: &u32| a == b);
    let among = table_of(&desired, &desired, |a: &u32, b: &u32| a == b);
    let out = reg.reconcile(&eq, &among, desired);
    assert!(out.stopped.is_empty());
    assert_eq!(out.started, vec![2]);
    reg.adopt(out.started);
    assert_eq!(contents(&reg), vec![1, 2]);
}

#[test]
fn missing_table_entries_count_as_unequal() {
    let mut reg = running(vec![1, 2]);
    let eq = vec![vec![true]];
    let out = reg.reconcile(&eq, &distinct(2), vec![11, 12]);
    assert_eq!(out.stopped, vec![2]);
    assert_eq!(out.started, vec![12]);
    assert_eq!(contents(&reg), vec![1]);
}

#[test]
fn stopped_handle_is_not_stopped_again() {
    let mut reg = running(vec![1, 2]);
    let out = reg.reconcile(&vec![vec![false], vec![true]], &distinct(1), vec![12]);
    assert_eq!(out.stopped, vec![1]);
    let again = reg.reconcile(&vec![vec![false]], &distinct(1), vec![13]);
    assert_eq!(again.stopped, vec![2]);
    assert!(!again.stopped.contains(&1));
}

#[test]
fn stop_all_empties_registry() {
    let mut reg = running(vec![4, 5]);
    assert_eq!(reg.stop_all(), vec![4, 5]);
    assert_eq!(reg.len(), 0);
}

#[test]
fn equality_table_asks_every_pair() {
    let reg = running(vec![1, 2, 3]);
    let desired = vec![13, 21, 99];
    let table = reg.equality_table(&desired, |a: &u32, b: &u32| b % 10 == *a);
    assert_eq!(
        table,
        vec![
            vec![false, true, false],
            vec![false, false, false],
            vec![true, false, false],
        ]
    );
}

#[test]
fn equality_table_drives_reconcile() {
    // running {A, B}; desired {B, C}, compared by value
    let mut reg = running(vec![10, 20]);
    let desired = vec![20, 30];
    let table = reg.equality_table(&desired, |a: &u32, b: &u32| a == b);
    let among = table_of(&desired, &desired, |a: &u32, b: &u32| a == b);
    let out = reg.reconcile(&table, &among, desired);
    assert_eq!(out.stopped, vec![10]);
    assert_eq!(out.started, vec![30]);
    assert_eq!(contents(&reg), vec![20]);
}
