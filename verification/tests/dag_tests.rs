use dagtree::dag::DagError;
use dagtree::dag::DAG;

#[test]
fn dag_test_construction() {
    let mut a = DAG::new(30);
    a.add_new(&30, 5);
    a.add_new(&30, 10);
    a.add_new(&5, 15);
    assert!(a.add_link(&10, &15).is_ok());
}

#[test]
fn test_acyclic() {
    // linking 4 back under 2 would close a cycle and must be rejected,
    // with nothing mutated beforehand
    let mut b = DAG::new(1);
    b.add_new(&1, 2);
    b.add_new(&2, 3);
    b.add_new(&3, 4);
    assert_eq!(b.add_link(&4, &2), Err(DagError::Cycle));
    assert_eq!(b.len(), 4);
    assert_eq!(b.lca(&4, &2), Some(&2));
    assert_eq!(b.find(&4), Some(&4));
}

#[test]
fn dag_test_lca() {
    // A
    // |\
    // B C
    // |/|
    // D E
    // | |\
    // F G H
    //  \|
    //   I
    let mut c = DAG::new('A');
    c.add_new(&'A', 'B');
    c.add_new(&'A', 'C');
    c.add_new(&'B', 'D');
    assert!(c.add_link(&'C', &'D').is_ok());
    c.add_new(&'C', 'E');
    c.add_new(&'D', 'F');
    c.add_new(&'E', 'G');
    c.add_new(&'E', 'H');
    c.add_new(&'F', 'I');
    assert!(c.add_link(&'G', &'I').is_ok());
    assert_eq!(c.lca(&'B', &'C'), Some(&'A'));
    assert_eq!(c.lca(&'F', &'H'), Some(&'C'));
    assert_eq!(c.lca(&'I', &'E'), Some(&'E'));
    assert_eq!(c.lca(&'G', &'G'), Some(&'G'));
    assert_eq!(c.lca(&'J', &'C'), None);
}

#[test]
fn node_count_after_inserts() {
    // the count is one for the root plus one per accepted insertion
    let mut g = DAG::new(1);
    assert_eq!(g.len(), 1);
    g.add_new(&1, 2);
    g.add_new(&1, 3);
    g.add_new(&3, 4);
    assert_eq!(g.len(), 4);
    // a missing parent is a silent no-op
    g.add_new(&99, 5);
    assert_eq!(g.len(), 4);
}

#[test]
fn duplicate_add_new_is_idempotent() {
    let mut g = DAG::new(10);
    g.add_new(&10, 20);
    assert_eq!(g.len(), 2);
    g.add_new(&10, 20);
    assert_eq!(g.len(), 2);
    // a duplicate under another parent is suppressed as well
    g.add_new(&20, 10);
    assert_eq!(g.len(), 2);
}

#[test]
fn lca_of_value_with_itself() {
    let mut g = DAG::new('r');
    g.add_new(&'r', 'x');
    assert_eq!(g.lca(&'x', &'x'), Some(&'x'));
    assert_eq!(g.lca(&'r', &'r'), Some(&'r'));
}

#[test]
fn lca_with_missing_value() {
    let mut g = DAG::new('r');
    g.add_new(&'r', 'x');
    assert_eq!(g.lca(&'q', &'x'), None);
    assert_eq!(g.lca(&'x', &'q'), None);
    assert_eq!(g.lca(&'q', &'q'), None);
}

#[test]
fn find_present_and_absent() {
    let mut g = DAG::new(7);
    g.add_new(&7, 8);
    assert_eq!(g.find(&7), Some(&7));
    assert_eq!(g.find(&8), Some(&8));
    assert_eq!(g.find(&9), None);
}

#[test]
fn self_link_and_missing_link_are_ignored() {
    let mut g = DAG::new(1);
    g.add_new(&1, 2);
    assert_eq!(g.add_link(&2, &2), Ok(()));
    assert_eq!(g.add_link(&1, &99), Ok(()));
    assert_eq!(g.add_link(&99, &2), Ok(()));
    assert_eq!(g.len(), 2);
}
