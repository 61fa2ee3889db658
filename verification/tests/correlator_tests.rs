use mcp_core::correlator::Correlator;

#[test]
fn issues_distinct_identifiers() {
    let mut c = Correlator::new();
    let a = c.begin_request(None).unwrap();
    let b = c.begin_request(None).unwrap();
    assert_ne!(a, b);
}

#[test]
fn resolving_one_leaves_the_other() {
    let mut c = Correlator::new();
    let a = c.begin_request(None).unwrap();
    let b = c.begin_request(Some(99)).unwrap();
    assert!(c.resolve(a));
    // the other entry is untouched, deadline included
    assert_eq!(c.deadline_of(b), Some(Some(99)));
    assert_eq!(c.deadline_of(a), None);
}

#[test]
fn orphan_response_is_dropped() {
    let mut c = Correlator::new();
    let a = c.begin_request(None).unwrap();
    assert!(!c.resolve(a + 1000));
    assert_eq!(c.deadline_of(a), Some(None));
}

#[test]
fn fail_all_drains_everything() {
    let mut c = Correlator::new();
    let a = c.begin_request(None).unwrap();
    let b = c.begin_request(None).unwrap();
    let mut ids = c.fail_all();
    ids.sort();
    assert_eq!(ids, vec![a, b]);
    assert_eq!(c.deadline_of(a), None);
    assert_eq!(c.deadline_of(b), None);
}

#[test]
fn expire_takes_only_passed_deadlines() {
    let mut c = Correlator::new();
    let early = c.begin_request(Some(10)).unwrap();
    let late = c.begin_request(Some(100)).unwrap();
    let forever = c.begin_request(None).unwrap();
    let expired = c.expire(50);
    assert_eq!(expired, vec![early]);
    assert_eq!(c.deadline_of(late), Some(Some(100)));
    assert_eq!(c.deadline_of(forever), Some(None));
    assert_eq!(c.deadline_of(early), None);
}
