use exit_analysis::parse::{check_line, read_policies, read_policy_from_line};
use exit_analysis::policy::{Policy, N_PORTS};

fn line(s: &str) -> Policy {
    assert!(check_line(s));
    read_policy_from_line(s).unwrap()
}

#[test]
fn new_policy_is_uniform() {
    assert_eq!(N_PORTS, 65536);
    assert_eq!(Policy::new(false).port_count(), 0);
    assert_eq!(Policy::new(true).port_count(), 65536);
    assert_eq!(Policy::default().port_count(), 0);
    assert!(Policy::new(true).allows(0));
    assert!(!Policy::new(false).allows(65535));
}

#[test]
fn set_range_skips_port_zero() {
    let mut p = Policy::new(false);
    p.set_range(0, 10, true);
    assert!(!p.allows(0));
    assert!(p.allows(1));
    assert!(p.allows(10));
    assert!(!p.allows(11));
    assert_eq!(p.port_count(), 10);
    p.set_range(65530, 65535, true);
    assert_eq!(p.port_count(), 16);
    p.set_range(9, 3, true);
    assert_eq!(p.port_count(), 16);
    let mut q = Policy::new(true);
    q.set_range(0, 65535, false);
    assert!(q.allows(0));
    assert_eq!(q.port_count(), 1);
}

#[test]
fn policy_set_operations() {
    let a = line("p accept 80,443");
    let b = line("p accept 80");
    assert!(a.contains(&b));
    assert!(!b.contains(&a));
    assert!(!a.negation_contains(&b));
    assert!(b.negation_contains(&line("p accept 443")));
    assert_eq!(a.intersect(&b).port_count(), 1);
    assert_eq!(a.union(&line("p accept 22")).port_count(), 3);
    assert_eq!(a.negate().port_count(), 65534);
    assert!(a.negate().allows(0));
    assert!(a.equals(&line("p accept 443,80")));
    assert!(!a.equals(&b));
}

#[test]
fn accept_line_allows_listed_ports() {
    let p = line("p accept 80,443,1000-1002");
    assert!(p.allows(80));
    assert!(p.allows(443));
    assert!(p.allows(1001));
    assert!(!p.allows(81));
    assert!(!p.allows(0));
    assert_eq!(p.port_count(), 5);
}

#[test]
fn reject_line_allows_other_ports() {
    let p = line("p reject 25,119");
    assert!(!p.allows(25));
    assert!(!p.allows(119));
    assert!(p.allows(80));
    assert!(p.allows(0));
    assert_eq!(p.port_count(), 65534);
}

#[test]
fn accept_all_line() {
    let p = line("p accept 1-65535");
    assert_eq!(p.port_count(), 65535);
    assert!(!p.allows(0));
    let mut q = Policy::new(false);
    q.set_range(1, 65535, true);
    assert!(p.equals(&q));
}

#[test]
fn lines_that_are_no_policy_lines() {
    for s in ["", "p", "p ", "x accept 80", "p accept", "p foo 80", "p  accept 80", "pp accept 80", "p Accept 80"] {
        assert!(check_line(s));
        assert!(read_policy_from_line(s).is_none(), "{}", s);
    }
}

#[test]
fn odd_items() {
    let p = line("p accept 1-2-3,80");
    assert_eq!(p.port_count(), 1);
    assert!(p.allows(80));
    let q = line("p accept +80,0-5,007");
    assert!(q.allows(80));
    assert!(q.allows(7));
    assert!(q.allows(1) && q.allows(5) && !q.allows(0));
    assert_eq!(q.port_count(), 7);
    let r = line("p accept 10-5");
    assert_eq!(r.port_count(), 0);
}

#[test]
fn check_line_finds_unreadable_items() {
    assert!(!check_line("p accept 80,"));
    assert!(!check_line("p accept x"));
    assert!(!check_line("p accept 65536"));
    assert!(!check_line("p accept -5"));
    assert!(!check_line("p accept +"));
    assert!(!check_line("p reject 1-"));
    assert!(check_line("p accept 65535"));
    assert!(check_line("p accept 1--2"));
    assert!(check_line("p foo ,,,"));
}

#[test]
fn malformed_policy_lines_give_none() {
    for s in ["p accept http", "p accept 80,", "p reject 1-", "p accept 65536", "p accept 80,x,443"] {
        assert!(!check_line(s));
        assert!(read_policy_from_line(s).is_none(), "{}", s);
    }
    let lines = vec![
        "p accept http".to_string(),
        "p accept 443".to_string(),
        "p reject 1-".to_string(),
    ];
    let ps = read_policies(&lines);
    assert_eq!(ps.len(), 1);
    assert!(ps[0].allows(443));
    assert_eq!(ps[0].port_count(), 1);
}

#[test]
fn read_policies_keeps_policy_lines() {
    let lines = vec![
        "onion-key".to_string(),
        "p accept 80".to_string(),
        "family $A".to_string(),
        "p reject 1-65535".to_string(),
    ];
    let ps = read_policies(&lines);
    assert_eq!(ps.len(), 2);
    assert_eq!(ps[0].port_count(), 1);
    assert_eq!(ps[1].port_count(), 1);
    assert!(ps[1].allows(0));
}

#[test]
fn policy_text() {
    assert_eq!(line("p accept 80,443,1000-2000").to_string(), "80,443,1000-2000");
    assert_eq!(line("p accept 1-5,6-10,12").to_string(), "1-10,12");
    assert_eq!(Policy::new(false).to_string(), "");
    assert_eq!(Policy::new(true).to_string(), "1-65535");
    assert_eq!(line("p reject 80").to_string(), "1-79,81-65535");
    assert_eq!(line("p accept 65535").to_string(), "65535");
}

#[test]
fn policy_spans() {
    let p = line("p accept 1,3-4,65535");
    assert_eq!(p.spans(), vec![(1, 1), (3, 4), (65535, 65535)]);
}

#[test]
fn derived_equality_agrees_with_equals() {
    let a = line("p accept 22,80");
    let b = a.clone();
    assert!(a == b);
    assert!(a.equals(&b));
    let c = line("p accept 22");
    assert!(a != c);
    assert!(!a.equals(&c));
}

#[test]
fn written_policy_reads_back() {
    for s in ["p accept 80,443,1000-2000", "p accept 0-1023", "p accept 1-65535", "p accept 65535,1"] {
        let p = line(s);
        let text = format!("p accept {}", p.to_string());
        let q = read_policy_from_line(&text).unwrap();
        assert!(q.equals(&p), "{}", text);
    }
    // a reject line accepts port 0, which the text leaves out
    let p = line("p reject 80");
    assert!(p.allows(0));
    let q = read_policy_from_line(&format!("p accept {}", p.to_string())).unwrap();
    assert!(!q.allows(0));
    assert_eq!(q.port_count() + 1, p.port_count());
}
