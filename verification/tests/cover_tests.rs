use exit_analysis::analysis::get_portcount;
use exit_analysis::coverage::{analyze_coverage_combinations, coverage_fits};
use exit_analysis::cover::find_cover;
use exit_analysis::greedy::{best_pair, covering_supporters, greedy_combine_coverage, greedy_fits, greedy_merge};
use exit_analysis::parse::read_policy_from_line;
use exit_analysis::policy::Policy;
use exit_analysis::supporters::{find_supporting_policies, PolSupporters};

fn pol(s: &str) -> Policy {
    read_policy_from_line(s).unwrap()
}

fn sample() -> Vec<Policy> {
    vec![pol("p accept 80,443"), pol("p accept 80"), pol("p reject 25")]
}

#[test]
fn cover_of_no_policies_is_all_ports() {
    let c = find_cover(&[]);
    assert_eq!(c.len(), 1);
    assert_eq!(c[0].1, 0);
    assert_eq!(c[0].0.to_string(), "1-65535");
}

#[test]
fn cover_splits_and_counts() {
    let c = find_cover(&sample()[..2]);
    assert_eq!(c.len(), 3);
    assert_eq!(c[0].0.to_string(), "80");
    assert_eq!(c[0].1, 2);
    assert_eq!(c[1].0.to_string(), "443");
    assert_eq!(c[1].1, 1);
    assert_eq!(c[2].0.to_string(), "1-79,81-442,444-65535");
    assert_eq!(c[2].1, 0);
}

#[test]
fn cover_is_a_partition() {
    let ps = sample();
    let c = find_cover(&ps);
    // classes: {80}, {443}, {25}, rest
    assert_eq!(c.len(), 4);
    let mut total = 0;
    for i in 0..c.len() {
        total += c[i].0.port_count();
        assert!(c[i].0.port_count() > 0);
        for j in 0..c.len() {
            if i != j {
                assert!(c[i].0.negation_contains(&c[j].0));
            }
        }
        for p in &ps {
            assert!(p.contains(&c[i].0) || p.negation_contains(&c[i].0));
        }
        let n = ps.iter().filter(|p| p.contains(&c[i].0)).count() as u32;
        assert_eq!(c[i].1, n);
    }
    assert_eq!(total, 65535);
}

#[test]
fn supporting_policies() {
    let ps = sample();
    let r = find_supporting_policies(&pol("p accept 80"), &ps);
    assert_eq!(r.len(), 64);
    assert!(r.is_set(0) && r.is_set(1) && r.is_set(2));
    let r2 = find_supporting_policies(&pol("p accept 25"), &ps);
    assert_eq!(r2.count(), 0);
    let r3 = find_supporting_policies(&pol("p accept 443"), &ps);
    assert!(r3.is_set(0) && !r3.is_set(1) && r3.is_set(2));
}

#[test]
fn supporters_values_and_costs() {
    let ps = sample();
    let a = PolSupporters::from_port_set(pol("p accept 80"), &ps);
    let b = PolSupporters::from_port_set(pol("p accept 443"), &ps);
    assert_eq!(a.port_count(), 1);
    assert_eq!(a.relay_count(), 3);
    assert_eq!(a.value(), 3);
    assert_eq!(b.relay_count(), 2);
    assert_eq!(b.value(), 2);
    // relays of a but not b: 1, times 1 port; of b but not a: none.
    assert_eq!(a.combining_cost(&b), 1);
    assert_eq!(b.combining_cost(&a), 1);
    let (c, cost) = a.combine(&b);
    assert_eq!(cost, 1);
    assert_eq!(c.port_count(), 2);
    assert_eq!(c.relay_count(), 2);
    assert_eq!(a.value() + b.value() - c.value(), cost);
    assert!(a.equals(&a));
    assert!(!a.equals(&b));
}

#[test]
fn combine_with_shared_ports_and_no_shared_relays() {
    let ps = vec![pol("p accept 80"), pol("p accept 443")];
    let a = PolSupporters::from_port_set(pol("p accept 80"), &ps);
    let b = PolSupporters::from_port_set(pol("p accept 80,443"), &ps);
    assert_eq!(b.relay_count(), 0);
    let (c, cost) = a.combine(&b);
    assert_eq!(cost, 1);
    assert_eq!(c.value(), 0);
    assert_eq!(a.value() + b.value() - c.value(), cost);
}

#[test]
fn portcount_weights() {
    let ps = sample();
    let ones: Vec<(&Policy, u32)> = ps.iter().map(|p| (p, 1)).collect();
    let c = get_portcount(&ones);
    assert_eq!(c.len(), 65536);
    assert_eq!(c[80], 3);
    assert_eq!(c[443], 2);
    assert_eq!(c[25], 0);
    assert_eq!(c[22], 1);
    assert_eq!(c[0], 1);
    let weighted: Vec<(&Policy, u32)> = ps.iter().zip([5u32, 7, 11]).collect();
    let w = get_portcount(&weighted);
    assert_eq!(w[80], 23);
    assert_eq!(w[443], 16);
    assert_eq!(w[22], 11);
}

#[test]
fn best_pair_is_cheapest_first() {
    let ps = sample();
    let sets = covering_supporters(&ps);
    assert_eq!(sets.len(), 4);
    let best = best_pair(&sets).unwrap();
    let mut min = u32::MAX;
    for i in 0..sets.len() {
        for j in (i + 1)..sets.len() {
            min = min.min(sets[i].combining_cost(&sets[j]));
        }
    }
    assert_eq!(best.2, min);
    assert_eq!(sets[best.0].combining_cost(&sets[best.1]), best.2);
    assert!(best.0 < best.1);
    let one = vec![PolSupporters::from_port_set(pol("p accept 80"), &ps)];
    assert!(best_pair(&one).is_none());
}

#[test]
fn greedy_merge_loses_its_cost() {
    let ps = sample();
    assert!(greedy_fits(&ps));
    let m = greedy_merge(&ps, 2);
    assert_eq!(m.combined.len(), 2);
    assert_eq!(m.steps.len(), 2);
    let cur: u32 = m.combined.iter().map(|s| s.value()).sum();
    assert_eq!(m.orig_value - cur, m.total_cost);
    assert_eq!(m.steps.iter().map(|s| s.cost).sum::<u32>(), m.total_cost);
    assert_eq!(m.steps[0].remaining, 3);
    assert_eq!(m.steps[1].remaining, 2);
    let all = greedy_merge(&ps, 0);
    assert_eq!(all.combined.len(), 1);
    assert_eq!(all.combined[0].ports.to_string(), "1-65535");
    let none = greedy_merge(&ps, 10);
    assert_eq!(none.combined.len(), 4);
    assert_eq!(none.total_cost, 0);
}

#[test]
fn greedy_report_portcounts() {
    let ps = sample();
    let r = greedy_combine_coverage(&ps, 1);
    assert_eq!(r.orig_portcount[80], 3);
    assert_eq!(r.orig_portcount[25], 0);
    for p in 0..65536 {
        assert!(r.final_portcount[p] <= r.orig_portcount[p]);
    }
    // everything merged into one set that no relay supports whole
    assert_eq!(r.final_portcount[80], 0);
    assert_eq!(r.merge.orig_value - 0, r.merge.total_cost);
}

#[test]
fn coverage_analysis() {
    let ps = sample();
    assert!(coverage_fits(&ps));
    let a = analyze_coverage_combinations(&ps);
    assert_eq!(a.sets.len(), 4);
    assert_eq!(a.analyses.len(), 4);
    for i in 0..4 {
        assert_eq!(a.analyses[i].relay_count, a.sets[i].relay_count());
        for &(j, loss) in &a.analyses[i].acceptable {
            assert!(j != i);
            assert_eq!(loss, a.sets[i].combining_cost(&a.sets[j]));
            assert!(loss * 20 <= a.analyses[i].relay_count && loss * 20 <= a.analyses[j].relay_count);
        }
    }
}

#[test]
fn every_policy_is_a_union_of_classes() {
    let ps = sample();
    let c = find_cover(&ps);
    for p in &ps {
        for port in 1..=65535u16 {
            let in_class = c.iter().any(|(cl, _)| cl.allows(port) && p.contains(cl));
            assert_eq!(p.allows(port), in_class);
        }
    }
    // no two classes are accepted by exactly the same policies
    for i in 0..c.len() {
        for j in 0..c.len() {
            if i != j {
                assert!(ps.iter().any(|p| p.contains(&c[i].0) != p.contains(&c[j].0)));
            }
        }
    }
}

#[test]
fn cover_count_is_relay_count() {
    let ps = sample();
    for (class, count) in find_cover(&ps) {
        let s = PolSupporters::from_port_set(class, &ps);
        assert_eq!(s.relay_count(), count);
    }
}
