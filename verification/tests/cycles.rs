use rewatch::dependency_cycle::find;

fn module(name: &str, deps: &[&str]) -> (String, Vec<String>) {
    (name.to_string(), deps.iter().map(|d| d.to_string()).collect())
}

fn is_cycle(modules: &[(String, Vec<String>)], cycle: &[String]) -> bool {
    let depends = |a: &String, b: &String| {
        modules.iter().any(|(n, deps)| n == a && deps.contains(b))
    };
    let n = cycle.len();
    (0..n).all(|i| depends(&cycle[(i + 1) % n], &cycle[i]))
}

#[test]
fn no_cycle_in_a_chain() {
    let modules = vec![module("A", &["B"]), module("B", &["C"]), module("C", &[])];
    assert!(find(&modules).is_empty());
}

#[test]
fn finds_a_three_cycle() {
    let modules = vec![module("A", &["B"]), module("B", &["C"]), module("C", &["A"]), module("D", &["A"])];
    let cycle = find(&modules);
    assert_eq!(cycle.len(), 3);
    assert!(is_cycle(&modules, &cycle));
    assert!(!cycle.contains(&"D".to_string()));
}

#[test]
fn finds_a_self_dependency() {
    let modules = vec![module("A", &["A"]), module("B", &[])];
    assert_eq!(find(&modules), vec!["A".to_string()]);
}

#[test]
fn prefers_a_short_cycle() {
    let modules = vec![
        module("A", &["B"]),
        module("B", &["C"]),
        module("C", &["D"]),
        module("D", &["E"]),
        module("E", &["A", "D"]),
    ];
    let cycle = find(&modules);
    assert!(is_cycle(&modules, &cycle));
    assert_eq!(cycle.len(), 2);
}

#[test]
fn ignores_unknown_dependencies() {
    let modules = vec![module("A", &["Missing"]), module("B", &["A"])];
    assert!(find(&modules).is_empty());
}

#[test]
fn formats_a_cycle_backwards_and_closed() {
    let cycle = vec!["A".to_string(), "B-Ns".to_string(), "C-@Ns".to_string()];
    assert_eq!(rewatch::dependency_cycle::format(&cycle), "Ns.C\n → Ns.B\n → A\n → Ns.C");
    assert_eq!(rewatch::dependency_cycle::format(&["A".to_string()]), "A\n → A");
}

#[test]
fn reports_the_two_cycle_beside_a_four_cycle() {
    let modules = vec![
        module("A", &["B"]),
        module("B", &["C"]),
        module("C", &["D"]),
        module("D", &["A"]),
        module("E", &["F"]),
        module("F", &["E"]),
        module("G", &["A"]),
    ];
    let cycle = find(&modules);
    assert!(
        cycle == vec!["E".to_string(), "F".to_string()] || cycle == vec!["F".to_string(), "E".to_string()]
    );
}

#[test]
fn reports_a_shortest_long_cycle() {
    let modules = vec![
        module("A", &["B"]),
        module("B", &["C"]),
        module("C", &["D"]),
        module("D", &["E"]),
        module("E", &["F"]),
        module("F", &["A"]),
        module("P", &["Q"]),
        module("Q", &["R"]),
        module("R", &["S"]),
        module("S", &["P"]),
    ];
    let cycle = find(&modules);
    assert_eq!(cycle.len(), 4);
    assert!(is_cycle(&modules, &cycle));
}
