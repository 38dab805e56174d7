use golangci_cmd::ranking::rank;

fn ranked(names: &[&str]) -> Vec<(String, usize)> {
    let names: Vec<String> = names.iter().map(|name| name.to_string()).collect();
    rank(&names)
        .into_iter()
        .map(|entry| (entry.name, entry.count))
        .collect()
}

fn entry(name: &str, count: usize) -> (String, usize) {
    (name.to_string(), count)
}

#[test]
fn nothing_to_rank() {
    assert_eq!(ranked(&[]), vec![]);
}

#[test]
fn counts_fall_and_ties_keep_their_order() {
    assert_eq!(
        ranked(&["b", "a", "c", "a", "d", "c", "c"]),
        vec![entry("c", 3), entry("a", 2), entry("b", 1), entry("d", 1)]
    );
    assert_eq!(
        ranked(&["z", "y", "x", "x", "y", "z"]),
        vec![entry("z", 2), entry("y", 2), entry("x", 2)]
    );
}

#[test]
fn counts_add_up() {
    let names = ["b", "a", "c", "a", "d", "c", "c"];
    let total: usize = ranked(&names).iter().map(|entry| entry.1).sum();
    assert_eq!(total, names.len());
}
