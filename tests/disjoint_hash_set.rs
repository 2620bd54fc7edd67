use disjoint_hash_set::DisjointHashSet;
use std::collections::HashSet;

fn sorted_by_len(mut sets: Vec<HashSet<&'static str>>) -> Vec<HashSet<&'static str>> {
    sets.sort_by(|a, b| a.len().cmp(&b.len()));
    sets
}

fn set_of(items: &[&'static str]) -> HashSet<&'static str> {
    items.iter().copied().collect()
}

#[test]
fn link_greetings_then_query() {
    let mut djhs = DisjointHashSet::new();
    djhs.link("hello", "hi");
    djhs.link("hello", "👋");
    assert!(djhs.is_linked(&"hi", &"👋"));
}

#[test]
fn from_edges_yields_three_groups() {
    let djhs = DisjointHashSet::from_iter(vec![("a", "b"), ("a", "c"), ("d", "e"), ("f", "f")]);
    let sets = sorted_by_len(djhs.sets());
    assert_eq!(sets.len(), 3);
    assert_eq!(sets, vec![set_of(&["f"]), set_of(&["d", "e"]), set_of(&["a", "b", "c"])]);
}

#[test]
fn contains_after_insert() {
    let mut djhs = DisjointHashSet::new();
    assert!(!djhs.contains(&"a"));
    assert!(djhs.insert("a"));
    assert!(!djhs.insert("a"));
    assert!(djhs.contains(&"a"));
}

#[test]
fn insert_twice_is_idempotent() {
    let mut djhs = DisjointHashSet::new();
    assert!(djhs.insert("k"));
    assert!(djhs.contains(&"k"));
    assert!(!djhs.insert("k"));
    assert!(djhs.contains(&"k"));
    assert_eq!(djhs.sets().len(), 1);
}

#[test]
fn is_linked_after_links() {
    let mut djhs = DisjointHashSet::new();
    djhs.link("a", "b");
    djhs.link("a", "c");
    assert!(djhs.is_linked(&"b", &"c"));
    assert!(!djhs.is_linked(&"a", &"d"));
}

#[test]
fn link_registers_both_keys() {
    let mut djhs = DisjointHashSet::new();
    djhs.link("a", "b");
    assert!(djhs.contains(&"a"));
    assert!(djhs.contains(&"b"));
    assert!(djhs.is_linked(&"a", &"b"));
}

#[test]
fn sets_after_chained_edges() {
    let edges = vec![("a", "a"), ("b", "c"), ("d", "e"), ("e", "f")];
    let sets = sorted_by_len(DisjointHashSet::from_iter(edges).sets());
    let expected = vec![set_of(&["a"]), set_of(&["b", "c"]), set_of(&["d", "e", "f"])];
    assert_eq!(sets, expected);
}

#[test]
fn is_linked_is_symmetric() {
    let mut djhs = DisjointHashSet::new();
    djhs.link("x", "y");
    djhs.insert("z");
    let keys = ["x", "y", "z", "w"];
    for a in keys.iter() {
        for b in keys.iter() {
            assert_eq!(djhs.is_linked(a, b), djhs.is_linked(b, a));
        }
    }
}

#[test]
fn inserted_key_is_linked_to_itself() {
    let mut djhs = DisjointHashSet::new();
    djhs.insert("solo");
    assert!(djhs.is_linked(&"solo", &"solo"));
}

#[test]
fn links_are_transitive() {
    let mut djhs = DisjointHashSet::new();
    djhs.link("a", "b");
    djhs.link("b", "c");
    assert!(djhs.is_linked(&"a", &"c"));
    assert!(djhs.is_linked(&"c", &"a"));
}

#[test]
fn unknown_keys_are_not_linked_nor_registered() {
    let mut djhs = DisjointHashSet::new();
    djhs.insert("a");
    assert!(!djhs.is_linked(&"x", &"a"));
    assert!(!djhs.is_linked(&"a", &"x"));
    assert!(!djhs.is_linked(&"x", &"x"));
    assert!(!djhs.contains(&"x"));
    assert!(djhs.contains(&"a"));
}

#[test]
fn sets_partition_every_key() {
    let mut djhs = DisjointHashSet::new();
    djhs.link("a", "b");
    djhs.link("c", "d");
    djhs.insert("e");
    djhs.link("d", "f");
    djhs.link("b", "b");
    let keys = ["a", "b", "c", "d", "e", "f"];
    let mut linked = Vec::new();
    for a in keys.iter() {
        for b in keys.iter() {
            linked.push(((*a, *b), djhs.is_linked(a, b)));
        }
    }
    let sets = djhs.sets();
    assert_eq!(sets.len(), 3);
    let mut seen = HashSet::new();
    for set in sets.iter() {
        assert!(!set.is_empty());
        for k in set.iter() {
            assert!(seen.insert(*k));
        }
    }
    assert_eq!(seen, set_of(&keys));
    for ((a, b), was_linked) in linked {
        let together = sets.iter().any(|s| s.contains(a) && s.contains(b));
        assert_eq!(together, was_linked);
    }
}

#[test]
fn empty_structure_has_no_sets() {
    let djhs: DisjointHashSet<&'static str> = DisjointHashSet::new();
    assert!(djhs.sets().is_empty());
}

#[test]
fn self_link_registers_singleton() {
    let mut djhs = DisjointHashSet::new();
    djhs.link("f", "f");
    assert!(djhs.contains(&"f"));
    assert!(djhs.is_linked(&"f", &"f"));
    assert_eq!(djhs.sets(), vec![set_of(&["f"])]);
}

#[test]
fn relinking_merged_groups_changes_nothing() {
    let mut djhs = DisjointHashSet::new();
    djhs.link("a", "b");
    djhs.link("b", "a");
    djhs.link("a", "a");
    assert_eq!(djhs.sets(), vec![set_of(&["a", "b"])]);
}

#[test]
fn long_chain_stays_fast() {
    let n: u64 = 100_000;
    let mut djhs = DisjointHashSet::new();
    for i in 0..n {
        djhs.link(i, i + 1);
    }
    for i in 0..n {
        assert!(djhs.is_linked(&0, &i));
    }
    assert!(!djhs.is_linked(&0, &(n + 5)));
    let sets = djhs.sets();
    assert_eq!(sets.len(), 1);
    assert_eq!(sets[0].len(), (n + 1) as usize);
}
