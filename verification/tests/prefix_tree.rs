use dn42_roa_generator::model::record::Prefix;
use dn42_roa_generator::model::tree::PrefixTree;
use std::collections::HashSet;

// Helper to collect results from visit_leaf
fn collect_leaves(tree: &PrefixTree) -> Vec<Prefix> {
    tree.visit_leaf()
}

#[test]
fn test_insert_basic_ipv4() {
    let mut tree = PrefixTree::new();
    let p = Prefix::from_str("192.168.1.0/24").unwrap();

    tree.insert(p.clone());

    let leaves = collect_leaves(&tree);

    // Assert that we found exactly one leaf and it is the one we inserted.
    // If the implementation is buggy (off-by-one), this usually fails
    // because the node for /24 is never created, only up to /23.
    assert_eq!(leaves.len(), 1, "Should have exactly 1 leaf");
    assert_eq!(leaves[0], p, "The leaf should match the inserted prefix");
}

#[test]
fn test_insert_basic_ipv6() {
    let mut tree = PrefixTree::new();
    let p = Prefix::from_str("2001:db8::/32").unwrap();

    tree.insert(p.clone());

    let leaves = collect_leaves(&tree);
    assert_eq!(leaves.len(), 1);
    assert_eq!(leaves[0], p);
}

#[test]
fn test_insert_branching() {
    let mut tree = PrefixTree::new();
    // 0.0.0.0/1 (starts with 0)
    let p1 = Prefix::from_str("0.0.0.0/1").unwrap();
    // 128.0.0.0/1 (starts with 1)
    let p2 = Prefix::from_str("128.0.0.0/1").unwrap();

    tree.insert(p1.clone());
    tree.insert(p2.clone());

    let leaves = collect_leaves(&tree);
    assert_eq!(leaves.len(), 2);

    let leaf_set: HashSet<Prefix> = leaves.into_iter().collect();
    assert!(leaf_set.contains(&p1));
    assert!(leaf_set.contains(&p2));
}

#[test]
fn test_leaf_logic_nested() {
    // Test that verify_leaf only returns actual nodes with no children.
    // If we insert /24 and /25, /24 becomes an internal node,
    // so only /25 should be returned by visit_leaf.
    let mut tree = PrefixTree::new();
    let parent = Prefix::from_str("10.0.0.0/24").unwrap();
    let child = Prefix::from_str("10.0.0.0/25").unwrap();

    tree.insert(parent.clone());
    tree.insert(child.clone());

    let leaves = collect_leaves(&tree);

    assert_eq!(leaves.len(), 1, "Should only have 1 leaf (the most specific one)");
    assert_eq!(leaves[0], child, "The leaf should be the /25 prefix");
}

#[test]
fn test_insert_root() {
    let mut tree = PrefixTree::new();
    let root_prefix = Prefix::from_str("0.0.0.0/0").unwrap();
    tree.insert(root_prefix.clone());

    let leaves = collect_leaves(&tree);
    assert_eq!(leaves.len(), 1);
    assert_eq!(leaves[0], root_prefix);
}

#[test]
fn test_multiple_branches() {
    let mut tree = PrefixTree::new();
    // 10.0.0.0/8
    let p1 = Prefix::from_str("10.0.0.0/8").unwrap();
    // 192.168.1.0/24
    let p2 = Prefix::from_str("192.168.1.0/24").unwrap();
    // 192.168.2.0/24
    let p3 = Prefix::from_str("192.168.2.0/24").unwrap();

    tree.insert(p1.clone());
    tree.insert(p2.clone());
    tree.insert(p3.clone());

    let leaves = collect_leaves(&tree);
    assert_eq!(leaves.len(), 3);

    let leaf_set: HashSet<Prefix> = leaves.into_iter().collect();
    assert!(leaf_set.contains(&p1));
    assert!(leaf_set.contains(&p2));
    assert!(leaf_set.contains(&p3));
}

#[test]
fn test_ipv4_max_prefix_length() {
    // Test inserting a /32 prefix (maximum for IPv4)
    let mut tree = PrefixTree::new();
    let p = Prefix::from_str("192.168.1.1/32").unwrap();

    tree.insert(p.clone());

    let leaves = collect_leaves(&tree);
    assert_eq!(leaves.len(), 1);
    assert_eq!(leaves[0], p);
}

#[test]
fn test_ipv6_max_prefix_length() {
    // Test inserting a /128 prefix (maximum for IPv6)
    let mut tree = PrefixTree::new();
    let p = Prefix::from_str("2001:db8::1/128").unwrap();

    tree.insert(p.clone());

    let leaves = collect_leaves(&tree);
    assert_eq!(leaves.len(), 1);
    assert_eq!(leaves[0], p);
}

#[test]
fn test_empty_tree_visit_leaf() {
    // Ensure visit_leaf on an empty tree doesn't crash
    let tree = PrefixTree::new();
    let leaves = collect_leaves(&tree);
    assert_eq!(leaves.len(), 0, "Empty tree should have no leaves");
}

#[test]
fn test_insert_duplicate_prefix() {
    // Inserting the same prefix twice should still result in one leaf
    let mut tree = PrefixTree::new();
    let p = Prefix::from_str("10.0.0.0/16").unwrap();

    tree.insert(p.clone());
    tree.insert(p.clone());

    let leaves = collect_leaves(&tree);
    assert_eq!(leaves.len(), 1);
    assert_eq!(leaves[0], p);
}

#[test]
fn test_child_before_parent_insertion() {
    // Insert child first, then parent - parent should become internal node
    let mut tree = PrefixTree::new();
    let child = Prefix::from_str("192.168.1.128/25").unwrap();
    let parent = Prefix::from_str("192.168.1.0/24").unwrap();

    tree.insert(child.clone());
    tree.insert(parent.clone());

    let leaves = collect_leaves(&tree);
    // The /24 should become an internal node, only /25 should be a leaf
    assert_eq!(leaves.len(), 1);
    assert_eq!(leaves[0], child);
}

#[test]
fn test_deep_nesting() {
    // Test a deep chain of prefixes where each is more specific than the previous
    let mut tree = PrefixTree::new();
    let p1 = Prefix::from_str("10.0.0.0/8").unwrap();
    let p2 = Prefix::from_str("10.1.0.0/16").unwrap();
    let p3 = Prefix::from_str("10.1.1.0/24").unwrap();
    let p4 = Prefix::from_str("10.1.1.128/25").unwrap();

    tree.insert(p1.clone());
    tree.insert(p2.clone());
    tree.insert(p3.clone());
    tree.insert(p4.clone());

    let leaves = collect_leaves(&tree);
    // Only the most specific prefix should be a leaf
    assert_eq!(leaves.len(), 1);
    assert_eq!(leaves[0], p4);
}

#[test]
fn test_sibling_branches_different_depths() {
    // Test that siblings can have different depths
    let mut tree = PrefixTree::new();
    let p1 = Prefix::from_str("10.0.0.0/24").unwrap();    // Deep branch
    let p2 = Prefix::from_str("192.0.0.0/8").unwrap();    // Shallow branch

    tree.insert(p1.clone());
    tree.insert(p2.clone());

    let leaves = collect_leaves(&tree);
    assert_eq!(leaves.len(), 2);

    let leaf_set: HashSet<Prefix> = leaves.into_iter().collect();
    assert!(leaf_set.contains(&p1));
    assert!(leaf_set.contains(&p2));
}


#[test]
fn test_multiple_prefixes_same_branch() {
    // Insert multiple prefixes along the same branch
    let mut tree = PrefixTree::new();
    let p1 = Prefix::from_str("10.0.0.0/8").unwrap();
    let p2 = Prefix::from_str("10.128.0.0/9").unwrap();  // Different second bit
    let p3 = Prefix::from_str("10.0.0.0/9").unwrap();    // Same as first 9 bits of p1

    tree.insert(p1.clone());
    tree.insert(p2.clone());
    tree.insert(p3.clone());

    let leaves = collect_leaves(&tree);
    assert_eq!(leaves.len(), 2, "Should have 2 leaves (two /9 prefixes)");

    let leaf_set: HashSet<Prefix> = leaves.into_iter().collect();
    assert!(leaf_set.contains(&p2));
    assert!(leaf_set.contains(&p3));
    assert!(!leaf_set.contains(&p1), "/8 should be internal node, not a leaf");
}

#[test]
fn test_ipv6_various_lengths() {
    // Test IPv6 with various prefix lengths
    let mut tree = PrefixTree::new();
    let p32 = Prefix::from_str("2001:db8::/32").unwrap();
    let p48 = Prefix::from_str("2001:db8:1::/48").unwrap();
    let p64 = Prefix::from_str("2001:db8:1:2::/64").unwrap();

    tree.insert(p32.clone());
    tree.insert(p48.clone());
    tree.insert(p64.clone());

    let leaves = collect_leaves(&tree);
    assert_eq!(leaves.len(), 1);
    assert_eq!(leaves[0], p64, "Most specific prefix should be the leaf");
}

#[test]
fn test_complex_tree_structure() {
    // Build a more complex tree with multiple levels and branches
    let mut tree = PrefixTree::new();
    let prefixes = vec![
        "10.0.0.0/8",
        "10.1.0.0/16",
        "10.2.0.0/16",
        "10.1.1.0/24",
        "172.16.0.0/12",
        "172.16.1.0/24",
        "192.168.0.0/16",
        "192.168.1.0/24",
        "192.168.2.0/24",
    ];

    let parsed_prefixes: Vec<Prefix> = prefixes
        .iter()
        .map(|s| Prefix::from_str(s).unwrap())
        .collect();

    for p in &parsed_prefixes {
        tree.insert(p.clone());
    }

    let leaves = collect_leaves(&tree);
    // Count actual leaves (most specific prefixes with no more specific children):
    // 10.1.1.0/24, 10.2.0.0/16, 172.16.1.0/24, 192.168.1.0/24, 192.168.2.0/24
    assert_eq!(leaves.len(), 5);
}

#[test]
fn test_single_bit_prefixes() {
    // Test with /1 prefixes (single bit differentiation)
    let mut tree = PrefixTree::new();
    let p_zero = Prefix::from_str("0.0.0.0/1").unwrap();
    let p_one = Prefix::from_str("128.0.0.0/1").unwrap();

    tree.insert(p_zero.clone());
    tree.insert(p_one.clone());

    let leaves = collect_leaves(&tree);
    assert_eq!(leaves.len(), 2);

    let leaf_set: HashSet<Prefix> = leaves.into_iter().collect();
    assert!(leaf_set.contains(&p_zero));
    assert!(leaf_set.contains(&p_one));
}

#[test]
fn test_ipv6_compressed_notation() {
    // Test IPv6 with compressed notation (should be treated identically)
    let mut tree = PrefixTree::new();
    let p1 = Prefix::from_str("2001:db8::1/128").unwrap();
    let p2 = Prefix::from_str("2001:db8:0:0:0:0:0:1/128").unwrap();

    // These should be the same prefix
    tree.insert(p1.clone());
    tree.insert(p2.clone());

    let leaves = collect_leaves(&tree);
    assert_eq!(leaves.len(), 1, "Compressed and full notation should represent the same prefix");
    assert_eq!(leaves[0], p1);
}

#[test]
fn test_ordering_independence() {
    // Test that insertion order doesn't affect the final tree structure
    let mut tree1 = PrefixTree::new();
    let mut tree2 = PrefixTree::new();

    let p1 = Prefix::from_str("10.0.0.0/8").unwrap();
    let p2 = Prefix::from_str("10.1.0.0/16").unwrap();
    let p3 = Prefix::from_str("10.1.1.0/24").unwrap();

    // Insert in forward order
    tree1.insert(p1.clone());
    tree1.insert(p2.clone());
    tree1.insert(p3.clone());

    // Insert in reverse order
    tree2.insert(p3.clone());
    tree2.insert(p2.clone());
    tree2.insert(p1.clone());

    let leaves1 = collect_leaves(&tree1);
    let leaves2 = collect_leaves(&tree2);

    assert_eq!(leaves1.len(), leaves2.len());
    assert_eq!(leaves1, leaves2, "Insertion order should not affect final tree structure");
}

#[test]
fn test_adjacent_prefixes() {
    // Test inserting adjacent prefixes that share a common parent
    let mut tree = PrefixTree::new();
    // These two /25 prefixes combine to form 192.168.1.0/24
    let p1 = Prefix::from_str("192.168.1.0/25").unwrap();
    let p2 = Prefix::from_str("192.168.1.128/25").unwrap();

    tree.insert(p1.clone());
    tree.insert(p2.clone());

    let leaves = collect_leaves(&tree);
    assert_eq!(leaves.len(), 2);

    let leaf_set: HashSet<Prefix> = leaves.into_iter().collect();
    assert!(leaf_set.contains(&p1));
    assert!(leaf_set.contains(&p2));
}

#[test]
fn test_three_level_branching() {
    // Test a tree with three levels of branching
    let mut tree = PrefixTree::new();
    let p1 = Prefix::from_str("10.0.0.0/8").unwrap();
    let p2 = Prefix::from_str("10.0.0.0/16").unwrap();
    let p3 = Prefix::from_str("10.0.0.0/24").unwrap();
    let p4 = Prefix::from_str("10.0.1.0/24").unwrap();  // Sibling of p3
    let p5 = Prefix::from_str("10.1.0.0/16").unwrap();  // Sibling of p2

    tree.insert(p1.clone());
    tree.insert(p2.clone());
    tree.insert(p3.clone());
    tree.insert(p4.clone());
    tree.insert(p5.clone());

    let leaves = collect_leaves(&tree);
    // Leaves should be: p3, p4, p5
    assert_eq!(leaves.len(), 3);

    let leaf_set: HashSet<Prefix> = leaves.into_iter().collect();
    assert!(leaf_set.contains(&p3));
    assert!(leaf_set.contains(&p4));
    assert!(leaf_set.contains(&p5));
}

#[test]
fn test_ipv6_zero_prefix() {
    // Test IPv6 ::/0 (default route)
    let mut tree = PrefixTree::new();
    let p = Prefix::from_str("::/0").unwrap();

    tree.insert(p.clone());

    let leaves = collect_leaves(&tree);
    assert_eq!(leaves.len(), 1);
    assert_eq!(leaves[0], p);
}
