//! A binary tree over the bits of address blocks, whose leaves are the most specific blocks.
use crate::model::record::{
    all_bits, bit_at, lemma_bits_of_all_bits, lemma_masked_bit, lemma_octets_by_bits,
    lemma_resized, law_resized_to_own_length, Prefix, PrefixView,
};
use vstd::prelude::*;

verus! {

/// A node of the tree: the prefix that its path spells, and the subtrees for the next bit.
pub struct PrefixNode {
    prefix: Prefix,
    zero: Option<Box<PrefixNode>>,
    one: Option<Box<PrefixNode>>,
}

/// A binary tree over the bits of prefixes. Its value is the map from the path of each node
/// (the bits from the root down to it) to the prefix that the node carries.
pub struct PrefixTree(Option<Box<PrefixNode>>);

/// Whether the bits `a` are the first bits of `b`.
pub open spec fn is_prefix(a: Seq<u8>, b: Seq<u8>) -> bool {
    a.len() <= b.len() && b.subrange(0, a.len() as int) == a
}

/// The nodes that the prefix `p` needs from depth `depth` on: one for each leading part of its
/// bits of at least that length, carrying `p` cut down to that part.
pub open spec fn chain_from(p: PrefixView, depth: nat) -> Map<Seq<u8>, PrefixView> {
    Map::new(
        |path: Seq<u8>| is_prefix(path, p.bits()) && path.len() >= depth,
        |path: Seq<u8>| p.resized(path.len()),
    )
}

/// The nodes that the prefix `p` needs: one for each leading part of its bits.
pub open spec fn chain(p: PrefixView) -> Map<Seq<u8>, PrefixView> {
    chain_from(p, 0)
}

/// The map of a tree after `p` was inserted into a tree with the map `m`: the nodes of the
/// chain of `p` are added where they are missing.
pub open spec fn inserted(m: Map<Seq<u8>, PrefixView>, p: PrefixView) -> Map<Seq<u8>, PrefixView> {
    chain(p).union_prefer_right(m)
}

/// The prefixes of the leaves at or below `path`, those below the zero branch first. A leaf
/// is a node without a node below it.
pub open spec fn leaves_from(m: Map<Seq<u8>, PrefixView>, path: Seq<u8>) -> Seq<PrefixView>
    decreases 129 - path.len(),
{
    if !m.contains_key(path) || path.len() > 128 {
        Seq::empty()
    } else if !m.contains_key(path.push(0u8)) && !m.contains_key(path.push(1u8)) {
        seq![m[path]]
    } else {
        leaves_from(m, path.push(0u8)) + leaves_from(m, path.push(1u8))
    }
}

/// The prefixes of all the leaves of a tree.
pub open spec fn leaves(m: Map<Seq<u8>, PrefixView>) -> Seq<PrefixView> {
    leaves_from(m, Seq::empty())
}

/// The values of the prefixes, one by one.
pub open spec fn prefix_views(s: Seq<Prefix>) -> Seq<PrefixView> {
    Seq::new(s.len(), |i: int| s[i]@)
}

spec fn opt_map(node: Option<Box<PrefixNode>>, path: Seq<u8>) -> Map<Seq<u8>, PrefixView>
    decreases node,
{
    match node {
        None => Map::empty(),
        Some(n) => n.as_map(path),
    }
}

spec fn opt_wf(node: Option<Box<PrefixNode>>, path: Seq<u8>) -> bool
    decreases node,
{
    match node {
        None => true,
        Some(n) => n.wf_at(path),
    }
}

spec fn opt_leaves(node: Option<Box<PrefixNode>>) -> Seq<PrefixView>
    decreases node,
{
    match node {
        None => Seq::empty(),
        Some(n) => n.node_leaves(),
    }
}

impl PrefixNode {
    spec fn as_map(self, path: Seq<u8>) -> Map<Seq<u8>, PrefixView>
        decreases self,
    {
        opt_map(self.zero, path.push(0u8)).union_prefer_right(
            opt_map(self.one, path.push(1u8)),
        ).insert(path, self.prefix@)
    }

    spec fn wf_at(self, path: Seq<u8>) -> bool
        decreases self,
    {
        &&& self.prefix@.wf()
        &&& self.prefix@.normalized()
        &&& self.prefix@.bits() == path
        &&& opt_wf(self.zero, path.push(0u8))
        &&& opt_wf(self.one, path.push(1u8))
    }

    spec fn node_leaves(self) -> Seq<PrefixView>
        decreases self,
    {
        if self.zero is None && self.one is None {
            seq![self.prefix@]
        } else {
            opt_leaves(self.zero) + opt_leaves(self.one)
        }
    }
}

/// Every path in the map of a subtree begins with the path of the subtree's root.
proof fn lemma_keys_below(node: Option<Box<PrefixNode>>, path: Seq<u8>)
    ensures
        forall|k: Seq<u8>| #[trigger] opt_map(node, path).contains_key(k) ==> is_prefix(path, k),
        node is Some ==> opt_map(node, path).contains_key(path) && opt_map(node, path)[path]
            == node.unwrap().prefix@,
    decreases node,
{
    match node {
        None => {},
        Some(n) => {
            lemma_keys_below(n.zero, path.push(0u8));
            lemma_keys_below(n.one, path.push(1u8));
            assert forall|k: Seq<u8>| #[trigger]
                opt_map(node, path).contains_key(k) implies is_prefix(path, k) by {
                if k != path {
                    let zm = opt_map(n.zero, path.push(0u8));
                    let om = opt_map(n.one, path.push(1u8));
                    assert(n.as_map(path) == zm.union_prefer_right(om).insert(path, n.prefix@));
                    assert(zm.contains_key(k) || om.contains_key(k));
                    let child = if zm.contains_key(k) {
                        path.push(0u8)
                    } else {
                        path.push(1u8)
                    };
                    assert(is_prefix(child, k));
                    assert(k.subrange(0, path.len() as int) == child.subrange(
                        0,
                        path.len() as int,
                    )) by {
                        assert(k.subrange(0, child.len() as int).subrange(0, path.len() as int)
                            == k.subrange(0, path.len() as int));
                    }
                    assert(child.subrange(0, path.len() as int) == path);
                } else {
                    assert(path.subrange(0, path.len() as int) == path);
                }
            }
        },
    }
}

/// No path begins with both one-bit extensions of the same path.
proof fn lemma_branches_apart(path: Seq<u8>, k: Seq<u8>)
    ensures
        !(is_prefix(path.push(0u8), k) && is_prefix(path.push(1u8), k)),
        is_prefix(path.push(0u8), k) || is_prefix(path.push(1u8), k) ==> k != path && is_prefix(
            path,
            k,
        ),
{
    let n = path.len() as int;
    if is_prefix(path.push(0u8), k) {
        assert(k.subrange(0, n + 1)[n] == 0);
        assert(k.subrange(0, n + 1).subrange(0, n) == k.subrange(0, n));
        assert(path.push(0u8).subrange(0, n) == path);
    }
    if is_prefix(path.push(1u8), k) {
        assert(k.subrange(0, n + 1)[n] == 1);
        assert(k.subrange(0, n + 1).subrange(0, n) == k.subrange(0, n));
        assert(path.push(1u8).subrange(0, n) == path);
    }
}

/// The chain of a prefix from one depth on is its node at that depth and the rest.
proof fn lemma_chain_step(p: PrefixView, depth: nat)
    requires
        p.wf(),
        depth <= p.len,
    ensures
        depth < p.len ==> chain_from(p, depth) == chain_from(p, depth + 1).insert(
            p.bits().subrange(0, depth as int),
            p.resized(depth),
        ),
        depth == p.len ==> chain_from(p, depth) == Map::<Seq<u8>, PrefixView>::empty().insert(
            p.bits(),
            p.resized(depth),
        ),
        forall|k: Seq<u8>| #[trigger]
            chain_from(p, depth + 1).contains_key(k) ==> depth < p.len && is_prefix(
                p.bits().subrange(0, depth as int + 1),
                k,
            ),
{
    let bits = p.bits();
    let path = bits.subrange(0, depth as int);
    assert(is_prefix(path, bits)) by {
        assert(bits.subrange(0, path.len() as int) == path);
    }
    if depth < p.len {
        let a = chain_from(p, depth);
        let b = chain_from(p, depth + 1).insert(path, p.resized(depth));
        assert forall|k: Seq<u8>| a.contains_key(k) <==> b.contains_key(k) by {
            if a.contains_key(k) && k.len() == depth {
                assert(k == path);
            }
        }
        assert(a =~= b);
    } else {
        let a = chain_from(p, depth);
        let b = Map::<Seq<u8>, PrefixView>::empty().insert(bits, p.resized(depth));
        assert(bits.subrange(0, bits.len() as int) == bits);
        assert forall|k: Seq<u8>| a.contains_key(k) <==> b.contains_key(k) by {
            if a.contains_key(k) {
                assert(k == bits.subrange(0, k.len() as int));
            }
        }
        assert(a =~= b);
    }
    assert forall|k: Seq<u8>| #[trigger] chain_from(p, depth + 1).contains_key(k) implies depth
        < p.len && is_prefix(bits.subrange(0, depth as int + 1), k) by {
        assert(k.subrange(0, depth as int + 1) == bits.subrange(0, k.len() as int).subrange(
            0,
            depth as int + 1,
        ));
        assert(bits.subrange(0, k.len() as int).subrange(0, depth as int + 1) == bits.subrange(
            0,
            depth as int + 1,
        ));
    }
}

/// Makes sure that the nodes of the prefix from `depth` on exist in the subtree at `node`.
fn insert_at(node: &mut Option<Box<PrefixNode>>, prefix: &Prefix, bits: &Vec<u8>, depth: usize)
    requires
        bits@ == prefix@.bits(),
        prefix@.wf(),
        depth <= bits.len(),
        opt_wf(*old(node), bits@.subrange(0, depth as int)),
    ensures
        *final(node) is Some,
        opt_wf(*final(node), bits@.subrange(0, depth as int)),
        opt_map(*final(node), bits@.subrange(0, depth as int)) == chain_from(
            prefix@,
            depth as nat,
        ).union_prefer_right(opt_map(*old(node), bits@.subrange(0, depth as int))),
    decreases bits.len() - depth,
{
    let ghost path = bits@.subrange(0, depth as int);
    let ghost old_map = opt_map(*old(node), path);
    let ghost p = prefix@;
    proof {
        lemma_chain_step(p, depth as nat);
        lemma_keys_below(*old(node), path);
        lemma_resized(p, depth as nat);
        assert(p.resized(depth as nat).bits() =~= path);
    }
    let mut boxed: Box<PrefixNode> = match node.take() {
        Some(b) => b,
        None => {
            let cut = prefix.with_prefix_len(depth as u8);
            Box::new(PrefixNode { prefix: cut.unwrap(), zero: None, one: None })
        },
    };
    let ghost before = *boxed;
    assert(before.wf_at(path));
    assert(*old(node) is Some ==> old_map == before.as_map(path));
    if depth < bits.len() {
        let ghost child = bits@.subrange(0, depth + 1);
        let bit: u8 = bits[depth];
        proof {
            lemma_bits_of_all_bits(p.network, p.len);
            assert(bit <= 1);
            assert(child =~= path.push(bit));
            lemma_keys_below(before.zero, path.push(0u8));
            lemma_keys_below(before.one, path.push(1u8));
        }
        if bit == 0 {
            insert_at(&mut boxed.zero, prefix, bits, depth + 1);
        } else {
            insert_at(&mut boxed.one, prefix, bits, depth + 1);
        }
        proof {
            let after = *boxed;
            let rest = chain_from(p, (depth + 1) as nat);
            let want = chain_from(p, depth as nat).union_prefer_right(old_map);
            let zm = opt_map(before.zero, path.push(0u8));
            let om = opt_map(before.one, path.push(1u8));
            assert(after.prefix == before.prefix);
            assert forall|k: Seq<u8>| rest.contains_key(k) implies is_prefix(child, k) by {}
            assert forall|k: Seq<u8>|
                !(rest.contains_key(k) && (if bit == 0 {
                    om.contains_key(k)
                } else {
                    zm.contains_key(k)
                })) by {
                lemma_branches_apart(path, k);
            }
            assert forall|k: Seq<u8>| rest.contains_key(k) implies k != path by {
                lemma_branches_apart(path, k);
            }
            assert(after.as_map(path) =~= want);
        }
    } else {
        proof {
            assert(bits@.subrange(0, depth as int) == bits@);
            assert(boxed.as_map(path) =~= chain_from(p, depth as nat).union_prefer_right(old_map));
        }
    }
    *node = Some(boxed);
}

/// Puts the prefixes of the leaves of the subtree at the end of `out`.
fn visit_node(node: &Option<Box<PrefixNode>>, out: &mut Vec<Prefix>)
    ensures
        prefix_views(final(out)@) == prefix_views(old(out)@) + opt_leaves(*node),
    decreases node,
{
    match node {
        None => {
            assert(prefix_views(out@) =~= prefix_views(out@) + opt_leaves(*node));
        },
        Some(n) => {
            if n.zero.is_none() && n.one.is_none() {
                out.push(n.prefix);
                assert(prefix_views(out@) =~= prefix_views(old(out)@) + opt_leaves(*node));
            } else {
                visit_node(&n.zero, out);
                visit_node(&n.one, out);
                assert(prefix_views(out@) =~= prefix_views(old(out)@) + opt_leaves(*node));
            }
        },
    }
}

/// The leaves of a well-formed subtree are the leaves of any map that agrees with the map of
/// the subtree on the paths below its root.
proof fn lemma_leaves(node: Option<Box<PrefixNode>>, path: Seq<u8>, m: Map<Seq<u8>, PrefixView>)
    requires
        opt_wf(node, path),
        path.len() <= 129,
        forall|k: Seq<u8>|
            is_prefix(path, k) ==> (m.contains_key(k) <==> #[trigger] opt_map(
                node,
                path,
            ).contains_key(k)),
        forall|k: Seq<u8>| #[trigger]
            opt_map(node, path).contains_key(k) ==> m[k] == opt_map(node, path)[k],
    ensures
        leaves_from(m, path) == opt_leaves(node),
    decreases node,
{
    lemma_keys_below(node, path);
    assert(is_prefix(path, path)) by {
        assert(path.subrange(0, path.len() as int) == path);
    }
    match node {
        None => {
            assert(!opt_map(node, path).contains_key(path));
        },
        Some(n) => {
            let zp = path.push(0u8);
            let op = path.push(1u8);
            let zm = opt_map(n.zero, zp);
            let om = opt_map(n.one, op);
            let whole = n.as_map(path);
            assert(whole == zm.union_prefer_right(om).insert(path, n.prefix@));
            lemma_keys_below(n.zero, zp);
            lemma_keys_below(n.one, op);
            assert(n.prefix@.bits().len() == path.len());
            assert(path.len() <= 128);
            assert forall|k: Seq<u8>| is_prefix(zp, k) implies (m.contains_key(k)
                <==> #[trigger] zm.contains_key(k)) by {
                lemma_branches_apart(path, k);
                assert(whole.contains_key(k) <==> zm.contains_key(k));
            }
            assert forall|k: Seq<u8>| is_prefix(op, k) implies (m.contains_key(k)
                <==> #[trigger] om.contains_key(k)) by {
                lemma_branches_apart(path, k);
                assert(whole.contains_key(k) <==> om.contains_key(k));
            }
            assert forall|k: Seq<u8>| #[trigger] zm.contains_key(k) implies m[k] == zm[k] by {
                lemma_branches_apart(path, k);
                assert(whole.contains_key(k));
            }
            assert forall|k: Seq<u8>| #[trigger] om.contains_key(k) implies m[k] == om[k] by {
                lemma_branches_apart(path, k);
                assert(whole.contains_key(k));
            }
            lemma_leaves(n.zero, zp, m);
            lemma_leaves(n.one, op, m);
            assert(is_prefix(zp, zp)) by {
                assert(zp.subrange(0, zp.len() as int) == zp);
            }
            assert(is_prefix(op, op)) by {
                assert(op.subrange(0, op.len() as int) == op);
            }
            assert(zm.contains_key(zp) <==> n.zero is Some);
            assert(om.contains_key(op) <==> n.one is Some);
            assert(m.contains_key(zp) <==> zm.contains_key(zp));
            assert(m.contains_key(op) <==> om.contains_key(op));
            assert(m.contains_key(path));
            assert(m[path] == n.prefix@);
        },
    }
}

/// Every leaf of a well-formed subtree carries a prefix with zeros after its last bit.
proof fn lemma_leaves_normalized(node: Option<Box<PrefixNode>>, path: Seq<u8>)
    requires
        opt_wf(node, path),
    ensures
        forall|i: int|
            0 <= i < opt_leaves(node).len() ==> (#[trigger] opt_leaves(node)[i]).normalized(),
    decreases node,
{
    match node {
        None => {},
        Some(n) => {
            lemma_leaves_normalized(n.zero, path.push(0u8));
            lemma_leaves_normalized(n.one, path.push(1u8));
            let a = opt_leaves(n.zero);
            let b = opt_leaves(n.one);
            assert forall|i: int| 0 <= i < opt_leaves(node).len() implies (#[trigger] opt_leaves(
                node,
            )[i]).normalized() by {
                if n.zero is None && n.one is None {
                } else if i < a.len() {
                    assert(opt_leaves(node)[i] == a[i]);
                } else {
                    assert(opt_leaves(node)[i] == b[i - a.len()]);
                }
            }
        },
    }
}

/// In the map of a well-formed subtree every path spells the prefix that stands at it.
proof fn lemma_map_spells(node: Option<Box<PrefixNode>>, path: Seq<u8>)
    requires
        opt_wf(node, path),
    ensures
        forall|k: Seq<u8>| #[trigger]
            opt_map(node, path).contains_key(k) ==> opt_map(node, path)[k].bits() == k,
    decreases node,
{
    match node {
        None => {},
        Some(n) => {
            let zm = opt_map(n.zero, path.push(0u8));
            let om = opt_map(n.one, path.push(1u8));
            lemma_map_spells(n.zero, path.push(0u8));
            lemma_map_spells(n.one, path.push(1u8));
            assert(n.as_map(path) == zm.union_prefer_right(om).insert(path, n.prefix@));
            assert forall|k: Seq<u8>| #[trigger] opt_map(node, path).contains_key(k) implies opt_map(
                node,
                path,
            )[k].bits() == k by {
                if k != path {
                    assert(zm.contains_key(k) || om.contains_key(k));
                }
            }
        },
    }
}

impl View for PrefixTree {
    type V = Map<Seq<u8>, PrefixView>;

    closed spec fn view(&self) -> Map<Seq<u8>, PrefixView> {
        opt_map(self.0, Seq::empty())
    }
}

impl PrefixTree {
    #[verifier::type_invariant]
    closed spec fn wf(&self) -> bool {
        opt_wf(self.0, Seq::empty())
    }

    /// The tree without a node.
    pub fn new() -> (tree: Self)
        ensures
            tree@ == Map::<Seq<u8>, PrefixView>::empty(),
    {
        PrefixTree(None)
    }

    /// Makes sure that the tree has a node for each leading part of the bits of the prefix,
    /// the empty part at the root included. A node that is missing is made with the prefix
    /// cut down to that part; a node that is there is left as it is.
    pub fn insert(&mut self, prefix: Prefix)
        ensures
            final(self)@ == inserted(old(self)@, prefix@),
    {
        proof {
            use_type_invariant(&*self);
            use_type_invariant(&prefix);
        }
        let bits = prefix.get_bits();
        let mut root: Option<Box<PrefixNode>> = None;
        std::mem::swap(&mut root, &mut self.0);
        assert(bits@.subrange(0, 0) =~= Seq::<u8>::empty());
        insert_at(&mut root, &prefix, &bits, 0);
        self.0 = root;
    }

    /// The prefixes of the leaves of the tree, those below a zero branch before those below
    /// the one branch beside it. Every one of them has zeros after its last bit, and none
    /// comes twice.
    pub fn visit_leaf(&self) -> (found: Vec<Prefix>)
        ensures
            prefix_views(found@) == leaves(self@),
            forall|i: int| 0 <= i < found.len() ==> (#[trigger] found@[i])@.normalized(),
            prefix_views(found@).no_duplicates(),
    {
        proof {
            use_type_invariant(self);
        }
        let mut found: Vec<Prefix> = Vec::new();
        visit_node(&self.0, &mut found);
        proof {
            lemma_leaves(self.0, Seq::empty(), self@);
            lemma_leaves_normalized(self.0, Seq::empty());
            lemma_map_spells(self.0, Seq::empty());
            lemma_leaves_from_distinct(self@, Seq::empty());
            assert(prefix_views(Seq::<Prefix>::empty()) + opt_leaves(self.0) =~= opt_leaves(self.0));
            assert forall|i: int| 0 <= i < found.len() implies (#[trigger] found@[i])@.normalized() by {
                assert(prefix_views(found@)[i] == found@[i]@);
            }
        }
        found
    }
}

/// The map of the tree that comes of inserting the prefixes in order into an empty tree.
pub open spec fn built(ps: Seq<PrefixView>) -> Map<Seq<u8>, PrefixView>
    decreases ps.len(),
{
    if ps.len() == 0 {
        Map::empty()
    } else {
        inserted(built(ps.drop_last()), ps.last())
    }
}

/// Whether all the prefixes are well formed and of one family.
pub open spec fn one_family(ps: Seq<PrefixView>) -> bool {
    &&& forall|i: int| 0 <= i < ps.len() ==> (#[trigger] ps[i]).wf()
    &&& forall|i: int, j: int|
        0 <= i < ps.len() && 0 <= j < ps.len() ==> (#[trigger] ps[i]).network.len() == (
        #[trigger] ps[j]).network.len()
}

/// Whether `q` is at least as specific as `p` on the branch of `p`: both are of one family
/// and the bits of `p` are the first bits of `q`.
pub open spec fn more_specific(q: PrefixView, p: PrefixView) -> bool {
    q.network.len() == p.network.len() && is_prefix(p.bits(), q.bits())
}

/// An empty tree has no leaf.
pub proof fn law_empty_tree_has_no_leaf()
    ensures
        leaves(Map::<Seq<u8>, PrefixView>::empty()) == Seq::<PrefixView>::empty(),
{
}

/// Two prefixes of one family that share their first `d` bits are the same prefix when cut
/// down to `d` bits.
pub proof fn lemma_resized_agree(p: PrefixView, q: PrefixView, d: nat)
    requires
        p.wf(),
        q.wf(),
        p.network.len() == q.network.len(),
        d <= p.len,
        d <= q.len,
        p.bits().subrange(0, d as int) == q.bits().subrange(0, d as int),
    ensures
        p.resized(d) == q.resized(d),
{
    let a = p.resized(d).network;
    let b = q.resized(d).network;
    assert forall|i: int| 0 <= i < 8 * a.len() implies bit_at(a, i) == bit_at(b, i) by {
        lemma_masked_bit(p.network, d, i);
        lemma_masked_bit(q.network, d, i);
        if i < d {
            assert(p.bits().subrange(0, d as int)[i] == p.bits()[i]);
            assert(q.bits().subrange(0, d as int)[i] == q.bits()[i]);
        }
    }
    lemma_octets_by_bits(a, b);
}

/// Below the node at depth `depth` on its own branch, the chain of a prefix has one leaf: the
/// prefix itself, normalized.
proof fn lemma_chain_leaves(p: PrefixView, depth: nat)
    requires
        p.wf(),
        depth <= p.len,
    ensures
        leaves_from(chain(p), p.bits().subrange(0, depth as int)) == seq![p.resized(p.len)],
    decreases p.len - depth,
{
    let bits = p.bits();
    let path = bits.subrange(0, depth as int);
    let m = chain(p);
    assert(is_prefix(path, bits)) by {
        assert(bits.subrange(0, path.len() as int) == path);
    }
    assert(m.contains_key(path));
    if depth == p.len {
        assert(path == bits);
        assert(!m.contains_key(path.push(0u8)));
        assert(!m.contains_key(path.push(1u8)));
    } else {
        lemma_bits_of_all_bits(p.network, p.len);
        let bit = bits[depth as int];
        assert(bit <= 1);
        let next = bits.subrange(0, depth as int + 1);
        assert(next == path.push(bit));
        assert(is_prefix(next, bits)) by {
            assert(bits.subrange(0, next.len() as int) == next);
        }
        let other = path.push((1 - bit) as u8);
        assert(!m.contains_key(other)) by {
            if is_prefix(other, bits) {
                assert(bits.subrange(0, other.len() as int)[depth as int] == bits[depth as int]);
            }
        }
        lemma_chain_leaves(p, depth + 1);
        if bit == 0 {
            assert(leaves_from(m, path) == leaves_from(m, path.push(0u8)) + leaves_from(
                m,
                path.push(1u8),
            ));
            assert(leaves_from(m, path.push(1u8)) == Seq::<PrefixView>::empty());
        } else {
            assert(leaves_from(m, path) == leaves_from(m, path.push(0u8)) + leaves_from(
                m,
                path.push(1u8),
            ));
            assert(leaves_from(m, path.push(0u8)) == Seq::<PrefixView>::empty());
        }
    }
}

/// After a single insert the tree has one leaf: the prefix as it is when its host bits are
/// zero, and its normalized form in general.
pub proof fn law_single_insert(p: PrefixView)
    requires
        p.wf(),
    ensures
        leaves(inserted(Map::empty(), p)) == seq![p.resized(p.len)],
        p.normalized() ==> leaves(inserted(Map::empty(), p)) == seq![p],
{
    assert(inserted(Map::empty(), p) =~= chain(p));
    lemma_chain_leaves(p, 0);
    assert(p.bits().subrange(0, 0) =~= Seq::<u8>::empty());
    if p.normalized() {
        law_resized_to_own_length(p);
    }
}

/// The chain of a prefix lies within the chain of any prefix that is more specific.
proof fn lemma_chain_within(p: PrefixView, q: PrefixView)
    requires
        p.wf(),
        q.wf(),
        more_specific(q, p),
    ensures
        chain(p).union_prefer_right(chain(q)) == chain(q),
        chain(q).union_prefer_right(chain(p)) == chain(q),
{
    let pb = p.bits();
    let qb = q.bits();
    assert forall|k: Seq<u8>| #[trigger] chain(p).contains_key(k) implies chain(q).contains_key(k)
        && chain(p)[k] == chain(q)[k] by {
        assert(qb.subrange(0, k.len() as int) == qb.subrange(0, pb.len() as int).subrange(
            0,
            k.len() as int,
        ));
        lemma_resized_agree(p, q, k.len());
    }
    let u = chain(p).union_prefer_right(chain(q));
    let v = chain(q).union_prefer_right(chain(p));
    assert forall|k: Seq<u8>| u.contains_key(k) <==> chain(q).contains_key(k) by {
        if chain(p).contains_key(k) {
            assert(chain(q).contains_key(k));
        }
    }
    assert forall|k: Seq<u8>| v.contains_key(k) <==> chain(q).contains_key(k) by {
        if chain(p).contains_key(k) {
            assert(chain(q).contains_key(k));
        }
    }
    assert forall|k: Seq<u8>| chain(q).contains_key(k) implies u[k] == chain(q)[k] && v[k]
        == chain(q)[k] by {
        if chain(p).contains_key(k) {
            assert(chain(p)[k] == chain(q)[k]);
        }
    }
    assert(u =~= chain(q));
    assert(v =~= chain(q));
}

/// A more specific prefix on the branch of another shadows it: whichever of the two is
/// inserted first, the only leaf is the more specific one.
pub proof fn law_more_specific_shadows(p: PrefixView, q: PrefixView)
    requires
        p.wf(),
        q.wf(),
        more_specific(q, p),
    ensures
        leaves(inserted(inserted(Map::empty(), p), q)) == seq![q.resized(q.len)],
        leaves(inserted(inserted(Map::empty(), q), p)) == seq![q.resized(q.len)],
        q.normalized() ==> leaves(inserted(inserted(Map::empty(), p), q)) == seq![q],
{
    lemma_chain_within(p, q);
    assert(inserted(Map::empty(), p) =~= chain(p));
    assert(inserted(Map::empty(), q) =~= chain(q));
    law_single_insert(q);
}

/// Inserting a prefix that is already there changes nothing.
pub proof fn law_insert_idempotent(m: Map<Seq<u8>, PrefixView>, p: PrefixView)
    ensures
        inserted(inserted(m, p), p) == inserted(m, p),
{
    assert(inserted(inserted(m, p), p) =~= inserted(m, p));
}

/// What a tree holds once prefixes of one family were inserted: a node for each leading part
/// of the bits of each of them, carrying that prefix cut down to the part.
proof fn lemma_built(ps: Seq<PrefixView>)
    requires
        one_family(ps),
    ensures
        forall|k: Seq<u8>|
            built(ps).contains_key(k) <==> exists|i: int|
                0 <= i < ps.len() && is_prefix(k, #[trigger] ps[i].bits()),
        forall|k: Seq<u8>, i: int|
            0 <= i < ps.len() && is_prefix(k, #[trigger] ps[i].bits()) ==> #[trigger] built(ps)[k]
                == ps[i].resized(k.len()),
    decreases ps.len(),
{
    if ps.len() > 0 {
        let front = ps.drop_last();
        let last = ps.last();
        assert(one_family(front)) by {
            assert forall|i: int| 0 <= i < front.len() implies (#[trigger] front[i]).wf() by {
                assert(front[i] == ps[i]);
            }
            assert forall|i: int, j: int| 0 <= i < front.len() && 0 <= j < front.len() implies (
            #[trigger] front[i]).network.len() == (#[trigger] front[j]).network.len() by {
                assert(front[i] == ps[i] && front[j] == ps[j]);
            }
        }
        lemma_built(front);
        let m = built(ps);
        assert(m == chain(last).union_prefer_right(built(front)));
        assert forall|k: Seq<u8>| m.contains_key(k) <==> exists|i: int|
            0 <= i < ps.len() && is_prefix(k, #[trigger] ps[i].bits()) by {
            if m.contains_key(k) {
                if built(front).contains_key(k) {
                    let i = choose|i: int|
                        0 <= i < front.len() && is_prefix(k, #[trigger] front[i].bits());
                    assert(front[i] == ps[i]);
                    assert(is_prefix(k, ps[i].bits()));
                } else {
                    assert(is_prefix(k, ps[ps.len() - 1].bits()));
                }
            }
            if exists|i: int| 0 <= i < ps.len() && is_prefix(k, #[trigger] ps[i].bits()) {
                let i = choose|i: int| 0 <= i < ps.len() && is_prefix(k, #[trigger] ps[i].bits());
                if i < front.len() {
                    assert(front[i] == ps[i]);
                    assert(is_prefix(k, front[i].bits()));
                }
            }
        }
        assert forall|k: Seq<u8>, i: int|
            0 <= i < ps.len() && is_prefix(k, #[trigger] ps[i].bits()) implies #[trigger] m[k]
            == ps[i].resized(k.len()) by {
            if built(front).contains_key(k) {
                let j = choose|j: int|
                    0 <= j < front.len() && is_prefix(k, #[trigger] front[j].bits());
                assert(front[j] == ps[j]);
                assert(built(front)[k] == front[j].resized(k.len()));
                assert(ps[j].network.len() == ps[i].network.len());
                assert(ps[j].wf() && ps[i].wf());
                assert(ps[i].bits().subrange(0, k.len() as int) == ps[j].bits().subrange(
                    0,
                    k.len() as int,
                ));
                lemma_resized_agree(ps[j], ps[i], k.len());
            } else {
                if i < front.len() {
                    assert(front[i] == ps[i]);
                    assert(is_prefix(k, front[i].bits()));
                } else {
                    assert(m[k] == last.resized(k.len()));
                }
            }
        }
    }
}

/// The order of insertion does not matter: prefixes of one family, inserted in any order,
/// make the same tree, and so the same leaves.
pub proof fn law_insertion_order(a: Seq<PrefixView>, b: Seq<PrefixView>)
    requires
        one_family(a),
        a.to_multiset() == b.to_multiset(),
    ensures
        built(a) == built(b),
        leaves(built(a)) == leaves(built(b)),
{
    a.to_multiset_ensures();
    b.to_multiset_ensures();
    assert forall|x: PrefixView| a.contains(x) <==> b.contains(x) by {
        assert(a.contains(x) <==> a.to_multiset().count(x) > 0);
        assert(b.contains(x) <==> b.to_multiset().count(x) > 0);
    }
    assert(one_family(b)) by {
        assert forall|i: int| 0 <= i < b.len() implies (#[trigger] b[i]).wf() by {
            assert(b.contains(b[i]));
            let j = choose|j: int| 0 <= j < a.len() && a[j] == b[i];
            assert(a[j].wf());
        }
        assert forall|i: int, j: int| 0 <= i < b.len() && 0 <= j < b.len() implies (
        #[trigger] b[i]).network.len() == (#[trigger] b[j]).network.len() by {
            assert(b.contains(b[i]) && b.contains(b[j]));
            let x = choose|x: int| 0 <= x < a.len() && a[x] == b[i];
            let y = choose|y: int| 0 <= y < a.len() && a[y] == b[j];
            assert(a[x].network.len() == a[y].network.len());
        }
    }
    lemma_built(a);
    lemma_built(b);
    assert forall|k: Seq<u8>| #[trigger] built(a).contains_key(k) implies built(b).contains_key(k)
        && built(a)[k] == built(b)[k] by {
        let i = choose|i: int| 0 <= i < a.len() && is_prefix(k, #[trigger] a[i].bits());
        assert(a.contains(a[i]));
        let j = choose|j: int| 0 <= j < b.len() && b[j] == a[i];
        assert(is_prefix(k, b[j].bits()));
        assert(built(a)[k] == a[i].resized(k.len()));
        assert(built(b)[k] == b[j].resized(k.len()));
    }
    assert forall|k: Seq<u8>| #[trigger] built(b).contains_key(k) implies built(a).contains_key(
        k,
    ) by {
        let j = choose|j: int| 0 <= j < b.len() && is_prefix(k, #[trigger] b[j].bits());
        assert(b.contains(b[j]));
        let i = choose|i: int| 0 <= i < a.len() && a[i] == b[j];
        assert(is_prefix(k, a[i].bits()));
    }
    assert(built(a) =~= built(b));
}

/// The path to every node spells the prefix of the node: in a tree of prefixes of one family
/// each node carries the prefix whose bits are the bits from the root down to the node, with
/// zeros after them.
pub proof fn law_paths_spell_prefixes(ps: Seq<PrefixView>)
    requires
        one_family(ps),
    ensures
        forall|k: Seq<u8>| #[trigger]
            built(ps).contains_key(k) ==> built(ps)[k].bits() == k && built(ps)[k].normalized()
                && built(ps)[k].wf(),
{
    lemma_built(ps);
    assert forall|k: Seq<u8>| #[trigger] built(ps).contains_key(k) implies built(ps)[k].bits() == k
        && built(ps)[k].normalized() && built(ps)[k].wf() by {
        let i = choose|i: int| 0 <= i < ps.len() && is_prefix(k, #[trigger] ps[i].bits());
        assert(ps[i].wf());
        assert(built(ps)[k] == ps[i].resized(k.len()));
        lemma_resized(ps[i], k.len());
        assert(ps[i].resized(k.len()).bits() =~= k) by {
            assert forall|j: int| 0 <= j < k.len() implies ps[i].resized(k.len()).bits()[j]
                == k[j] by {
                assert(ps[i].bits().subrange(0, k.len() as int)[j] == ps[i].bits()[j]);
            }
        }
    }
}

/// Whether the node at `k` is a leaf of the tree with the map `m`.
pub open spec fn is_leaf(m: Map<Seq<u8>, PrefixView>, k: Seq<u8>) -> bool {
    m.contains_key(k) && !m.contains_key(k.push(0u8)) && !m.contains_key(k.push(1u8))
}

/// Whether the map has the shape of a tree over bits: every path is a row of at most 128
/// bits, and with a path the map holds the path without its last bit.
pub open spec fn tree_shaped(m: Map<Seq<u8>, PrefixView>) -> bool {
    forall|k: Seq<u8>| #[trigger]
        m.contains_key(k) ==> k.len() <= 128 && all_bits(k) && (k.len() > 0 ==> m.contains_key(
            k.drop_last(),
        ))
}

/// Whether another of the prefixes is more specific than the prefix at place `i` on its
/// branch: longer, and with the bits of that prefix as its first bits.
pub open spec fn shadowed(ps: Seq<PrefixView>, i: int) -> bool {
    exists|j: int|
        0 <= j < ps.len() && (#[trigger] ps[j]).len > ps[i].len && is_prefix(
            ps[i].bits(),
            ps[j].bits(),
        )
}

/// A tree-shaped map holds every leading part of each of its paths.
proof fn lemma_holds_leading_parts(m: Map<Seq<u8>, PrefixView>, k: Seq<u8>, path: Seq<u8>)
    requires
        tree_shaped(m),
        m.contains_key(k),
        is_prefix(path, k),
    ensures
        m.contains_key(path),
    decreases k.len(),
{
    if k.len() > path.len() {
        let shorter = k.drop_last();
        assert(is_prefix(path, shorter)) by {
            assert(shorter.subrange(0, path.len() as int) =~= k.subrange(0, path.len() as int));
        }
        lemma_holds_leading_parts(m, shorter, path);
    } else {
        assert(k.subrange(0, path.len() as int) == k);
    }
}

/// A path that goes on beyond `path` goes on through one of its two branches.
proof fn lemma_goes_through_a_branch(path: Seq<u8>, k: Seq<u8>)
    requires
        is_prefix(path, k),
        k.len() > path.len(),
        all_bits(k),
    ensures
        is_prefix(path.push(0u8), k) || is_prefix(path.push(1u8), k),
{
    let n = path.len() as int;
    let b = k[n];
    assert(b <= 1);
    assert(k.subrange(0, n + 1) =~= k.subrange(0, n).push(b));
}

/// The leaves below a path in a tree-shaped map are the prefixes of the leaf nodes whose
/// paths begin with that path.
proof fn lemma_leaves_from_members(m: Map<Seq<u8>, PrefixView>, path: Seq<u8>, q: PrefixView)
    requires
        tree_shaped(m),
    ensures
        leaves_from(m, path).contains(q) <==> exists|k: Seq<u8>|
            is_prefix(path, k) && #[trigger] is_leaf(m, k) && m[k] == q,
    decreases 129 - path.len(),
{
    let found = exists|k: Seq<u8>| is_prefix(path, k) && #[trigger] is_leaf(m, k) && m[k] == q;
    assert(is_prefix(path, path)) by {
        assert(path.subrange(0, path.len() as int) == path);
    }
    if !m.contains_key(path) || path.len() > 128 {
        if found {
            let k = choose|k: Seq<u8>| is_prefix(path, k) && #[trigger] is_leaf(m, k) && m[k] == q;
            lemma_holds_leading_parts(m, k, path);
        }
    } else if is_leaf(m, path) {
        assert(leaves_from(m, path) == seq![m[path]]);
        assert(seq![m[path]][0] == m[path]);
        if found {
            let k = choose|k: Seq<u8>| is_prefix(path, k) && #[trigger] is_leaf(m, k) && m[k] == q;
            if k.len() > path.len() {
                lemma_goes_through_a_branch(path, k);
                if is_prefix(path.push(0u8), k) {
                    lemma_holds_leading_parts(m, k, path.push(0u8));
                } else {
                    lemma_holds_leading_parts(m, k, path.push(1u8));
                }
            } else {
                assert(k.subrange(0, path.len() as int) == k);
            }
        }
    } else {
        let zero = leaves_from(m, path.push(0u8));
        let one = leaves_from(m, path.push(1u8));
        lemma_leaves_from_members(m, path.push(0u8), q);
        lemma_leaves_from_members(m, path.push(1u8), q);
        assert(leaves_from(m, path) == zero + one);
        if (zero + one).contains(q) {
            let i = choose|i: int| 0 <= i < (zero + one).len() && (zero + one)[i] == q;
            if i < zero.len() {
                assert(zero[i] == q);
                let k = choose|k: Seq<u8>|
                    is_prefix(path.push(0u8), k) && #[trigger] is_leaf(m, k) && m[k] == q;
                lemma_branches_apart(path, k);
            } else {
                assert(one[i - zero.len()] == q);
                let k = choose|k: Seq<u8>|
                    is_prefix(path.push(1u8), k) && #[trigger] is_leaf(m, k) && m[k] == q;
                lemma_branches_apart(path, k);
            }
        }
        if found {
            let k = choose|k: Seq<u8>| is_prefix(path, k) && #[trigger] is_leaf(m, k) && m[k] == q;
            if k.len() == path.len() {
                assert(k.subrange(0, path.len() as int) == k);
            }
            lemma_goes_through_a_branch(path, k);
            if is_prefix(path.push(0u8), k) {
                let i = choose|i: int| 0 <= i < zero.len() && zero[i] == q;
                assert((zero + one)[i] == q);
            } else {
                let i = choose|i: int| 0 <= i < one.len() && one[i] == q;
                assert((zero + one)[zero.len() + i] == q);
            }
        }
    }
}

/// The map of a tree of prefixes of one family is tree-shaped.
proof fn lemma_built_is_tree_shaped(ps: Seq<PrefixView>)
    requires
        one_family(ps),
    ensures
        tree_shaped(built(ps)),
{
    lemma_built(ps);
    let m = built(ps);
    assert forall|k: Seq<u8>| #[trigger] m.contains_key(k) implies k.len() <= 128 && all_bits(k)
        && (k.len() > 0 ==> m.contains_key(k.drop_last())) by {
        let i = choose|i: int| 0 <= i < ps.len() && is_prefix(k, #[trigger] ps[i].bits());
        assert(ps[i].wf());
        lemma_bits_of_all_bits(ps[i].network, ps[i].len);
        assert forall|j: int| 0 <= j < k.len() implies #[trigger] k[j] <= 1 by {
            assert(ps[i].bits().subrange(0, k.len() as int)[j] == ps[i].bits()[j]);
        }
        if k.len() > 0 {
            let shorter = k.drop_last();
            assert(is_prefix(shorter, ps[i].bits())) by {
                assert(ps[i].bits().subrange(0, shorter.len() as int) =~= k.subrange(
                    0,
                    shorter.len() as int,
                ));
            }
        }
    }
}

/// The leaves are the most specific prefixes: a prefix is the prefix of a leaf where it is
/// the normalized form of one that no other shadows, and nowhere else.
pub proof fn law_leaves_are_most_specific(ps: Seq<PrefixView>, q: PrefixView)
    requires
        one_family(ps),
    ensures
        leaves(built(ps)).contains(q) <==> exists|i: int|
            0 <= i < ps.len() && !shadowed(ps, i) && q == (#[trigger] ps[i]).resized(ps[i].len),
{
    let m = built(ps);
    lemma_built(ps);
    lemma_built_is_tree_shaped(ps);
    lemma_leaves_from_members(m, Seq::empty(), q);
    let by_leaf = exists|k: Seq<u8>|
        is_prefix(Seq::<u8>::empty(), k) && #[trigger] is_leaf(m, k) && m[k] == q;
    let by_prefix = exists|i: int|
        0 <= i < ps.len() && !shadowed(ps, i) && q == (#[trigger] ps[i]).resized(ps[i].len);
    if by_leaf {
        let k = choose|k: Seq<u8>|
            is_prefix(Seq::<u8>::empty(), k) && #[trigger] is_leaf(m, k) && m[k] == q;
        let i = choose|i: int| 0 <= i < ps.len() && is_prefix(k, #[trigger] ps[i].bits());
        let bits = ps[i].bits();
        assert(ps[i].wf());
        lemma_bits_of_all_bits(ps[i].network, ps[i].len);
        // The leaf is the whole of the prefix: a longer prefix would go on below the leaf.
        if k.len() < bits.len() {
            lemma_goes_through_a_branch(k, bits);
            assert(false);
        }
        assert(bits.subrange(0, k.len() as int) == bits);
        assert(k == bits);
        assert(!shadowed(ps, i)) by {
            if shadowed(ps, i) {
                let j = choose|j: int|
                    0 <= j < ps.len() && (#[trigger] ps[j]).len > ps[i].len && is_prefix(
                        ps[i].bits(),
                        ps[j].bits(),
                    );
                assert(ps[j].wf());
                lemma_bits_of_all_bits(ps[j].network, ps[j].len);
                lemma_goes_through_a_branch(k, ps[j].bits());
            }
        }
        assert(m[k] == ps[i].resized(k.len()));
    }
    if by_prefix {
        let i = choose|i: int|
            0 <= i < ps.len() && !shadowed(ps, i) && q == (#[trigger] ps[i]).resized(ps[i].len);
        let k = ps[i].bits();
        assert(is_prefix(k, ps[i].bits())) by {
            assert(k.subrange(0, k.len() as int) == k);
        }
        assert(is_prefix(Seq::<u8>::empty(), k)) by {
            assert(k.subrange(0, 0) =~= Seq::<u8>::empty());
        }
        assert(m.contains_key(k));
        assert(m[k] == ps[i].resized(k.len()));
        assert forall|b: u8| b <= 1 implies !m.contains_key(#[trigger] k.push(b)) by {
            if m.contains_key(k.push(b)) {
                let j = choose|j: int|
                    0 <= j < ps.len() && is_prefix(k.push(b), #[trigger] ps[j].bits());
                assert(is_prefix(k, ps[j].bits())) by {
                    assert(ps[j].bits().subrange(0, k.len() as int) =~= ps[j].bits().subrange(
                        0,
                        k.len() as int + 1,
                    ).subrange(0, k.len() as int));
                    assert(k.push(b).subrange(0, k.len() as int) =~= k);
                }
                assert(ps[j].len > ps[i].len);
            }
        }
        assert(!m.contains_key(k.push(0u8)));
        assert(!m.contains_key(k.push(1u8)));
        assert(is_leaf(m, k));
    }
}


/// What `law_leaves_are_distinct` rests on: below a path, the leaves of a map whose paths
/// spell their prefixes carry prefixes that begin with the path, each of them once.
proof fn lemma_leaves_from_distinct(m: Map<Seq<u8>, PrefixView>, path: Seq<u8>)
    requires
        forall|k: Seq<u8>| #[trigger] m.contains_key(k) ==> m[k].bits() == k,
    ensures
        leaves_from(m, path).no_duplicates(),
        forall|i: int|
            0 <= i < leaves_from(m, path).len() ==> is_prefix(
                path,
                (#[trigger] leaves_from(m, path)[i]).bits(),
            ),
    decreases 129 - path.len(),
{
    let all = leaves_from(m, path);
    if !m.contains_key(path) || path.len() > 128 {
    } else if !m.contains_key(path.push(0u8)) && !m.contains_key(path.push(1u8)) {
        assert(all == seq![m[path]]);
        assert(path.subrange(0, path.len() as int) == path);
    } else {
        let zero = leaves_from(m, path.push(0u8));
        let one = leaves_from(m, path.push(1u8));
        lemma_leaves_from_distinct(m, path.push(0u8));
        lemma_leaves_from_distinct(m, path.push(1u8));
        assert(all == zero + one);
        assert forall|i: int| 0 <= i < all.len() implies is_prefix(
            path,
            (#[trigger] all[i]).bits(),
        ) by {
            if i < zero.len() {
                assert(all[i] == zero[i]);
            } else {
                assert(all[i] == one[i - zero.len()]);
            }
            lemma_branches_apart(path, all[i].bits());
        }
        assert forall|i: int, j: int| 0 <= i < all.len() && 0 <= j < all.len() && i != j implies all[i]
            != all[j] by {
            if i < zero.len() && j < zero.len() {
                assert(all[i] == zero[i] && all[j] == zero[j]);
            } else if i >= zero.len() && j >= zero.len() {
                assert(all[i] == one[i - zero.len()] && all[j] == one[j - zero.len()]);
            } else if i < zero.len() {
                assert(all[i] == zero[i] && all[j] == one[j - zero.len()]);
                lemma_branches_apart(path, all[i].bits());
            } else {
                assert(all[i] == one[i - zero.len()] && all[j] == zero[j]);
                lemma_branches_apart(path, all[i].bits());
            }
        }
    }
}

/// No leaf is reported twice: the prefixes of the leaves of a tree of prefixes of one family
/// differ from one another.
pub proof fn law_leaves_are_distinct(ps: Seq<PrefixView>)
    requires
        one_family(ps),
    ensures
        leaves(built(ps)).no_duplicates(),
{
    law_paths_spell_prefixes(ps);
    lemma_leaves_from_distinct(built(ps), Seq::empty());
}

} // verus!
