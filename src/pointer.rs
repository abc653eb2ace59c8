//! An octree of boxed nodes: each internal node owns its eight children.
use crate::folder::{seq_sum, CountFolder, Folder};
use crate::morton::{digit, is_valid_key, lemma_prefix_step, pow8, prefix, Morton};
use crate::cache::RegionCache;
use crate::random::{fresh_rng, random_digit};
use crate::region::{child_region, MortonRegion};
use rand::rngs::SmallRng;
use vstd::prelude::*;

verus! {

/// Eight children, indexed by an octant digit.
pub struct Oct<T> {
    pub children: [T; 8],
}

impl<T> Oct<T> {
    pub fn new(children: [T; 8]) -> (r: Self)
        ensures
            r.children == children,
    {
        Oct { children }
    }
}

/// A slot of a pointer octree.
pub enum Internal<T, M> {
    /// An internal node, its children indexed by the digit of the next level.
    Node(Box<Oct<Internal<T, M>>>),
    /// One occupant at the finest resolution, with its full key.
    Leaf(T, M),
    /// An unoccupied slot.
    Empty,
}

/// What a lookup of `key` finds in `node` of depth `level`, following the key's digits.
pub open spec fn lookup<T, M: Morton>(node: Internal<T, M>, key: M, level: nat) -> Option<T>
    decreases M::spec_dim_bits() - level,
{
    match node {
        Internal::Node(b) => {
            if level < M::spec_dim_bits() {
                lookup(
                    b.children[digit(key.value(), M::spec_dim_bits(), level) as int],
                    key,
                    level + 1,
                )
            } else {
                Option::None
            }
        },
        Internal::Leaf(t, m) => {
            if m == key {
                Option::Some(t)
            } else {
                Option::None
            }
        },
        Internal::Empty => Option::None,
    }
}

/// `node` stands at depth `level` on the path `path`: every node is above the finest level
/// and every leaf holds a valid key on that path.
pub open spec fn wf_node<T, M: Morton>(node: Internal<T, M>, level: nat, path: nat) -> bool
    decreases M::spec_dim_bits() - level,
{
    &&& level <= M::spec_dim_bits()
    &&& match node {
        Internal::Node(b) => {
            &&& level < M::spec_dim_bits()
            &&& forall|i: int|
                0 <= i < 8 ==> wf_node(#[trigger] b.children[i], level + 1, path * 8 + i as nat)
        },
        Internal::Leaf(t, m) => {
            &&& is_valid_key(m)
            &&& prefix(m.value(), M::spec_dim_bits(), level) == path
        },
        Internal::Empty => true,
    }
}

/// `map` as a partial function.
pub open spec fn map_get<K, V>(map: Map<K, V>, k: K) -> Option<V> {
    if map.contains_key(k) {
        Option::Some(map[k])
    } else {
        Option::None
    }
}

impl<T, M: Morton> Internal<T, M> {
    /// A `Node` with 8 empty children.
    pub fn empty_node() -> (r: Self)
        ensures
            r matches Internal::Node(b) && forall|i: int|
                0 <= i < 8 ==> #[trigger] b.children[i] matches Internal::Empty,
    {
        Internal::Node(
            Box::new(
                Oct::new(
                    [
                        Internal::Empty,
                        Internal::Empty,
                        Internal::Empty,
                        Internal::Empty,
                        Internal::Empty,
                        Internal::Empty,
                        Internal::Empty,
                        Internal::Empty,
                    ],
                ),
            ),
        )
    }
}

/// Builds the subtree at depth `level` that holds two distinct leaves on the same path: nodes
/// down to the first level where their digits differ.
fn split<T, M: Morton>(
    t: T,
    m: M,
    item: T,
    morton: M,
    level: usize,
    Ghost(path): Ghost<nat>,
) -> (r: Internal<T, M>)
    requires
        m != morton,
        is_valid_key(m),
        is_valid_key(morton),
        level <= M::spec_dim_bits(),
        prefix(m.value(), M::spec_dim_bits(), level as nat) == path,
        prefix(morton.value(), M::spec_dim_bits(), level as nat) == path,
    ensures
        wf_node(r, level as nat, path),
        r matches Internal::Node(_),
        forall|k: M| #[trigger]
            lookup(r, k, level as nat) == if k == morton {
                Option::Some(item)
            } else if k == m {
                Option::Some(t)
            } else {
                Option::None
            },
    decreases M::spec_dim_bits() - level,
{
    let ghost dim = M::spec_dim_bits();
    proof {
        M::lemma_model(m, morton);
    }
    assert(level < dim) by {
        if level == dim {
            assert(pow8(0) == 1) by {
                vstd::arithmetic::power2::lemma2_to64();
            }
            assert(m.value() / 1 == m.value() && morton.value() / 1 == morton.value());
        }
    }
    proof {
        lemma_prefix_step(m.value(), dim, level as nat);
        lemma_prefix_step(morton.value(), dim, level as nat);
    }
    let a = morton.get_level(level);
    let b = m.get_level(level);
    let mut children = [
        Internal::Empty,
        Internal::Empty,
        Internal::Empty,
        Internal::Empty,
        Internal::Empty,
        Internal::Empty,
        Internal::Empty,
        Internal::Empty,
    ];
    if a == b {
        children[a] = split(t, m, item, morton, level + 1, Ghost(path * 8 + a as nat));
    } else {
        children[a] = Internal::Leaf(item, morton);
        children[b] = Internal::Leaf(t, m);
    }
    let node = Internal::Node(Box::new(Oct::new(children)));
    proof {
        let kids = node->Node_0.children;
        assert(kids == children);
        assert forall|i: nat| i < 8 implies #[trigger] wf_node(
            kids[i as int],
            level as nat + 1,
            path * 8 + i,
        ) by {}
        reveal_with_fuel(wf_node, 2);
        assert(wf_node(node, level as nat, path));
        assert forall|k: M| #[trigger]
            lookup(node, k, level as nat) == if k == morton {
                Option::Some(item)
            } else if k == m {
                Option::Some(t)
            } else {
                Option::None
            } by {
            let dk = digit(k.value(), dim, level as nat);
            assert(k == morton ==> dk == a);
            assert(k == m ==> dk == b);
            assert(lookup(node, k, level as nat) == lookup(children[dk as int], k, level as nat + 1));
        }
    }
    node
}


/// Inserts `item` under `morton` into the subtree `node` at depth `level`, and says whether the
/// key was new there.
fn insert_node<T, M: Morton>(
    node: Internal<T, M>,
    morton: M,
    item: T,
    level: usize,
    Ghost(path): Ghost<nat>,
) -> (r: (Internal<T, M>, bool))
    requires
        wf_node(node, level as nat, path),
        is_valid_key(morton),
        prefix(morton.value(), M::spec_dim_bits(), level as nat) == path,
    ensures
        wf_node(r.0, level as nat, path),
        r.1 == (lookup(node, morton, level as nat) is None),
        forall|k: M| #[trigger]
            lookup(r.0, k, level as nat) == if k == morton {
                Option::Some(item)
            } else {
                lookup(node, k, level as nat)
            },
    decreases M::spec_dim_bits() - level,
{
    let ghost dim = M::spec_dim_bits();
    match node {
        Internal::Empty => (Internal::Leaf(item, morton), true),
        Internal::Leaf(t, m) => {
            if m.same(morton) {
                (Internal::Leaf(item, m), false)
            } else {
                (split(t, m, item, morton, level, Ghost(path)), true)
            }
        },
        Internal::Node(b) => {
            let ghost old_kids = b.children;
            let mut oct = *b;
            proof {
                reveal_with_fuel(wf_node, 2);
                M::lemma_model(morton, morton);
                lemma_prefix_step(morton.value(), dim, level as nat);
            }
            let d = morton.get_level(level);
            let mut child = Internal::Empty;
            std::mem::swap(&mut child, &mut oct.children[d]);
            assert(wf_node(child, level as nat + 1, path * 8 + d as nat)) by {
                reveal_with_fuel(wf_node, 2);
            }
            let (new_child, added) = insert_node(
                child,
                morton,
                item,
                level + 1,
                Ghost(path * 8 + d as nat),
            );
            oct.children[d] = new_child;
            let ghost kids = oct.children;
            let r = Internal::Node(Box::new(oct));
            proof {
                assert(kids@ == old_kids@.update(d as int, new_child));
                assert forall|i: nat| i < 8 implies #[trigger] wf_node(
                    kids[i as int],
                    level as nat + 1,
                    path * 8 + i,
                ) by {
                    if i != d {
                        reveal_with_fuel(wf_node, 2);
                        assert(wf_node(old_kids[i as int], level as nat + 1, path * 8 + i));
                    }
                }
                reveal_with_fuel(wf_node, 2);
                assert forall|k: M| #[trigger]
                    lookup(r, k, level as nat) == if k == morton {
                        Option::Some(item)
                    } else {
                        lookup(node, k, level as nat)
                    } by {
                    let dk = digit(k.value(), dim, level as nat);
                    assert(lookup(r, k, level as nat) == lookup(kids[dk as int], k, level as nat + 1));
                    assert(lookup(node, k, level as nat) == lookup(
                        old_kids[dk as int],
                        k,
                        level as nat + 1,
                    ));
                    if k == morton {
                        assert(dk == d);
                    }
                }
            }
            (r, added)
        },
    }
}

/// Removes the leaf of `morton` from the subtree `node` at depth `level`, if it is there; the
/// nodes on its path stay.
fn remove_node<T, M: Morton>(
    node: Internal<T, M>,
    morton: M,
    level: usize,
    Ghost(path): Ghost<nat>,
) -> (r: (Internal<T, M>, Option<T>))
    requires
        wf_node(node, level as nat, path),
    ensures
        wf_node(r.0, level as nat, path),
        r.1 == lookup(node, morton, level as nat),
        forall|k: M| #[trigger]
            lookup(r.0, k, level as nat) == if k == morton {
                Option::None
            } else {
                lookup(node, k, level as nat)
            },
    decreases M::spec_dim_bits() - level,
{
    let ghost dim = M::spec_dim_bits();
    match node {
        Internal::Empty => (Internal::Empty, None),
        Internal::Leaf(t, m) => {
            if m.same(morton) {
                (Internal::Empty, Some(t))
            } else {
                (Internal::Leaf(t, m), None)
            }
        },
        Internal::Node(b) => {
            let ghost old_kids = b.children;
            let mut oct = *b;
            proof {
                reveal_with_fuel(wf_node, 2);
                M::lemma_model(morton, morton);
            }
            let d = morton.get_level(level);
            let mut child = Internal::Empty;
            std::mem::swap(&mut child, &mut oct.children[d]);
            assert(wf_node(child, level as nat + 1, path * 8 + d as nat)) by {
                reveal_with_fuel(wf_node, 2);
            }
            let (new_child, removed) = remove_node(
                child,
                morton,
                level + 1,
                Ghost(path * 8 + d as nat),
            );
            oct.children[d] = new_child;
            let ghost kids = oct.children;
            let r = Internal::Node(Box::new(oct));
            proof {
                assert(kids@ == old_kids@.update(d as int, new_child));
                assert forall|i: nat| i < 8 implies #[trigger] wf_node(
                    kids[i as int],
                    level as nat + 1,
                    path * 8 + i,
                ) by {
                    if i != d {
                        reveal_with_fuel(wf_node, 2);
                        assert(wf_node(old_kids[i as int], level as nat + 1, path * 8 + i));
                    }
                }
                reveal_with_fuel(wf_node, 2);
                assert forall|k: M| #[trigger]
                    lookup(r, k, level as nat) == if k == morton {
                        Option::None
                    } else {
                        lookup(node, k, level as nat)
                    } by {
                    let dk = digit(k.value(), dim, level as nat);
                    assert(lookup(r, k, level as nat) == lookup(kids[dk as int], k, level as nat + 1));
                    assert(lookup(node, k, level as nat) == lookup(
                        old_kids[dk as int],
                        k,
                        level as nat + 1,
                    ));
                }
            }
            (r, removed)
        },
    }
}


/// The leaves of `node` at depth `level` in depth-first order, children in index order.
pub open spec fn entries<T, M: Morton>(node: Internal<T, M>, level: nat) -> Seq<(M, T)>
    decreases M::spec_dim_bits() + 1 - level, 0nat,
{
    match node {
        Internal::Node(b) => {
            if level < M::spec_dim_bits() {
                entries_from(b.children, level + 1, 0)
            } else {
                Seq::empty()
            }
        },
        Internal::Leaf(t, m) => seq![(m, t)],
        Internal::Empty => Seq::empty(),
    }
}

/// The leaves of the children `i..8`, each at depth `level`, in depth-first order.
pub open spec fn entries_from<T, M: Morton>(children: [Internal<T, M>; 8], level: nat, i: nat) -> Seq<
    (M, T),
>
    decreases M::spec_dim_bits() + 1 - level, 9 - i,
{
    if i < 8 && level <= M::spec_dim_bits() {
        entries(children[i as int], level) + entries_from(children, level, i + 1)
    } else {
        Seq::empty()
    }
}

/// The pairs of a traversal, with the references followed.
pub open spec fn deref_pairs<'a, T, M>(s: Seq<(M, &'a T)>) -> Seq<(M, T)> {
    s.map_values(|e: (M, &'a T)| (e.0, *e.1))
}

pub(crate) proof fn lemma_digit_of_child_path(v: nat, dim: nat, level: nat, path: nat, c: nat)
    requires
        level < dim,
        c < 8,
        prefix(v, dim, level + 1) == path * 8 + c,
    ensures
        digit(v, dim, level) == c,
        prefix(v, dim, level) == path,
{
    lemma_prefix_step(v, dim, level);
}

/// The depth-first leaves of a well-formed subtree are what its lookups find, with distinct
/// keys on its path.
proof fn lemma_entries<T, M: Morton>(node: Internal<T, M>, level: nat, path: nat)
    requires
        wf_node(node, level, path),
    ensures
        forall|j: int|
            0 <= j < entries(node, level).len() ==> {
                &&& lookup(node, #[trigger] entries(node, level)[j].0, level) == Option::Some(
                    entries(node, level)[j].1,
                )
                &&& prefix(entries(node, level)[j].0.value(), M::spec_dim_bits(), level) == path
            },
        forall|j1: int, j2: int|
            0 <= j1 < entries(node, level).len() && 0 <= j2 < entries(node, level).len() && j1
                != j2 ==> #[trigger] entries(node, level)[j1].0 != #[trigger] entries(
                node,
                level,
            )[j2].0,
        forall|k: M| #[trigger]
            lookup(node, k, level) is Some ==> prefix(k.value(), M::spec_dim_bits(), level) == path
                && exists|j: int| 0 <= j < entries(node, level).len() && entries(node, level)[j].0 == k,
    decreases M::spec_dim_bits() + 1 - level, 0nat,
{
    reveal_with_fuel(wf_node, 2);
    match node {
        Internal::Node(b) => {
            lemma_entries_from(b.children, level + 1, path, 0);
            let e = entries(node, level);
            assert(e == entries_from(b.children, level + 1, 0));
            assert forall|j: int| 0 <= j < e.len() implies {
                &&& lookup(node, #[trigger] e[j].0, level) == Option::Some(e[j].1)
                &&& prefix(e[j].0.value(), M::spec_dim_bits(), level) == path
            } by {
                let k = e[j].0;
                let c = digit(k.value(), M::spec_dim_bits(), level);
                assert(lookup(node, k, level) == lookup(b.children[c as int], k, level + 1));
            }
            assert forall|k: M| #[trigger] lookup(node, k, level) is Some implies prefix(
                k.value(),
                M::spec_dim_bits(),
                level,
            ) == path && exists|j: int| 0 <= j < e.len() && e[j].0 == k by {
                let c = digit(k.value(), M::spec_dim_bits(), level);
                let child = b.children[c as int];
                assert(lookup(node, k, level) == lookup(child, k, level + 1));
                assert(wf_node(child, level + 1, path * 8 + c));
                lemma_entries(child, level + 1, path * 8 + c);
                lemma_prefix_step(k.value(), M::spec_dim_bits(), level);
            }
        },
        Internal::Leaf(t, m) => {
            let e = entries(node, level);
            assert(e[0].0 == m);
            assert forall|k: M| #[trigger] lookup(node, k, level) is Some implies prefix(
                k.value(),
                M::spec_dim_bits(),
                level,
            ) == path && exists|j: int| 0 <= j < e.len() && e[j].0 == k by {
                assert(e[0].0 == k);
            }
        },
        Internal::Empty => {},
    }
}

/// `lemma_entries` for the children `i..8` of a node whose children stand at depth `level`.
proof fn lemma_entries_from<T, M: Morton>(
    children: [Internal<T, M>; 8],
    level: nat,
    path: nat,
    i: nat,
)
    requires
        1 <= level <= M::spec_dim_bits(),
        forall|c: int| 0 <= c < 8 ==> wf_node(#[trigger] children[c], level, path * 8 + c as nat),
    ensures
        forall|j: int|
            0 <= j < entries_from(children, level, i).len() ==> {
                let k = #[trigger] entries_from(children, level, i)[j].0;
                let c = digit(k.value(), M::spec_dim_bits(), (level - 1) as nat);
                &&& i <= c < 8
                &&& prefix(k.value(), M::spec_dim_bits(), (level - 1) as nat) == path
                &&& lookup(children[c as int], k, level) == Option::Some(
                    entries_from(children, level, i)[j].1,
                )
            },
        forall|j1: int, j2: int|
            0 <= j1 < entries_from(children, level, i).len() && 0 <= j2 < entries_from(
                children,
                level,
                i,
            ).len() && j1 != j2 ==> #[trigger] entries_from(children, level, i)[j1].0
                != #[trigger] entries_from(children, level, i)[j2].0,
        forall|k: M|
            #![trigger lookup(children[digit(k.value(), M::spec_dim_bits(), (level - 1) as nat) as int], k, level)]
            i <= digit(k.value(), M::spec_dim_bits(), (level - 1) as nat) && lookup(
                children[digit(k.value(), M::spec_dim_bits(), (level - 1) as nat) as int],
                k,
                level,
            ) is Some ==> exists|j: int|
                0 <= j < entries_from(children, level, i).len() && entries_from(children, level, i)[j].0
                    == k,
    decreases M::spec_dim_bits() + 1 - level, 9 - i,
{
    let dim = M::spec_dim_bits();
    let f = entries_from(children, level, i);
    if i < 8 {
        let a = entries(children[i as int], level);
        let rest = entries_from(children, level, i + 1);
        assert(f == a + rest);
        assert(wf_node(children[i as int], level, path * 8 + i));
        lemma_entries(children[i as int], level, path * 8 + i);
        lemma_entries_from(children, level, path, i + 1);
        assert forall|j: int| 0 <= j < a.len() implies {
            let k = #[trigger] a[j].0;
            &&& digit(k.value(), dim, (level - 1) as nat) == i
            &&& prefix(k.value(), dim, (level - 1) as nat) == path
        } by {
            lemma_digit_of_child_path(a[j].0.value(), dim, (level - 1) as nat, path, i);
        }
        assert forall|j: int| 0 <= j < f.len() implies {
            let k = #[trigger] f[j].0;
            let c = digit(k.value(), dim, (level - 1) as nat);
            &&& i <= c < 8
            &&& prefix(k.value(), dim, (level - 1) as nat) == path
            &&& lookup(children[c as int], k, level) == Option::Some(f[j].1)
        } by {
            if j < a.len() {
                assert(f[j] == a[j]);
                assert(a[j].0 == f[j].0);
            } else {
                assert(f[j] == rest[j - a.len()]);
            }
        }
        assert forall|j1: int, j2: int|
            0 <= j1 < f.len() && 0 <= j2 < f.len() && j1 != j2 implies #[trigger] f[j1].0
            != #[trigger] f[j2].0 by {
            if j1 < a.len() && j2 >= a.len() {
                assert(f[j1] == a[j1]);
                assert(f[j2] == rest[j2 - a.len()]);
                assert(a[j1].0 == f[j1].0);
            } else if j2 < a.len() && j1 >= a.len() {
                assert(f[j2] == a[j2]);
                assert(f[j1] == rest[j1 - a.len()]);
                assert(a[j2].0 == f[j2].0);
            } else if j1 < a.len() {
                assert(f[j1] == a[j1] && f[j2] == a[j2]);
            } else {
                assert(f[j1] == rest[j1 - a.len()] && f[j2] == rest[j2 - a.len()]);
            }
        }
        assert forall|k: M|
            #![trigger lookup(children[digit(k.value(), dim, (level - 1) as nat) as int], k, level)]
            i <= digit(k.value(), dim, (level - 1) as nat) && lookup(
                children[digit(k.value(), dim, (level - 1) as nat) as int],
                k,
                level,
            ) is Some implies exists|j: int| 0 <= j < f.len() && f[j].0 == k by {
            let c = digit(k.value(), dim, (level - 1) as nat);
            if c == i {
                assert(lookup(children[i as int], k, level) is Some);
                let j = choose|j: int| 0 <= j < a.len() && a[j].0 == k;
                assert(f[j] == a[j]);
            } else {
                let j = choose|j: int| 0 <= j < rest.len() && rest[j].0 == k;
                assert(f[j + a.len()] == rest[j]);
            }
        }
    }
}

/// A key on a greater path of one level is the greater key.
proof fn lemma_prefix_order(a: nat, b: nat, dim: nat, level: nat)
    requires
        level <= dim,
        prefix(a, dim, level) < prefix(b, dim, level),
    ensures
        a < b,
{
    vstd::arithmetic::power2::lemma_pow2_pos(3 * (dim - level) as nat);
    if a >= b {
        vstd::arithmetic::div_mod::lemma_div_is_ordered(
            b as int,
            a as int,
            pow8((dim - level) as nat) as int,
        );
    }
}

/// The depth-first leaves of a well-formed subtree come in increasing key order.
proof fn lemma_entries_sorted<T, M: Morton>(node: Internal<T, M>, level: nat, path: nat)
    requires
        wf_node(node, level, path),
    ensures
        forall|j1: int, j2: int|
            0 <= j1 < j2 < entries(node, level).len() ==> (#[trigger] entries(node, level)[j1]).0.value()
                < (#[trigger] entries(node, level)[j2]).0.value(),
    decreases M::spec_dim_bits() + 1 - level, 0nat,
{
    reveal_with_fuel(wf_node, 2);
    match node {
        Internal::Node(b) => {
            assert forall|c: int| 0 <= c < 8 implies wf_node(
                #[trigger] b.children[c],
                level + 1,
                path * 8 + c as nat,
            ) by {}
            lemma_entries_from_sorted(b.children, level + 1, path, 0);
            assert(entries(node, level) == entries_from(b.children, level + 1, 0));
        },
        _ => {},
    }
}

proof fn lemma_entries_from_sorted<T, M: Morton>(
    children: [Internal<T, M>; 8],
    level: nat,
    path: nat,
    i: nat,
)
    requires
        1 <= level <= M::spec_dim_bits(),
        forall|c: int| 0 <= c < 8 ==> wf_node(#[trigger] children[c], level, path * 8 + c as nat),
    ensures
        forall|j1: int, j2: int|
            0 <= j1 < j2 < entries_from(children, level, i).len() ==> (#[trigger] entries_from(
                children,
                level,
                i,
            )[j1]).0.value() < (#[trigger] entries_from(children, level, i)[j2]).0.value(),
    decreases M::spec_dim_bits() + 1 - level, 9 - i,
{
    let dim = M::spec_dim_bits();
    if i < 8 {
        let a = entries(children[i as int], level);
        let rest = entries_from(children, level, i + 1);
        let f = entries_from(children, level, i);
        assert(f == a + rest);
        assert(wf_node(children[i as int], level, path * 8 + i));
        lemma_entries(children[i as int], level, path * 8 + i);
        lemma_entries_sorted(children[i as int], level, path * 8 + i);
        lemma_entries_from(children, level, path, i + 1);
        lemma_entries_from_sorted(children, level, path, i + 1);
        assert forall|j1: int, j2: int| 0 <= j1 < j2 < f.len() implies (#[trigger] f[j1]).0.value()
            < (#[trigger] f[j2]).0.value() by {
            if j2 < a.len() {
                assert(f[j1] == a[j1] && f[j2] == a[j2]);
            } else if j1 >= a.len() {
                assert(f[j1] == rest[j1 - a.len()] && f[j2] == rest[j2 - a.len()]);
            } else {
                assert(f[j1] == a[j1] && f[j2] == rest[j2 - a.len()]);
                let x = a[j1].0.value();
                let y = rest[j2 - a.len()].0.value();
                let c = digit(y, dim, (level - 1) as nat);
                assert(rest[j2 - a.len()].0.value() == y);
                lemma_prefix_step(y, dim, (level - 1) as nat);
                assert(prefix(y, dim, level) == path * 8 + c);
                assert(prefix(x, dim, level) == path * 8 + i);
                lemma_prefix_order(x, y, dim, level);
            }
        }
    }
}

/// Appends the leaves of `node`, at depth `level`, to `out` in depth-first order.
fn collect_entries<'a, T, M: Morton>(
    node: &'a Internal<T, M>,
    level: usize,
    out: &mut Vec<(M, &'a T)>,
)
    requires
        level <= M::spec_dim_bits(),
    ensures
        deref_pairs(final(out)@) == deref_pairs(old(out)@) + entries(*node, level as nat),
    decreases M::spec_dim_bits() + 1 - level, 0nat,
{
    let ghost base = deref_pairs(out@);
    match node {
        Internal::Node(b) => {
            if level < M::dim_bits() {
                collect_children(&b.children, level + 1, 0, out);
            } else {
                assert(deref_pairs(out@) =~= base + entries(*node, level as nat));
            }
        },
        Internal::Leaf(t, m) => {
            out.push((*m, t));
            assert(deref_pairs(out@) =~= base + entries(*node, level as nat));
        },
        Internal::Empty => {
            assert(deref_pairs(out@) =~= base + entries(*node, level as nat));
        },
    }
}

/// Appends the leaves of the children `i..8`, at depth `level`, to `out` in depth-first order.
fn collect_children<'a, T, M: Morton>(
    children: &'a [Internal<T, M>; 8],
    level: usize,
    i: usize,
    out: &mut Vec<(M, &'a T)>,
)
    requires
        level <= M::spec_dim_bits(),
        i <= 8,
    ensures
        deref_pairs(final(out)@) == deref_pairs(old(out)@) + entries_from(
            *children,
            level as nat,
            i as nat,
        ),
    decreases M::spec_dim_bits() + 1 - level, 9 - i,
{
    let ghost base = deref_pairs(out@);
    if i < 8 {
        collect_entries(&children[i], level, out);
        let ghost mid = deref_pairs(out@);
        collect_children(children, level, i + 1, out);
        assert(deref_pairs(out@) =~= base + entries_from(*children, level as nat, i as nat));
    } else {
        assert(deref_pairs(out@) =~= base + entries_from(*children, level as nat, i as nat));
    }
}

/// The summary of `node` at depth `level`: a leaf is gathered, a node folds the summaries of its
/// non-empty children, and a subtree without leaves has none.
pub open spec fn fold_sum<T, M: Morton, F: Folder<T, M>>(
    f: F,
    node: Internal<T, M>,
    level: nat,
) -> Option<F::Sum>
    decreases M::spec_dim_bits() + 1 - level, 0nat,
{
    match node {
        Internal::Node(b) => {
            if level < M::spec_dim_bits() {
                let s = kid_sums(f, b.children, level + 1, 0);
                if s.len() > 0 {
                    Option::Some(f.spec_fold(s))
                } else {
                    Option::None
                }
            } else {
                Option::None
            }
        },
        Internal::Leaf(t, m) => Option::Some(f.spec_gather(m, t)),
        Internal::Empty => Option::None,
    }
}

/// The summaries of the non-empty children `i..8`, each at depth `level`, in index order.
pub open spec fn kid_sums<T, M: Morton, F: Folder<T, M>>(
    f: F,
    children: [Internal<T, M>; 8],
    level: nat,
    i: nat,
) -> Seq<F::Sum>
    decreases M::spec_dim_bits() + 1 - level, 9 - i,
{
    if i < 8 && level <= M::spec_dim_bits() {
        match fold_sum(f, children[i as int], level) {
            Option::Some(s) => seq![s] + kid_sums(f, children, level, i + 1),
            Option::None => kid_sums(f, children, level, i + 1),
        }
    } else {
        Seq::empty()
    }
}

/// The non-empty children `i..8` of the node of `region`, each with its summary, in index order.
pub open spec fn kid_pairs<T, M: Morton, F: Folder<T, M>>(
    f: F,
    children: [Internal<T, M>; 8],
    region: (nat, nat),
    i: nat,
) -> Seq<((nat, nat), F::Sum)>
    decreases 9 - i,
{
    if i < 8 && region.1 < M::spec_dim_bits() {
        match fold_sum(f, children[i as int], region.1 + 1) {
            Option::Some(s) => seq![(child_region(region, i, M::spec_dim_bits()), s)] + kid_pairs(
                f,
                children,
                region,
                i + 1,
            ),
            Option::None => kid_pairs(f, children, region, i + 1),
        }
    } else {
        Seq::empty()
    }
}

/// The regions strictly below `region`, holding `node`, with their summaries: those of each child
/// in turn, then the children themselves.
pub open spec fn fold_list<T, M: Morton, F: Folder<T, M>>(
    f: F,
    node: Internal<T, M>,
    region: (nat, nat),
) -> Seq<((nat, nat), F::Sum)>
    decreases M::spec_dim_bits() + 1 - region.1, 0nat,
{
    match node {
        Internal::Node(b) => {
            if region.1 < M::spec_dim_bits() {
                list_from(f, b.children, region, 0) + kid_pairs(f, b.children, region, 0)
            } else {
                Seq::empty()
            }
        },
        _ => Seq::empty(),
    }
}

/// `fold_list` of the children `i..8` of the node of `region`, in index order.
pub open spec fn list_from<T, M: Morton, F: Folder<T, M>>(
    f: F,
    children: [Internal<T, M>; 8],
    region: (nat, nat),
    i: nat,
) -> Seq<((nat, nat), F::Sum)>
    decreases M::spec_dim_bits() + 1 - (region.1 + 1), 9 - i,
{
    if i < 8 && region.1 < M::spec_dim_bits() {
        fold_list(f, children[i as int], child_region(region, i, M::spec_dim_bits())) + list_from(
            f,
            children,
            region,
            i + 1,
        )
    } else {
        Seq::empty()
    }
}

/// Region-keyed pairs as plain values.
pub open spec fn region_pairs<M: Morton, S>(s: Seq<(MortonRegion<M>, S)>) -> Seq<((nat, nat), S)> {
    s.map_values(|e: (MortonRegion<M>, S)| (e.0@, e.1))
}

proof fn lemma_kids_match<T, M: Morton, F: Folder<T, M>>(
    f: F,
    children: [Internal<T, M>; 8],
    region: (nat, nat),
    i: nat,
)
    requires
        region.1 < M::spec_dim_bits(),
    ensures
        kid_pairs(f, children, region, i).map_values(|p: ((nat, nat), F::Sum)| p.1) == kid_sums(
            f,
            children,
            region.1 + 1,
            i,
        ),
        i <= 8 ==> kid_pairs(f, children, region, i).len() <= 8 - i,
    decreases 9 - i,
{
    if i < 8 {
        lemma_kids_match(f, children, region, i + 1);
        let a = kid_pairs(f, children, region, i);
        let b = kid_pairs(f, children, region, i + 1);
        match fold_sum(f, children[i as int], region.1 + 1) {
            Option::Some(s) => {
                assert(a.map_values(|p: ((nat, nat), F::Sum)| p.1) =~= seq![s] + b.map_values(
                    |p: ((nat, nat), F::Sum)| p.1,
                ));
            },
            Option::None => {},
        }
    } else {
        assert(kid_pairs(f, children, region, i).map_values(|p: ((nat, nat), F::Sum)| p.1)
            =~= Seq::<F::Sum>::empty());
    }
}

/// Appends the regions strictly below `region` with their summaries to `out`, and returns the
/// summary of `node` itself.
fn collect_node<T, M: Morton, F: Folder<T, M>>(
    node: &Internal<T, M>,
    region: MortonRegion<M>,
    folder: &F,
    out: &mut Vec<(MortonRegion<M>, F::Sum)>,
) -> (r: Option<F::Sum>)
    requires
        region.wf(),
        wf_node(*node, region.level as nat, region.path()),
    ensures
        r == fold_sum(*folder, *node, region.level as nat),
        region_pairs(final(out)@) == region_pairs(old(out)@) + fold_list(*folder, *node, region@),
    decreases M::spec_dim_bits() + 1 - region.level, 0nat,
{
    let ghost base = region_pairs(out@);
    match node {
        Internal::Node(b) => {
            let mut kid_regions: Vec<MortonRegion<M>> = Vec::new();
            let mut kid_sums_v: Vec<F::Sum> = Vec::new();
            proof {
                reveal_with_fuel(wf_node, 2);
                M::lemma_model(region.morton, region.morton);
            }
            collect_kids(&b.children, region, 0, folder, out, &mut kid_regions, &mut kid_sums_v);
            let ghost kids = kid_pairs(*folder, b.children, region@, 0);
            proof {
                lemma_kids_match(*folder, b.children, region@, 0);
                assert(kid_sums_v@ =~= kids.map_values(|p: ((nat, nat), F::Sum)| p.1));
                assert forall|x: int| 0 <= x < kid_sums_v.len() implies (#[trigger] kid_regions@[x])@
                    == kids[x].0 && kid_sums_v@[x] == kids[x].1 by {
                    assert(kid_regions@.map_values(|r: MortonRegion<M>| r@)[x] == kids.map_values(
                        |p: ((nat, nat), F::Sum)| p.0,
                    )[x]);
                    assert(kid_sums_v@[x] == kids.map_values(|p: ((nat, nat), F::Sum)| p.1)[x]);
                }
            }
            if kid_sums_v.len() == 0 {
                assert(region_pairs(out@) =~= base + fold_list(*folder, *node, region@));
                None
            } else {
                assert(kids.len() <= 8);
                assert(kid_sums_v@.len() == kids.len());
                let sl = kid_sums_v.as_slice();
                assert(sl@ == kid_sums_v@);
                let s = folder.fold(sl);
                let ghost mid = region_pairs(out@);
                let mut j: usize = 0;
                let n = kid_sums_v.len();
                while kid_sums_v.len() > 0
                    invariant
                        kids.len() == n,
                        j + kid_sums_v.len() == n,
                        kid_regions.len() == kid_sums_v.len(),
                        forall|x: int|
                            0 <= x < kid_sums_v.len() ==> (#[trigger] kid_regions@[x])@ == kids[j
                                + x].0 && kid_sums_v@[x] == kids[j + x].1,
                        region_pairs(out@) == mid + kids.subrange(0, j as int),
                    decreases kid_sums_v.len(),
                {
                    let ghost before = out@;
                    let r = kid_regions.remove(0);
                    let t = kid_sums_v.remove(0);
                    out.push((r, t));
                    proof {
                        assert(kids.subrange(0, j + 1) =~= kids.subrange(0, j as int).push(kids[j as int]));
                        assert(region_pairs(out@) =~= region_pairs(before).push((r@, t)));
                    }
                    j = j + 1;
                    proof {
                        assert forall|x: int| 0 <= x < kid_sums_v.len() implies (#[trigger] kid_regions@[x])@
                            == kids[j + x].0 && kid_sums_v@[x] == kids[j + x].1 by {
                        }
                    }
                }
                assert(kids.subrange(0, n as int) =~= kids);
                assert(region_pairs(out@) =~= base + fold_list(*folder, *node, region@));
                Some(s)
            }
        },
        Internal::Leaf(t, m) => Some(folder.gather(*m, t)),
        Internal::Empty => None,
    }
}

/// Runs `collect_node` on the children `i..8` of the node of `region`, appending the regions
/// below them to `out` and each non-empty child with its summary to `kid_regions` and `sums`.
fn collect_kids<T, M: Morton, F: Folder<T, M>>(
    children: &[Internal<T, M>; 8],
    region: MortonRegion<M>,
    i: usize,
    folder: &F,
    out: &mut Vec<(MortonRegion<M>, F::Sum)>,
    kid_regions: &mut Vec<MortonRegion<M>>,
    sums: &mut Vec<F::Sum>,
)
    requires
        region.wf(),
        region.level < M::spec_dim_bits(),
        i <= 8,
        forall|c: int|
            0 <= c < 8 ==> wf_node(
                #[trigger] children[c],
                region.level as nat + 1,
                region.path() * 8 + c as nat,
            ),
        old(kid_regions).len() == old(sums).len(),
    ensures
        region_pairs(final(out)@) == region_pairs(old(out)@) + list_from(
            *folder,
            *children,
            region@,
            i as nat,
        ),
        final(kid_regions).len() == final(sums).len(),
        final(kid_regions)@.map_values(|r: MortonRegion<M>| r@) == old(
            kid_regions,
        )@.map_values(|r: MortonRegion<M>| r@) + kid_pairs(*folder, *children, region@, i as nat).map_values(
            |p: ((nat, nat), F::Sum)| p.0,
        ),
        final(sums)@ == old(sums)@ + kid_pairs(*folder, *children, region@, i as nat).map_values(
            |p: ((nat, nat), F::Sum)| p.1,
        ),
    decreases M::spec_dim_bits() + 1 - (region.level + 1), 9 - i,
{
    let ghost out0 = region_pairs(out@);
    let ghost regs0 = kid_regions@.map_values(|r: MortonRegion<M>| r@);
    let ghost sums0 = sums@;
    if i < 8 {
        let cr = region.enter(i);
        let r = collect_node(&children[i], cr, folder, out);
        let ghost kp = kid_pairs(*folder, *children, region@, i as nat);
        let ghost rest = kid_pairs(*folder, *children, region@, i as nat + 1);
        match r {
            Some(s) => {
                kid_regions.push(cr);
                sums.push(s);
            },
            None => {},
        }
        let ghost regs1 = kid_regions@.map_values(|r: MortonRegion<M>| r@);
        let ghost sums1 = sums@;
        collect_kids(children, region, i + 1, folder, out, kid_regions, sums);
        proof {
            assert(region_pairs(out@) =~= out0 + list_from(*folder, *children, region@, i as nat));
            if r is Some {
                assert(regs1 =~= regs0.push(cr@));
                assert(kp.map_values(|p: ((nat, nat), F::Sum)| p.0) =~= seq![cr@] + rest.map_values(
                    |p: ((nat, nat), F::Sum)| p.0,
                ));
                assert(kp.map_values(|p: ((nat, nat), F::Sum)| p.1) =~= seq![r->Some_0]
                    + rest.map_values(|p: ((nat, nat), F::Sum)| p.1));
            } else {
                assert(regs1 =~= regs0);
            }
            assert(kid_regions@.map_values(|r: MortonRegion<M>| r@) =~= regs0
                + kp.map_values(|p: ((nat, nat), F::Sum)| p.0));
            assert(sums@ =~= sums0 + kp.map_values(|p: ((nat, nat), F::Sum)| p.1));
        }
    } else {
        proof {
            assert(region_pairs(out@) =~= out0 + list_from(*folder, *children, region@, i as nat));
            assert(kid_regions@.map_values(|r: MortonRegion<M>| r@) =~= regs0
                + kid_pairs(*folder, *children, region@, i as nat).map_values(
                |p: ((nat, nat), F::Sum)| p.0,
            ));
            assert(sums@ =~= sums0 + kid_pairs(*folder, *children, region@, i as nat).map_values(
                |p: ((nat, nat), F::Sum)| p.1,
            ));
        }
    }
}

proof fn lemma_seq_sum_prepend(s: usize, r: Seq<usize>)
    ensures
        seq_sum(seq![s] + r) == s + seq_sum(r),
    decreases r.len(),
{
    let q = seq![s] + r;
    if r.len() > 0 {
        assert(q.drop_last() =~= seq![s] + r.drop_last());
        assert(q.last() == r.last());
        lemma_seq_sum_prepend(s, r.drop_last());
    } else {
        assert(q.drop_last() =~= Seq::<usize>::empty());
        assert(q.last() == s);
        assert(seq_sum(Seq::<usize>::empty()) == 0);
    }
}

/// With the counting folder the summary of every subtree, so of every region that
/// `collect_fold` lists, is its number of leaves (none for a subtree without leaves).
pub proof fn lemma_count_node<T, M: Morton>(node: Internal<T, M>, level: nat)
    requires
        level <= M::spec_dim_bits(),
        entries(node, level).len() <= usize::MAX,
    ensures
        fold_sum(CountFolder, node, level) == if entries(node, level).len() > 0 {
            Option::Some(entries(node, level).len() as usize)
        } else {
            Option::None
        },
    decreases M::spec_dim_bits() + 1 - level, 0nat,
{
    match node {
        Internal::Node(b) => {
            if level < M::spec_dim_bits() {
                lemma_count_from(b.children, level + 1, 0);
            }
        },
        _ => {},
    }
}

/// With the counting folder the summaries of the non-empty children `i..8` add up to their
/// number of leaves.
pub proof fn lemma_count_from<T, M: Morton>(children: [Internal<T, M>; 8], level: nat, i: nat)
    requires
        level <= M::spec_dim_bits(),
        entries_from(children, level, i).len() <= usize::MAX,
    ensures
        seq_sum(kid_sums(CountFolder, children, level, i)) == entries_from(children, level, i).len(),
        kid_sums(CountFolder, children, level, i).len() > 0 <==> entries_from(children, level, i).len() > 0,
    decreases M::spec_dim_bits() + 1 - level, 9 - i,
{
    if i < 8 {
        lemma_count_node(children[i as int], level);
        lemma_count_from(children, level, i + 1);
        let rest = kid_sums(CountFolder, children, level, i + 1);
        match fold_sum(CountFolder, children[i as int], level) {
            Option::Some(s) => {
                lemma_seq_sum_prepend(s, rest);
            },
            Option::None => {},
        }
    }
}

/// The map after inserting `items` into `m` in order.
pub open spec fn insert_all<K, V>(m: Map<K, V>, items: Seq<(K, V)>) -> Map<K, V>
    decreases items.len(),
{
    if items.len() == 0 {
        m
    } else {
        insert_all(m, items.drop_last()).insert(items.last().0, items.last().1)
    }
}

/// Inserting keys one by one: with distinct keys into an empty map, there are as many entries as
/// insertions and each key holds its item.
pub proof fn lemma_insert_distinct<K, V>(items: Seq<(K, V)>)
    requires
        forall|i: int, j: int|
            0 <= i < items.len() && 0 <= j < items.len() && i != j ==> #[trigger] items[i].0
                != #[trigger] items[j].0,
    ensures
        insert_all(Map::<K, V>::empty(), items).dom().finite(),
        insert_all(Map::<K, V>::empty(), items).len() == items.len(),
        forall|i: int|
            0 <= i < items.len() ==> insert_all(Map::<K, V>::empty(), items).contains_key(
                #[trigger] items[i].0,
            ) && insert_all(Map::<K, V>::empty(), items)[items[i].0] == items[i].1,
    decreases items.len(),
{
    if items.len() > 0 {
        let init = items.drop_last();
        lemma_insert_distinct(init);
        let m = insert_all(Map::<K, V>::empty(), init);
        assert(!m.contains_key(items.last().0)) by {
            if m.contains_key(items.last().0) {
                lemma_insert_all_keys(Map::<K, V>::empty(), init, items.last().0);
                let j = choose|j: int| 0 <= j < init.len() && init[j].0 == items.last().0;
                assert(items[j].0 == items[items.len() - 1].0);
            }
        }
        assert forall|i: int| 0 <= i < items.len() implies insert_all(
            Map::<K, V>::empty(),
            items,
        ).contains_key(#[trigger] items[i].0) && insert_all(Map::<K, V>::empty(), items)[items[i].0]
            == items[i].1 by {
            if i < items.len() - 1 {
                assert(items[i] == init[i]);
            }
        }
    }
}

/// A key present after `insert_all` was present before or is one of the items.
pub proof fn lemma_insert_all_keys<K, V>(m: Map<K, V>, items: Seq<(K, V)>, k: K)
    requires
        insert_all(m, items).contains_key(k),
    ensures
        m.contains_key(k) || exists|j: int| 0 <= j < items.len() && items[j].0 == k,
    decreases items.len(),
{
    if items.len() > 0 && k != items.last().0 {
        lemma_insert_all_keys(m, items.drop_last(), k);
        if exists|j: int| 0 <= j < items.len() - 1 && items.drop_last()[j].0 == k {
            let j = choose|j: int| 0 <= j < items.len() - 1 && items.drop_last()[j].0 == k;
            assert(items[j].0 == k);
        }
    } else if items.len() > 0 {
        assert(items[items.len() - 1].0 == k);
    }
}

/// The keys after inserting `items` into an empty map are exactly the keys of the items.
pub proof fn lemma_insert_all_dom<K, V>(items: Seq<(K, V)>)
    ensures
        insert_all(Map::<K, V>::empty(), items).dom() == items.map_values(|p: (K, V)| p.0).to_set(),
    decreases items.len(),
{
    let keys = items.map_values(|p: (K, V)| p.0);
    if items.len() > 0 {
        let init = items.drop_last();
        lemma_insert_all_dom(init);
        assert(keys =~= init.map_values(|p: (K, V)| p.0).push(items.last().0));
        init.map_values(|p: (K, V)| p.0).lemma_push_to_set_commute(items.last().0);
        assert(insert_all(Map::<K, V>::empty(), items).dom() =~= keys.to_set());
    } else {
        assert(keys.to_set() =~= Set::<K>::empty());
        assert(insert_all(Map::<K, V>::empty(), items).dom() =~= Set::<K>::empty());
    }
}

/// Inserting a key twice leaves as many entries as inserting it once, and the second item wins.
pub proof fn lemma_insert_twice<K, V>(m: Map<K, V>, k: K, a: V, b: V)
    requires
        m.dom().finite(),
    ensures
        m.insert(k, a).insert(k, b) == m.insert(k, b),
        m.insert(k, a).insert(k, b).len() == m.insert(k, a).len(),
{
    assert(m.insert(k, a).insert(k, b) =~= m.insert(k, b));
}

/// Every key on `path` at `level` finds in `root` what it finds in `node`: `node` is the subtree
/// of `root` on that path.
pub open spec fn reaches<T, M: Morton>(
    root: Internal<T, M>,
    node: Internal<T, M>,
    level: nat,
    path: nat,
) -> bool {
    forall|k: M|
        prefix(k.value(), M::spec_dim_bits(), level) == path ==> #[trigger] lookup(root, k, 0)
            == lookup(node, k, level)
}

proof fn lemma_reaches_child<T, M: Morton>(
    root: Internal<T, M>,
    node: Internal<T, M>,
    level: nat,
    path: nat,
    i: nat,
)
    requires
        wf_node(node, level, path),
        reaches(root, node, level, path),
        node is Node,
        i < 8,
    ensures
        level < M::spec_dim_bits(),
        wf_node(node->Node_0.children[i as int], level + 1, path * 8 + i),
        reaches(root, node->Node_0.children[i as int], level + 1, path * 8 + i),
{
    reveal_with_fuel(wf_node, 2);
    let child = node->Node_0.children[i as int];
    assert forall|k: M|
        prefix(k.value(), M::spec_dim_bits(), level + 1) == path * 8 + i implies #[trigger] lookup(
        root,
        k,
        0,
    ) == lookup(child, k, level + 1) by {
        lemma_digit_of_child_path(k.value(), M::spec_dim_bits(), level, path, i);
    }
}

proof fn lemma_reaches_leaf<T, M: Morton>(
    root: Internal<T, M>,
    node: Internal<T, M>,
    level: nat,
    path: nat,
)
    requires
        wf_node(node, level, path),
        reaches(root, node, level, path),
        node is Leaf,
    ensures
        lookup(root, node->Leaf_1, 0) == Option::Some(node->Leaf_0),
{
    assert(lookup(root, node->Leaf_1, 0) == lookup(node, node->Leaf_1, level));
}

/// The children `i..8` hold no leaf exactly when each of them holds none.
proof fn lemma_entries_from_empty<T, M: Morton>(children: [Internal<T, M>; 8], level: nat, i: nat)
    requires
        level <= M::spec_dim_bits(),
        i <= 8,
    ensures
        (entries_from(children, level, i).len() == 0) == (forall|j: int|
            i <= j < 8 ==> (#[trigger] entries(children[j], level)).len() == 0),
    decreases 8 - i,
{
    if i < 8 {
        lemma_entries_from_empty(children, level, i + 1);
        assert(entries_from(children, level, i) == entries(children[i as int], level)
            + entries_from(children, level, i + 1));
    }
}

/// A child holding a leaf makes the children `i..8` hold one, when it is among them.
proof fn lemma_entries_from_nonempty<T, M: Morton>(
    children: [Internal<T, M>; 8],
    level: nat,
    i: nat,
    c: nat,
)
    requires
        level <= M::spec_dim_bits(),
        i <= c < 8,
        entries(children[c as int], level).len() > 0,
    ensures
        entries_from(children, level, i).len() > 0,
    decreases 8 - i,
{
    if i < c {
        lemma_entries_from_nonempty(children, level, i + 1, c);
    }
}

/// Whether `node`, at depth `level`, holds a leaf.
fn has_leaf<T, M: Morton>(node: &Internal<T, M>, level: usize) -> (r: bool)
    requires
        level <= M::spec_dim_bits(),
    ensures
        r == (entries(*node, level as nat).len() > 0),
    decreases M::spec_dim_bits() - level,
{
    match node {
        Internal::Node(b) => {
            if level >= M::dim_bits() {
                return false;
            }
            proof {
                lemma_entries_from_empty(b.children, level as nat + 1, 0);
                M::lemma_model(M::spec_from(0), M::spec_from(0));
            }
            let mut i: usize = 0;
            while i < 8
                invariant
                    i <= 8,
                    level < M::spec_dim_bits(),
                    M::spec_dim_bits() < 128,
                    *node == Internal::Node(*b),
                    forall|j: int| 0 <= j < i ==> (#[trigger] entries(b.children[j], level as nat + 1)).len()
                        == 0,
                decreases 8 - i,
            {
                if has_leaf(&b.children[i], level + 1) {
                    proof {
                        lemma_entries_from_nonempty(b.children, level as nat + 1, 0, i as nat);
                        assert(entries(*node, level as nat) == entries_from(
                            b.children,
                            level as nat + 1,
                            0,
                        ));
                    }
                    return true;
                }
                i = i + 1;
            }
            false
        },
        Internal::Leaf(_, _) => true,
        Internal::Empty => false,
    }
}

/// The first index from `start` on, wrapping round past 7, whose child (at depth `level`)
/// holds a leaf.
fn first_filled<T, M: Morton>(children: &[Internal<T, M>; 8], start: usize, level: usize) -> (r:
    Option<usize>)
    requires
        start < 8,
        level <= M::spec_dim_bits(),
    ensures
        r matches Option::Some(i) ==> i < 8 && entries(children[i as int], level as nat).len() > 0
            && forall|o: int|
            0 <= o < (i + 8 - start) % 8 ==> (#[trigger] entries(
                children[(start + o) % 8],
                level as nat,
            )).len() == 0,
        r is None ==> forall|i: int|
            0 <= i < 8 ==> (#[trigger] entries(children[i], level as nat)).len() == 0,
{
    let mut o: usize = 0;
    while o < 8
        invariant
            o <= 8,
            start < 8,
            level <= M::spec_dim_bits(),
            forall|p: int|
                0 <= p < o ==> (#[trigger] entries(children[(start + p) % 8], level as nat)).len()
                    == 0,
        decreases 8 - o,
    {
        let i = (start + o) % 8;
        if has_leaf(&children[i], level) {
            assert((i + 8 - start) % 8 == o);
            return Some(i);
        }
        o = o + 1;
    }
    assert forall|i: int| 0 <= i < 8 implies (#[trigger] entries(children[i], level as nat)).len()
        == 0 by {
        let p = if i >= start { i - start } else { i + 8 - start };
        assert((start + p) % 8 == i);
        assert(entries(children[(start + p) % 8], level as nat).len() == 0);
    }
    None
}

impl<T, M: Morton> Internal<T, M> {
    /// A leaf of this node at depth `level`, found by following the digits of `morton`: at each
    /// node the first child from the digit on, wrapping round, that holds a leaf. There is one
    /// exactly when the node holds a leaf, and it is a leaf of the node.
    fn sample(&self, morton: M, level: usize, Ghost(root): Ghost<Self>, Ghost(path): Ghost<nat>) -> (r:
        Option<(M, &T)>)
        requires
            wf_node(*self, level as nat, path),
            reaches(root, *self, level as nat, path),
        ensures
            r matches Option::Some(p) ==> lookup(root, p.0, 0) == Option::Some(*p.1) && prefix(
                p.0.value(),
                M::spec_dim_bits(),
                level as nat,
            ) == path,
            r is Some == (entries(*self, level as nat).len() > 0),
            *self matches Internal::Leaf(t, m) ==> r == Option::Some((m, &t)),
            *self matches Internal::Node(b) ==> (r matches Option::Some(p) ==> ({
                let d = digit(morton.value(), M::spec_dim_bits(), level as nat);
                let c = digit(p.0.value(), M::spec_dim_bits(), level as nat);
                &&& c < 8
                &&& entries(b.children[c as int], level as nat + 1).len() > 0
                &&& forall|o: int|
                    0 <= o < (c + 8 - d) % 8 ==> (#[trigger] entries(
                        b.children[(d + o) % 8],
                        level as nat + 1,
                    )).len() == 0
            })),
        decreases M::spec_dim_bits() - level,
    {
        match self {
            Internal::Node(b) => {
                proof {
                    reveal_with_fuel(wf_node, 2);
                    M::lemma_model(morton, morton);
                    lemma_entries_from_empty(b.children, level as nat + 1, 0);
                }
                let start = morton.get_level(level);
                match first_filled(&b.children, start, level + 1) {
                    Some(i) => {
                        proof {
                            lemma_reaches_child(root, *self, level as nat, path, i as nat);
                            lemma_entries_from_nonempty(b.children, level as nat + 1, 0, i as nat);
                        }
                        let r = b.children[i].sample(
                            morton,
                            level + 1,
                            Ghost(root),
                            Ghost(path * 8 + i as nat),
                        );
                        proof {
                            if let Option::Some(p) = r {
                                lemma_digit_of_child_path(
                                    p.0.value(),
                                    M::spec_dim_bits(),
                                    level as nat,
                                    path,
                                    i as nat,
                                );
                            }
                        }
                        r
                    },
                    None => None,
                }
            },
            Internal::Leaf(t, m) => {
                proof {
                    lemma_reaches_leaf(root, *self, level as nat, path);
                }
                Some((*m, t))
            },
            Internal::Empty => None,
        }
    }
}

/// Appends to `out` the leaves that random sampling below `depth` picks from `node` at depth
/// `level`: above `depth` every child is visited, from `depth` on one occupied child per node,
/// the first from a random digit on.
fn rand_visit<'a, T, M: Morton>(
    node: &'a Internal<T, M>,
    level: usize,
    depth: usize,
    rng: &mut SmallRng,
    out: &mut Vec<(M, &'a T)>,
    Ghost(root): Ghost<Internal<T, M>>,
    Ghost(path): Ghost<nat>,
)
    requires
        wf_node(*node, level as nat, path),
        reaches(root, *node, level as nat, path),
        forall|j: int|
            0 <= j < old(out).len() ==> lookup(root, #[trigger] old(out)@[j].0, 0) == Option::Some(
                *old(out)@[j].1,
            ),
    ensures
        forall|j: int|
            0 <= j < final(out).len() ==> lookup(root, #[trigger] final(out)@[j].0, 0)
                == Option::Some(*final(out)@[j].1),
        final(out).len() <= old(out).len() + if level < depth {
            pow8((depth - level) as nat)
        } else {
            1
        },
        depth >= M::spec_dim_bits() ==> deref_pairs(final(out)@) == deref_pairs(old(out)@) + entries(
            *node,
            level as nat,
        ),
        final(out).len() >= old(out).len(),
        final(out)@.subrange(0, old(out).len() as int) == old(out)@,
        forall|j: int|
            old(out).len() <= j < final(out).len() ==> prefix(
                (#[trigger] final(out)@[j]).0.value(),
                M::spec_dim_bits(),
                level as nat,
            ) == path,
        forall|j1: int, j2: int|
            old(out).len() <= j1 < final(out).len() && old(out).len() <= j2 < final(out).len() && j1
                != j2 ==> (#[trigger] final(out)@[j1]).0 != (#[trigger] final(out)@[j2]).0,
        entries(*node, level as nat).len() > 0 ==> final(out).len() > old(out).len(),
        level >= depth ==> final(out).len() == old(out).len() + if entries(*node, level as nat).len()
            > 0 {
            1int
        } else {
            0int
        },
    decreases M::spec_dim_bits() - level,
{
    let ghost base = out.len();
    let ghost base_pairs = deref_pairs(out@);
    let ghost o0 = out@;
    let ghost dim = M::spec_dim_bits();
    match node {
        Internal::Node(b) => {
            proof {
                reveal_with_fuel(wf_node, 2);
                M::lemma_model(M::spec_from(0), M::spec_from(0));
                lemma_entries_from_empty(b.children, level as nat + 1, 0);
            }
            if level < depth {
                let ghost p = pow8((depth - level - 1) as nat);
                proof {
                    vstd::arithmetic::power2::lemma_pow2_adds(3, 3 * ((depth - level - 1) as nat));
                    vstd::arithmetic::power2::lemma2_to64();
                    assert(pow8((depth - level) as nat) == 8 * p);
                    assert(level + 1 < depth ==> pow8((depth - (level + 1)) as nat) == p);
                    assert(level + 1 >= depth ==> p == 1);
                }
                let mut i: usize = 0;
                while i < 8
                    invariant
                        wf_node(*node, level as nat, path),
                        reaches(root, *node, level as nat, path),
                        M::spec_dim_bits() < 128,
                        *node == Internal::Node(*b),
                        forall|j: int|
                            0 <= j < out.len() ==> lookup(root, #[trigger] out@[j].0, 0)
                                == Option::Some(*out@[j].1),
                        i <= 8,
                        level < depth,
                        level + 1 < depth ==> pow8((depth - (level + 1)) as nat) == p,
                        level + 1 >= depth ==> p == 1,
                        pow8((depth - level) as nat) == 8 * p,
                        out.len() <= base + i * p,
                        dim == M::spec_dim_bits(),
                        level < dim,
                        out.len() >= o0.len(),
                        out@.subrange(0, o0.len() as int) == o0,
                        forall|j: int|
                            o0.len() <= j < out.len() ==> prefix(
                                (#[trigger] out@[j]).0.value(),
                                dim,
                                level as nat,
                            ) == path && digit(out@[j].0.value(), dim, level as nat) < i,
                        forall|j1: int, j2: int|
                            o0.len() <= j1 < out.len() && o0.len() <= j2 < out.len() && j1 != j2
                                ==> (#[trigger] out@[j1]).0 != (#[trigger] out@[j2]).0,
                        (exists|j: int|
                            0 <= j < i && #[trigger] entries(b.children[j], level as nat + 1).len() > 0)
                            ==> out.len() > o0.len(),
                        depth >= M::spec_dim_bits() ==> deref_pairs(out@) + entries_from(
                            b.children,
                            level as nat + 1,
                            i as nat,
                        ) == base_pairs + entries_from(b.children, level as nat + 1, 0),
                    decreases 8 - i,
                {
                    let ghost before = deref_pairs(out@);
                    let ghost mid = out@;
                    proof {
                        lemma_reaches_child(root, *node, level as nat, path, i as nat);
                    }
                    rand_visit(&b.children[i], level + 1, depth, rng, out, Ghost(root), Ghost(path * 8 + i as nat));
                    proof {
                        assert(out@.subrange(0, o0.len() as int) =~= mid.subrange(0, o0.len() as int));
                        assert forall|j: int| o0.len() <= j < out.len() implies prefix(
                            (#[trigger] out@[j]).0.value(),
                            dim,
                            level as nat,
                        ) == path && digit(out@[j].0.value(), dim, level as nat) < i + 1 by {
                            if j < mid.len() {
                                assert(out@[j] == out@.subrange(0, mid.len() as int)[j]);
                            } else {
                                lemma_digit_of_child_path(out@[j].0.value(), dim, level as nat, path, i as nat);
                            }
                        }
                        assert forall|j1: int, j2: int|
                            o0.len() <= j1 < out.len() && o0.len() <= j2 < out.len() && j1 != j2 implies (
                            #[trigger] out@[j1]).0 != (#[trigger] out@[j2]).0 by {
                            if j1 < mid.len() {
                                assert(out@[j1] == out@.subrange(0, mid.len() as int)[j1]);
                            }
                            if j2 < mid.len() {
                                assert(out@[j2] == out@.subrange(0, mid.len() as int)[j2]);
                            }
                            if j1 >= mid.len() {
                                lemma_digit_of_child_path(out@[j1].0.value(), dim, level as nat, path, i as nat);
                            }
                            if j2 >= mid.len() {
                                lemma_digit_of_child_path(out@[j2].0.value(), dim, level as nat, path, i as nat);
                            }
                        }
                        if exists|j: int|
                            0 <= j < i + 1 && #[trigger] entries(b.children[j], level as nat + 1).len() > 0 {
                            if entries(b.children[i as int], level as nat + 1).len() == 0 {
                                let j = choose|j: int|
                                    0 <= j < i + 1 && #[trigger] entries(b.children[j], level as nat + 1).len()
                                        > 0;
                                assert(j < i);
                            }
                        }
                        assert((i + 1) * p == i * p + p) by (nonlinear_arith);
                        if depth >= M::spec_dim_bits() {
                            assert(deref_pairs(out@) + entries_from(b.children, level as nat + 1, i as nat + 1)
                                =~= before + entries_from(b.children, level as nat + 1, i as nat));
                        }
                    }
                    i = i + 1;
                }
                proof {
                    if depth >= M::spec_dim_bits() {
                        assert(deref_pairs(out@) =~= deref_pairs(out@) + entries_from(
                            b.children,
                            level as nat + 1,
                            8,
                        ));
                    }
                    if entries(*node, level as nat).len() > 0 {
                        let j = choose|j: int|
                            0 <= j < 8 && #[trigger] entries(b.children[j], level as nat + 1).len() > 0;
                    }
                }
            } else {
                let start = random_digit(rng);
                match first_filled(&b.children, start, level + 1) {
                    Some(i) => {
                        proof {
                            lemma_reaches_child(root, *node, level as nat, path, i as nat);
                        }
                        let ghost mid = out@;
                        rand_visit(&b.children[i], level + 1, depth, rng, out, Ghost(root), Ghost(path * 8 + i as nat));
                        proof {
                            lemma_entries_from_nonempty(b.children, level as nat + 1, 0, i as nat);
                            assert forall|j: int| o0.len() <= j < out.len() implies prefix(
                                (#[trigger] out@[j]).0.value(),
                                dim,
                                level as nat,
                            ) == path by {
                                lemma_digit_of_child_path(out@[j].0.value(), dim, level as nat, path, i as nat);
                            }
                        }
                    },
                    None => {
                        assert(out@.subrange(0, o0.len() as int) =~= o0);
                    },
                }
            }
        },
        Internal::Leaf(t, m) => {
            proof {
                lemma_reaches_leaf(root, *node, level as nat, path);
                if level < depth {
                    vstd::arithmetic::power2::lemma_pow2_pos(3 * (depth - level) as nat);
                }
            }
            let ghost before = out@;
            out.push((*m, t));
            assert(deref_pairs(out@) =~= deref_pairs(before).push((*m, *t)));
            assert(out@.subrange(0, o0.len() as int) =~= o0);
        },
        Internal::Empty => {
            assert(out@.subrange(0, o0.len() as int) =~= o0);
            assert(deref_pairs(out@) =~= base_pairs + entries(*node, level as nat));
        },
    }
}

/// Appends to `out` the stops of an exploration of `node` in `region`: where `explore` declines a
/// node, its first leaf in depth-first order; at a leaf, the leaf. Children are explored from
/// the last index to the first.
fn explore_visit<'a, T, M: Morton, E: Fn(MortonRegion<M>) -> bool>(
    node: &'a Internal<T, M>,
    region: MortonRegion<M>,
    explore: &E,
    out: &mut Vec<(MortonRegion<M>, M, &'a T)>,
    Ghost(root): Ghost<Internal<T, M>>,
)
    requires
        region.wf(),
        wf_node(*node, region.level as nat, region.path()),
        reaches(root, *node, region.level as nat, region.path()),
        forall|r: MortonRegion<M>| explore.requires((r,)),
        forall|j: int|
            0 <= j < old(out).len() ==> lookup(root, #[trigger] old(out)@[j].1, 0) == Option::Some(
                *old(out)@[j].2,
            ),
    ensures
        forall|j: int|
            0 <= j < final(out).len() ==> lookup(root, #[trigger] final(out)@[j].1, 0)
                == Option::Some(*final(out)@[j].2),
        final(out).len() >= old(out).len(),
        final(out)@.subrange(0, old(out).len() as int) == old(out)@,
        forall|j: int|
            old(out).len() <= j < final(out).len() ==> (#[trigger] final(out)@[j]).0.wf() && prefix(
                final(out)@[j].1.value(),
                M::spec_dim_bits(),
                final(out)@[j].0.level as nat,
            ) == final(out)@[j].0.path() && inside(final(out)@[j].0@, region),
        entries(*node, region.level as nat).len() > 0 ==> final(out).len() > old(out).len(),
        node is Leaf ==> final(out).len() == old(out).len() + 1 && final(out)@.last().0 == region
            && final(out)@.last().1 == entries(*node, region.level as nat)[0].0 && *final(out)@.last().2
            == entries(*node, region.level as nat)[0].1,
        (forall|r: MortonRegion<M>, b: bool| explore.ensures((r,), b) ==> !b) && node is Node
            && entries(*node, region.level as nat).len() > 0 ==> final(out).len() == old(out).len()
            + 1 && final(out)@.last().0 == region && final(out)@.last().1 == entries(
            *node,
            region.level as nat,
        )[0].0 && *final(out)@.last().2 == entries(*node, region.level as nat)[0].1,
        (forall|r: MortonRegion<M>, b: bool| explore.ensures((r,), b) ==> b) ==> stop_regions(
            final(out)@,
        ) == stop_regions(old(out)@) + leaf_regions(*node, region@),
    decreases M::spec_dim_bits() - region.level,
{
    let ghost base = stop_regions(out@);
    let ghost o0 = out@;
    let ghost l = region.level as nat;
    let ghost pp = region.path();
    proof {
        region.lemma_value();
        assert(inside(region@, region));
    }
    match node {
        Internal::Node(b) => {
            proof {
                reveal_with_fuel(wf_node, 2);
                lemma_entries_from_empty(b.children, l + 1, 0);
            }
            if explore(region) {
                let mut i: usize = 8;
                while i > 0
                    invariant
                        region.wf(),
                        i <= 8,
                        wf_node(*node, region.level as nat, region.path()),
                        reaches(root, *node, region.level as nat, region.path()),
                        *node == Internal::Node(*b),
                        l == region.level,
                        pp == region.path(),
                        region.level < M::spec_dim_bits(),
                        out.len() >= o0.len(),
                        out@.subrange(0, o0.len() as int) == o0,
                        forall|j: int|
                            o0.len() <= j < out.len() ==> (#[trigger] out@[j]).0.wf() && prefix(
                                out@[j].1.value(),
                                M::spec_dim_bits(),
                                out@[j].0.level as nat,
                            ) == out@[j].0.path() && inside(out@[j].0@, region),
                        (exists|j: int| i <= j < 8 && #[trigger] entries(b.children[j], l + 1).len() > 0)
                            ==> out.len() > o0.len(),
                        forall|r: MortonRegion<M>| explore.requires((r,)),
                        forall|j: int|
                            0 <= j < out.len() ==> lookup(root, #[trigger] out@[j].1, 0)
                                == Option::Some(*out@[j].2),
                        region.level < M::spec_dim_bits(),
                        (forall|r: MortonRegion<M>, c: bool| explore.ensures((r,), c) ==> c)
                            ==> stop_regions(out@) + regions_down(b.children, region@, i as nat)
                            == base + regions_down(b.children, region@, 8),
                    decreases i,
                {
                    let ghost before = stop_regions(out@);
                    i = i - 1;
                    proof {
                        lemma_reaches_child(root, *node, region.level as nat, region.path(), i as nat);
                    }
                    let child_region = region.enter(i);
                    let ghost mid = out@;
                    explore_visit(&b.children[i], child_region, explore, out, Ghost(root));
                    proof {
                        assert(out@.subrange(0, o0.len() as int) =~= mid.subrange(0, o0.len() as int));
                        assert forall|j: int|
                            o0.len() <= j < out.len() implies (#[trigger] out@[j]).0.wf() && prefix(
                            out@[j].1.value(),
                            M::spec_dim_bits(),
                            out@[j].0.level as nat,
                        ) == out@[j].0.path() && inside(out@[j].0@, region) by {
                            if j < mid.len() {
                                assert(out@[j] == out@.subrange(0, mid.len() as int)[j]);
                            } else {
                                lemma_inside_child::<M>(out@[j].0@, l, pp, i as nat);
                            }
                        }
                        if exists|j: int| i <= j < 8 && #[trigger] entries(b.children[j], l + 1).len() > 0 {
                            if entries(b.children[i as int], l + 1).len() == 0 {
                                let j = choose|j: int|
                                    i <= j < 8 && #[trigger] entries(b.children[j], l + 1).len() > 0;
                                assert(i + 1 <= j);
                            }
                        }
                        if forall|r: MortonRegion<M>, c: bool| explore.ensures((r,), c) ==> c {
                            assert(stop_regions(out@) + regions_down(b.children, region@, i as nat)
                                =~= before + regions_down(b.children, region@, i as nat + 1));
                        }
                    }
                }
                proof {
                    assert(stop_regions(out@) + regions_down(b.children, region@, 0) =~= stop_regions(
                        out@,
                    ));
                    if entries(*node, l).len() > 0 {
                        let j = choose|j: int|
                            0 <= j < 8 && #[trigger] entries(b.children[j], l + 1).len() > 0;
                    }
                }
            } else {
                let mut first: Vec<(M, &'a T)> = Vec::new();
                collect_entries(node, region.level, &mut first);
                if first.len() > 0 {
                    proof {
                        lemma_entries(*node, region.level as nat, region.path());
                        assert(deref_pairs(first@)[0] == (first@[0].0, *first@[0].1));
                        assert(deref_pairs(first@) =~= entries(*node, region.level as nat));
                        let e = entries(*node, region.level as nat);
                        assert(lookup(*node, e[0].0, region.level as nat) == Option::Some(e[0].1));
                    }
                    let (m, t) = first[0];
                    out.push((region, m, t));
                    proof {
                        assert(out@.subrange(0, o0.len() as int) =~= o0);
                        assert(out@[o0.len() as int] == (region, m, t));
                    }
                } else {
                    assert(deref_pairs(first@).len() == first@.len());
                }
                proof {
                    assert(out@.subrange(0, o0.len() as int) =~= o0);
                }
            }
        },
        Internal::Leaf(t, m) => {
            proof {
                lemma_reaches_leaf(root, *node, region.level as nat, region.path());
            }
            let ghost before = out@;
            out.push((region, *m, t));
            assert(stop_regions(out@) =~= stop_regions(before).push(region@));
            assert(out@.subrange(0, o0.len() as int) =~= o0);
        },
        Internal::Empty => {
            assert(stop_regions(out@) =~= base + leaf_regions(*node, region@));
            assert(out@.subrange(0, o0.len() as int) =~= o0);
        },
    }
}

/// The regions of the leaves of `node` in `region`, children taken from the last index to the
/// first.
pub open spec fn leaf_regions<T, M: Morton>(node: Internal<T, M>, region: (nat, nat)) -> Seq<
    (nat, nat),
>
    decreases M::spec_dim_bits() + 1 - region.1, 0nat,
{
    match node {
        Internal::Node(b) => {
            if region.1 < M::spec_dim_bits() {
                regions_down(b.children, region, 8)
            } else {
                Seq::empty()
            }
        },
        Internal::Leaf(_, _) => seq![region],
        Internal::Empty => Seq::empty(),
    }
}

/// `leaf_regions` of the children `i - 1` down to `0` of the node of `region`.
pub open spec fn regions_down<T, M: Morton>(
    children: [Internal<T, M>; 8],
    region: (nat, nat),
    i: nat,
) -> Seq<(nat, nat)>
    decreases M::spec_dim_bits() + 1 - (region.1 + 1), i,
{
    if 0 < i <= 8 && region.1 < M::spec_dim_bits() {
        leaf_regions(children[i - 1], child_region(region, (i - 1) as nat, M::spec_dim_bits()))
            + regions_down(children, region, (i - 1) as nat)
    } else {
        Seq::empty()
    }
}

/// The leaves of `node` in `region`, each with its region and its gathered summary, children
/// taken from the last index to the first.
pub open spec fn leaf_gathers<T, M: Morton, F: Folder<T, M>>(
    f: F,
    node: Internal<T, M>,
    region: (nat, nat),
) -> Seq<((nat, nat), F::Sum)>
    decreases M::spec_dim_bits() + 1 - region.1, 0nat,
{
    match node {
        Internal::Node(b) => {
            if region.1 < M::spec_dim_bits() {
                gathers_down(f, b.children, region, 8)
            } else {
                Seq::empty()
            }
        },
        Internal::Leaf(t, m) => seq![(region, f.spec_gather(m, t))],
        Internal::Empty => Seq::empty(),
    }
}

/// `leaf_gathers` of the children `i - 1` down to `0` of the node of `region`.
pub open spec fn gathers_down<T, M: Morton, F: Folder<T, M>>(
    f: F,
    children: [Internal<T, M>; 8],
    region: (nat, nat),
    i: nat,
) -> Seq<((nat, nat), F::Sum)>
    decreases M::spec_dim_bits() + 1 - (region.1 + 1), i,
{
    if 0 < i <= 8 && region.1 < M::spec_dim_bits() {
        leaf_gathers(f, children[i - 1], child_region(region, (i - 1) as nat, M::spec_dim_bits()))
            + gathers_down(f, children, region, (i - 1) as nat)
    } else {
        Seq::empty()
    }
}

/// The regions of the stops of an exploration.
pub open spec fn stop_regions<'a, T, M: Morton>(s: Seq<(MortonRegion<M>, M, &'a T)>) -> Seq<(nat, nat)> {
    s.map_values(|e: (MortonRegion<M>, M, &'a T)| e.0@)
}

/// The regions of region-keyed pairs.
pub open spec fn regions_of<M: Morton, S>(s: Seq<(MortonRegion<M>, S)>) -> Seq<(nat, nat)> {
    s.map_values(|e: (MortonRegion<M>, S)| e.0@)
}

proof fn lemma_leaf_regions_len<T, M: Morton>(node: Internal<T, M>, region: (nat, nat))
    ensures
        leaf_regions(node, region).len() == entries(node, region.1).len(),
    decreases M::spec_dim_bits() + 1 - region.1, 0nat,
{
    match node {
        Internal::Node(b) => {
            if region.1 < M::spec_dim_bits() {
                lemma_regions_down_len(b.children, region, 8);
                lemma_entries_from_len(b.children, region, 0);
            }
        },
        _ => {},
    }
}

proof fn lemma_regions_down_len<T, M: Morton>(children: [Internal<T, M>; 8], region: (nat, nat), i: nat)
    requires
        i <= 8,
        region.1 < M::spec_dim_bits(),
    ensures
        regions_down(children, region, i).len() == count_below(children, region.1 + 1, i),
    decreases M::spec_dim_bits() + 1 - (region.1 + 1), i,
{
    if 0 < i {
        lemma_leaf_regions_len(children[i - 1], child_region(region, (i - 1) as nat, M::spec_dim_bits()));
        lemma_regions_down_len(children, region, (i - 1) as nat);
    }
}

/// The number of leaves of the children `0..i`, each at depth `level`.
pub open spec fn count_below<T, M: Morton>(children: [Internal<T, M>; 8], level: nat, i: nat) -> nat
    decreases i,
{
    if 0 < i <= 8 {
        entries(children[i - 1], level).len() + count_below(children, level, (i - 1) as nat)
    } else {
        0
    }
}

proof fn lemma_entries_from_len<T, M: Morton>(children: [Internal<T, M>; 8], region: (nat, nat), i: nat)
    requires
        i <= 8,
        region.1 < M::spec_dim_bits(),
    ensures
        entries_from(children, region.1 + 1, i).len() + count_below(children, region.1 + 1, i)
            == count_below(children, region.1 + 1, 8),
    decreases 8 - i,
{
    if i < 8 {
        lemma_entries_from_len(children, region, i + 1);
        assert(count_below(children, region.1 + 1, i + 1) == entries(children[i as int], region.1
            + 1).len() + count_below(children, region.1 + 1, i));
    }
}

/// A key whose digits are drawn at random.
fn random_key<M: Morton>(rng: &mut SmallRng) -> (r: M)
    ensures
        r.value() < pow8(M::spec_dim_bits()),
{
    let dim = M::dim_bits();
    let mut key = M::zero();
    let mut l: usize = 0;
    proof {
        M::lemma_model(key, key);
        vstd::arithmetic::power2::lemma_pow2_pos(3 * M::spec_dim_bits());
    }
    while l < dim
        invariant
            dim == M::spec_dim_bits(),
            l <= dim,
            key.value() < pow8(dim as nat),
        decreases dim - l,
    {
        let d = random_digit(rng);
        let ghost before = key.value();
        key.set_level(l, d);
        proof {
            let p = pow8((dim - 1 - l) as nat);
            let q = pow8((dim - l) as nat);
            let dg = digit(before, dim as nat, l as nat);
            lemma_prefix_step(before, dim as nat, l as nat);
            vstd::arithmetic::power2::lemma_pow2_adds(3, 3 * (dim - 1 - l) as nat);
            vstd::arithmetic::power2::lemma2_to64();
            vstd::arithmetic::power2::lemma_pow2_pos(3 * (dim - 1 - l) as nat);
            vstd::arithmetic::power2::lemma_pow2_adds(3 * (l as nat), 3 * (dim - l) as nat);
            vstd::arithmetic::power2::lemma_pow2_pos(3 * (l as nat));
            let a = prefix(before, dim as nat, l as nat);
            let rest = before % p;
            assert(before == (before / p) * p + rest) by (nonlinear_arith)
                requires p > 0, rest == before % p;
            assert(q == 8 * p);
            vstd::arithmetic::div_mod::lemma_div_denominator(before as int, p as int, 8);
            assert(before / p == 8 * a + dg) by {
                assert(a == (before / p) / 8);
            }
            assert(before / q < pow8(l as nat)) by (nonlinear_arith)
                requires
                    before < pow8(dim as nat),
                    pow8(dim as nat) == pow8(l as nat) * q,
                    q > 0;
            assert(key.value() < pow8(dim as nat)) by (nonlinear_arith)
                requires
                    key.value() == before + (d - dg) * p,
                    before == (8 * a + dg) * p + rest,
                    rest < p,
                    d < 8,
                    a < pow8(l as nat),
                    a == before / q,
                    q == 8 * p,
                    pow8(dim as nat) == pow8(l as nat) * q;
        }
        l = l + 1;
    }
    key
}

/// What a cache insert leaves of the other entries.
proof fn lemma_insert_frame<S>(after: Map<(nat, nat), S>, before: Map<(nat, nat), S>, k: (nat, nat), v: S)
    requires
        after.submap_of(before.insert(k, v)),
    ensures
        forall|q: (nat, nat)|
            #[trigger] after.contains_key(q) && q != k ==> before.contains_key(q) && after[q] == before[q],
{
    assert forall|q: (nat, nat)| #[trigger] after.contains_key(q) && q != k implies before.contains_key(q)
        && after[q] == before[q] by {
        assert(before.insert(k, v).contains_key(q));
    }
}

/// Whether the region (key value, level) `q` lies in the region of `level` with path `path`.
pub open spec fn inside_at<M: Morton>(q: (nat, nat), level: nat, path: nat) -> bool {
    &&& level <= q.1 <= M::spec_dim_bits()
    &&& q.0 / pow8((M::spec_dim_bits() - level) as nat) == path
}

/// Whether the region (key value, level) `q` lies in `region`.
pub open spec fn inside<M: Morton>(q: (nat, nat), region: MortonRegion<M>) -> bool {
    inside_at::<M>(q, region.level as nat, region.path())
}

/// A region inside a child lies inside the parent.
proof fn lemma_inside_child<M: Morton>(q: (nat, nat), level: nat, path: nat, i: nat)
    requires
        level < M::spec_dim_bits(),
        i < 8,
        inside_at::<M>(q, level + 1, path * 8 + i),
    ensures
        inside_at::<M>(q, level, path),
{
    let k = (M::spec_dim_bits() - level - 1) as nat;
    vstd::arithmetic::power2::lemma_pow2_adds(3 * k, 3);
    vstd::arithmetic::power2::lemma2_to64();
    vstd::arithmetic::power2::lemma_pow2_pos(3 * k);
    assert(pow8((M::spec_dim_bits() - level) as nat) == pow8(k) * 8);
    vstd::arithmetic::div_mod::lemma_div_denominator(q.0 as int, pow8(k) as int, 8);
}

/// The summary of `node` in `region` with sampling: a summary cached for `region` is used as it
/// is; otherwise a leaf is gathered, and a node folds its children down `depth` more levels, where
/// one sampled leaf stands for the whole node. Each summary computed is cached.
fn fold_rand<T, M: Morton, F: Folder<T, M>>(
    node: &Internal<T, M>,
    region: MortonRegion<M>,
    depth: usize,
    folder: &F,
    cache: &mut RegionCache<M, F::Sum>,
    rng: &mut SmallRng,
    Ghost(root): Ghost<Internal<T, M>>,
) -> (r: Option<F::Sum>)
    requires
        region.wf(),
        wf_node(*node, region.level as nat, region.path()),
        reaches(root, *node, region.level as nat, region.path()),
    ensures
        final(cache).capacity() == old(cache).capacity(),
        forall|q: (nat, nat)|
            #[trigger] final(cache)@.contains_key(q) && !inside(q, region) ==> old(
                cache,
            )@.contains_key(q) && final(cache)@[q] == old(cache)@[q],
        node is Empty ==> r is None,
        entries(*node, region.level as nat).len() > 0 ==> r is Some,
        (forall|q: (nat, nat)| inside(q, region) ==> !#[trigger] old(cache)@.contains_key(q)) && entries(
            *node,
            region.level as nat,
        ).len() == 0 ==> r is None,
        old(cache)@.contains_key(region@) && !(node is Empty) ==> r == Option::Some(
            old(cache)@[region@],
        ),
        r matches Option::Some(s) ==> (old(cache).capacity() >= 1 ==> final(cache)@.contains_key(
            region@,
        ) && final(cache)@[region@] == s),
        (forall|q: (nat, nat)| inside(q, region) ==> !#[trigger] old(cache)@.contains_key(q)) && depth
            + region.level >= M::spec_dim_bits() ==> r == fold_sum(
            *folder,
            *node,
            region.level as nat,
        ),
        r matches Option::Some(s) ==> (depth == 0 && node is Node && !old(cache)@.contains_key(
            region@,
        ) ==> exists|k: M, t: T|
            lookup(root, k, 0) == Option::Some(t) && prefix(
                k.value(),
                M::spec_dim_bits(),
                region.level as nat,
            ) == region.path() && s == folder.spec_gather(k, t)),
    decreases M::spec_dim_bits() - region.level,
{
    let ghost c0 = cache@;
    let ghost dim = M::spec_dim_bits();
    let ghost l = region.level as nat;
    let ghost pp = region.path();
    proof {
        assert(inside(region@, region));
    }
    match node {
        Internal::Node(b) => {
            if let Some(sum) = cache.get(&region, folder) {
                return Some(sum);
            }
            proof {
                reveal_with_fuel(wf_node, 2);
                M::lemma_model(region.morton, region.morton);
                lemma_entries_from_empty(b.children, l + 1, 0);
            }
            if depth == 0 {
                let start = random_digit(rng);
                let key: M = random_key(rng);
                match first_filled(&b.children, start, region.level + 1) {
                    Some(i) => {
                        proof {
                            lemma_reaches_child(root, *node, l, pp, i as nat);
                        }
                        match b.children[i].sample(
                            key,
                            region.level + 1,
                            Ghost(root),
                            Ghost(pp * 8 + i as nat),
                        ) {
                            Some((m, t)) => {
                                proof {
                                    lemma_digit_of_child_path(m.value(), dim, l, pp, i as nat);
                                }
                                let sum = folder.gather(m, t);
                                let ghost mid = cache@;
                                cache.insert(region, folder.copy_sum(&sum));
                                proof {
                                    lemma_insert_frame(cache@, mid, region@, sum);
                                }
                                Some(sum)
                            },
                            None => None,
                        }
                    },
                    None => None,
                }
            } else {
                let ghost fr = forall|q: (nat, nat)| inside(q, region) ==> !#[trigger] c0.contains_key(q);
                let ghost pre = fr && depth + region.level >= M::spec_dim_bits();
                let mut sums: Vec<F::Sum> = Vec::new();
                let mut i: usize = 0;
                proof {
                    if fr {
                        assert forall|q: (nat, nat), j: int|
                            #![trigger cache@.contains_key(q), inside_at::<M>(q, l + 1, pp * 8 + j as nat)]
                            0 <= j < 8 && inside_at::<M>(q, l + 1, pp * 8 + j as nat)
                                implies !cache@.contains_key(q) by {
                            lemma_inside_child::<M>(q, l, pp, j as nat);
                            assert(inside(q, region));
                        }
                    }
                }
                while i < 8
                    invariant
                        region.wf(),
                        l == region.level,
                        pp == region.path(),
                        dim == M::spec_dim_bits(),
                        l < dim,
                        wf_node(*node, l, pp),
                        reaches(root, *node, l, pp),
                        *node == Internal::Node(*b),
                        sums.len() <= i,
                        i <= 8,
                        depth > 0,
                        pre ==> depth + l >= dim,
                        cache.capacity() == old(cache).capacity(),
                        forall|q: (nat, nat)|
                            #[trigger] cache@.contains_key(q) && !inside(q, region) ==> c0.contains_key(q)
                                && cache@[q] == c0[q],
                        !cache@.contains_key(region@) || fr == false,
                        pre ==> fr,
                        fr && sums.len() > 0 ==> exists|j: int|
                            0 <= j < i && #[trigger] entries(b.children[j], l + 1).len() > 0,
                        fr ==> forall|q: (nat, nat), j: int|
                            #![trigger cache@.contains_key(q), inside_at::<M>(q, l + 1, pp * 8 + j as nat)]
                            i <= j < 8 && inside_at::<M>(q, l + 1, pp * 8 + j as nat)
                                ==> !cache@.contains_key(q),
                        pre ==> sums@ + kid_sums(*folder, b.children, l + 1, i as nat) == kid_sums(
                            *folder,
                            b.children,
                            l + 1,
                            0,
                        ),
                        (exists|j: int|
                            0 <= j < i && #[trigger] entries(b.children[j], l + 1).len() > 0) ==> sums.len()
                            > 0,
                    decreases 8 - i,
                {
                    proof {
                        lemma_reaches_child(root, *node, l, pp, i as nat);
                    }
                    let child_region = region.enter(i);
                    let ghost before = cache@;
                    let ghost sums_before = sums@;
                    let ghost fresh = forall|q: (nat, nat)|
                        inside(q, child_region) ==> !#[trigger] before.contains_key(q);
                    proof {
                        if fr {
                            assert forall|q: (nat, nat)| inside(q, child_region) implies !#[trigger] before.contains_key(
                                q,
                            ) by {
                                assert(inside_at::<M>(q, l + 1, pp * 8 + i as nat));
                            }
                            assert(fresh);
                        }
                        if pre {
                            assert(depth - 1 + child_region.level >= M::spec_dim_bits());
                        }
                    }
                    let r = fold_rand(
                        &b.children[i],
                        child_region,
                        depth - 1,
                        folder,
                        cache,
                        rng,
                        Ghost(root),
                    );
                    match r {
                        Some(x) => sums.push(x),
                        None => {},
                    }
                    proof {
                        assert forall|q: (nat, nat)|
                            #[trigger] cache@.contains_key(q) && !inside(q, region) implies c0.contains_key(q)
                            && cache@[q] == c0[q] by {
                            if inside(q, child_region) {
                                lemma_inside_child::<M>(q, l, pp, i as nat);
                            }
                        }
                        if fr {
                            if sums.len() > 0 && sums_before.len() == 0 {
                                assert(r is Some);
                                assert(entries(b.children[i as int], l + 1).len() > 0);
                            } else if sums.len() > 0 {
                                let j = choose|j: int|
                                    0 <= j < i && #[trigger] entries(b.children[j], l + 1).len() > 0;
                                assert(0 <= j < i + 1);
                            }
                            assert forall|q: (nat, nat), j: int|
                                #![trigger cache@.contains_key(q), inside_at::<M>(q, l + 1, pp * 8 + j as nat)]
                                i + 1 <= j < 8 && inside_at::<M>(q, l + 1, pp * 8 + j as nat)
                                    implies !cache@.contains_key(q) by {
                                if cache@.contains_key(q) && !before.contains_key(q) {
                                    if !inside(q, child_region) {
                                        assert(false);
                                    }
                                }
                                assert(!before.contains_key(q));
                            }
                            if cache@.contains_key(region@) {
                                assert(!inside(region@, child_region)) by {
                                    assert(region@.1 < l + 1);
                                }
                                assert(c0.contains_key(region@));
                            }
                        }
                        if pre {
                            assert(fresh);
                            assert(r == fold_sum(*folder, b.children[i as int], child_region.level as nat));
                            assert(child_region.level as nat == l + 1);
                            assert(sums@ + kid_sums(*folder, b.children, l + 1, i as nat + 1) =~= sums_before
                                + kid_sums(*folder, b.children, l + 1, i as nat));
                        }
                        if cache@.contains_key(region@) {
                            assert(!inside(region@, child_region)) by {
                                assert(region@.1 < l + 1);
                            }
                        }
                        if exists|j: int| 0 <= j < i + 1 && #[trigger] entries(b.children[j], l + 1).len()
                            > 0 {
                            if entries(b.children[i as int], l + 1).len() == 0 {
                                let j = choose|j: int|
                                    0 <= j < i + 1 && #[trigger] entries(b.children[j], l + 1).len() > 0;
                                assert(0 <= j < i);
                            }
                        }
                    }
                    i = i + 1;
                }
                proof {
                    if entries(*node, l).len() > 0 {
                        let j = choose|j: int|
                            0 <= j < 8 && #[trigger] entries(b.children[j], l + 1).len() > 0;
                    }
                    if pre {
                        assert(sums@ + kid_sums(*folder, b.children, l + 1, 8) =~= sums@);
                    }
                }
                proof {
                    if fr && sums.len() > 0 {
                        let j = choose|j: int|
                            0 <= j < 8 && #[trigger] entries(b.children[j], l + 1).len() > 0;
                        lemma_entries_from_nonempty(b.children, l + 1, 0, j as nat);
                    }
                }
                if sums.len() == 0 {
                    return None;
                }
                let sum = folder.fold(sums.as_slice());
                let ghost mid = cache@;
                cache.insert(region, folder.copy_sum(&sum));
                proof {
                    lemma_insert_frame(cache@, mid, region@, sum);
                    assert forall|q: (nat, nat)|
                        #[trigger] cache@.contains_key(q) && !inside(q, region) implies c0.contains_key(q)
                        && cache@[q] == c0[q] by {
                        assert(q != region@);
                        assert(mid.contains_key(q));
                    }
                }
                Some(sum)
            }
        },
        Internal::Leaf(t, m) => {
            match cache.get(&region, folder) {
                Some(sum) => Some(sum),
                None => {
                    let sum = folder.gather(*m, t);
                    let ghost mid = cache@;
                    cache.insert(region, folder.copy_sum(&sum));
                    proof {
                        lemma_insert_frame(cache@, mid, region@, sum);
                        assert forall|q: (nat, nat)|
                            #[trigger] cache@.contains_key(q) && !inside(q, region) implies c0.contains_key(
                            q,
                        ) && cache@[q] == c0[q] by {
                            assert(q != region@);
                        }
                    }
                    Some(sum)
                },
            }
        },
        Internal::Empty => None,
    }
}

/// Appends to `out` the stops of a folding exploration of `node` in `region`: where `explore`
/// is true a node's children are explored, last index first, and a leaf is returned with its
/// summary; where it is false the region is returned with its summary from the cache or from
/// `fold_rand`, if it has one. A node holding a leaf always gives a stop.
fn fold_visit<T, M: Morton, F: Folder<T, M>, E: Fn(MortonRegion<M>) -> bool>(
    node: &Internal<T, M>,
    region: MortonRegion<M>,
    depth: usize,
    explore: &E,
    folder: &F,
    cache: &mut RegionCache<M, F::Sum>,
    rng: &mut SmallRng,
    out: &mut Vec<(MortonRegion<M>, F::Sum)>,
    Ghost(root): Ghost<Internal<T, M>>,
)
    requires
        region.wf(),
        wf_node(*node, region.level as nat, region.path()),
        reaches(root, *node, region.level as nat, region.path()),
        forall|r: MortonRegion<M>| explore.requires((r,)),
        forall|j: int| 0 <= j < old(out).len() ==> (#[trigger] old(out)@[j]).0.wf(),
    ensures
        forall|j: int| 0 <= j < final(out).len() ==> (#[trigger] final(out)@[j]).0.wf(),
        final(out).len() >= old(out).len(),
        final(out)@.subrange(0, old(out).len() as int) == old(out)@,
        forall|j: int|
            old(out).len() <= j < final(out).len() ==> inside((#[trigger] final(out)@[j]).0@, region)
                && (explore.ensures((final(out)@[j].0,), false) || (explore.ensures(
                (final(out)@[j].0,),
                true,
            ) && exists|k: M, t: T|
                lookup(root, k, 0) == Option::Some(t) && prefix(
                    k.value(),
                    M::spec_dim_bits(),
                    final(out)@[j].0.level as nat,
                ) == final(out)@[j].0.path())),
        final(cache).capacity() == old(cache).capacity(),
        forall|q: (nat, nat)|
            #[trigger] final(cache)@.contains_key(q) && !inside(q, region) ==> old(
                cache,
            )@.contains_key(q) && final(cache)@[q] == old(cache)@[q],
        entries(*node, region.level as nat).len() > 0 ==> final(out).len() > old(out).len(),
        (forall|r: MortonRegion<M>, b: bool| explore.ensures((r,), b) ==> b) ==> regions_of(
            final(out)@,
        ) == regions_of(old(out)@) + leaf_regions(*node, region@),
        (forall|r: MortonRegion<M>, b: bool| explore.ensures((r,), b) ==> !b) && (forall|q: (nat, nat)|
            inside(q, region) ==> !#[trigger] old(cache)@.contains_key(q)) && depth + region.level
            >= M::spec_dim_bits() ==> region_pairs(final(out)@) == region_pairs(old(out)@) + match fold_sum(
            *folder,
            *node,
            region.level as nat,
        ) {
            Option::Some(s) => seq![(region@, s)],
            Option::None => Seq::empty(),
        },
        (forall|r: MortonRegion<M>, b: bool| explore.ensures((r,), b) ==> b) && (forall|q: (nat, nat)|
            inside(q, region) ==> !#[trigger] old(cache)@.contains_key(q)) ==> region_pairs(
            final(out)@,
        ) == region_pairs(old(out)@) + leaf_gathers(*folder, *node, region@),
        (forall|q: (nat, nat)| inside(q, region) ==> !#[trigger] old(cache)@.contains_key(q)) && entries(
            *node,
            region.level as nat,
        ).len() == 0 ==> final(out).len() == old(out).len(),
        old(cache)@.contains_key(region@) && (node is Leaf || forall|b: bool|
            explore.ensures((region,), b) ==> !b) ==> region_pairs(final(out)@) == region_pairs(
            old(out)@,
        ).push((region@, old(cache)@[region@])),
    decreases M::spec_dim_bits() - region.level,
{
    let ghost base = regions_of(out@);
    let ghost o0 = out@;
    let ghost all_true = forall|r: MortonRegion<M>, b: bool| explore.ensures((r,), b) ==> b;
    let ghost fresh0 = forall|q: (nat, nat)| inside(q, region) ==> !#[trigger] cache@.contains_key(q);
    let ghost base_pairs = region_pairs(out@);
    let ghost c0 = cache@;
    let ghost l = region.level as nat;
    let ghost pp = region.path();
    proof {
        assert(inside(region@, region));
    }
    let go = explore(region);
    if go {
        match node {
            Internal::Node(b) => {
                proof {
                    reveal_with_fuel(wf_node, 2);
                    lemma_entries_from_empty(b.children, l + 1, 0);
                }
                let ghost len0 = out.len();
                let mut i: usize = 8;
                proof {
                    if fresh0 {
                        assert forall|q: (nat, nat), j: int|
                            #![trigger cache@.contains_key(q), inside_at::<M>(q, l + 1, pp * 8 + j as nat)]
                            0 <= j < 8 && inside_at::<M>(q, l + 1, pp * 8 + j as nat)
                                implies !cache@.contains_key(q) by {
                            lemma_inside_child::<M>(q, l, pp, j as nat);
                            assert(inside(q, region));
                        }
                    }
                }
                while i > 0
                    invariant
                        region.wf(),
                        l == region.level,
                        pp == region.path(),
                        i <= 8,
                        region.level < M::spec_dim_bits(),
                        wf_node(*node, region.level as nat, region.path()),
                        reaches(root, *node, region.level as nat, region.path()),
                        *node == Internal::Node(*b),
                        forall|r: MortonRegion<M>| explore.requires((r,)),
                        forall|j: int| 0 <= j < out.len() ==> (#[trigger] out@[j]).0.wf(),
                        out.len() >= len0,
                        cache.capacity() == old(cache).capacity(),
                        forall|q: (nat, nat)|
                            #[trigger] cache@.contains_key(q) && !inside(q, region) ==> c0.contains_key(q)
                                && cache@[q] == c0[q],
                        (exists|j: int| i <= j < 8 && #[trigger] entries(b.children[j], l + 1).len() > 0)
                            ==> out.len() > len0,
                        (forall|r: MortonRegion<M>, c: bool| explore.ensures((r,), c) ==> c)
                            ==> regions_of(out@) + regions_down(b.children, region@, i as nat)
                            == base + regions_down(b.children, region@, 8),
                        all_true == (forall|r: MortonRegion<M>, c: bool| explore.ensures((r,), c) ==> c),
                        out@.subrange(0, o0.len() as int) == o0,
                        out.len() >= o0.len(),
                        forall|j: int|
                            o0.len() <= j < out.len() ==> inside((#[trigger] out@[j]).0@, region) && (
                            explore.ensures((out@[j].0,), false) || (explore.ensures((out@[j].0,), true)
                                && exists|k: M, t: T|
                                lookup(root, k, 0) == Option::Some(t) && prefix(
                                    k.value(),
                                    M::spec_dim_bits(),
                                    out@[j].0.level as nat,
                                ) == out@[j].0.path())),
                        fresh0 && entries(*node, l).len() == 0 ==> out.len() == len0,
                        fresh0 ==> forall|q: (nat, nat), j: int|
                            #![trigger cache@.contains_key(q), inside_at::<M>(q, l + 1, pp * 8 + j as nat)]
                            0 <= j < i && inside_at::<M>(q, l + 1, pp * 8 + j as nat)
                                ==> !cache@.contains_key(q),
                        all_true && fresh0 ==> region_pairs(out@) + gathers_down(
                            *folder,
                            b.children,
                            region@,
                            i as nat,
                        ) == base_pairs + gathers_down(*folder, b.children, region@, 8),
                    decreases i,
                {
                    let ghost before = regions_of(out@);
                    let ghost before_pairs = region_pairs(out@);
                    let ghost cb = cache@;
                    i = i - 1;
                    proof {
                        lemma_reaches_child(root, *node, region.level as nat, region.path(), i as nat);
                    }
                    let child_region = region.enter(i);
                    proof {
                        if fresh0 {
                            assert forall|q: (nat, nat)| inside(q, child_region) implies !#[trigger] cb.contains_key(
                                q,
                            ) by {
                                assert(inside_at::<M>(q, l + 1, pp * 8 + i as nat));
                            }
                        }
                    }
                    let ghost mid = out@;
                    fold_visit(&b.children[i], child_region, depth, explore, folder, cache, rng, out, Ghost(root));
                    proof {
                        assert(out@.subrange(0, o0.len() as int) =~= mid.subrange(0, o0.len() as int));
                        assert forall|j: int| o0.len() <= j < out.len() implies inside(
                            (#[trigger] out@[j]).0@,
                            region,
                        ) && (explore.ensures((out@[j].0,), false) || (explore.ensures(
                            (out@[j].0,),
                            true,
                        ) && exists|k: M, t: T|
                            lookup(root, k, 0) == Option::Some(t) && prefix(
                                k.value(),
                                M::spec_dim_bits(),
                                out@[j].0.level as nat,
                            ) == out@[j].0.path())) by {
                            if j < mid.len() {
                                assert(out@[j] == out@.subrange(0, mid.len() as int)[j]);
                            } else {
                                lemma_inside_child::<M>(out@[j].0@, l, pp, i as nat);
                            }
                        }
                        if fresh0 && entries(*node, l).len() == 0 {
                            lemma_entries_from_empty(b.children, l + 1, 0);
                            assert(entries(b.children[i as int], l + 1).len() == 0);
                        }
                        if all_true && fresh0 {
                            assert(region_pairs(out@) + gathers_down(*folder, b.children, region@, i as nat)
                                =~= before_pairs + gathers_down(*folder, b.children, region@, i as nat + 1));
                        }
                        if fresh0 {
                            assert forall|q: (nat, nat), j: int|
                                #![trigger cache@.contains_key(q), inside_at::<M>(q, l + 1, pp * 8 + j as nat)]
                                0 <= j < i && inside_at::<M>(q, l + 1, pp * 8 + j as nat)
                                    implies !cache@.contains_key(q) by {
                                if cache@.contains_key(q) && !cb.contains_key(q) {
                                    if !inside(q, child_region) {
                                        assert(false);
                                    }
                                }
                                assert(!cb.contains_key(q));
                            }
                        }
                        if forall|r: MortonRegion<M>, c: bool| explore.ensures((r,), c) ==> c {
                            assert(regions_of(out@) + regions_down(b.children, region@, i as nat)
                                =~= before + regions_down(b.children, region@, i as nat + 1));
                        }
                        assert forall|q: (nat, nat)|
                            #[trigger] cache@.contains_key(q) && !inside(q, region) implies c0.contains_key(q)
                            && cache@[q] == c0[q] by {
                            if inside(q, child_region) {
                                lemma_inside_child::<M>(q, l, pp, i as nat);
                            }
                        }
                        if exists|j: int| i <= j < 8 && #[trigger] entries(b.children[j], l + 1).len() > 0 {
                            if entries(b.children[i as int], l + 1).len() == 0 {
                                let j = choose|j: int|
                                    i <= j < 8 && #[trigger] entries(b.children[j], l + 1).len() > 0;
                                assert(i + 1 <= j);
                            }
                        }
                    }
                }
                proof {
                    assert(regions_of(out@) + regions_down(b.children, region@, 0) =~= regions_of(out@));
                    assert(region_pairs(out@) + gathers_down(*folder, b.children, region@, 0)
                        =~= region_pairs(out@));
                    if entries(*node, l).len() > 0 {
                        let j = choose|j: int|
                            0 <= j < 8 && #[trigger] entries(b.children[j], l + 1).len() > 0;
                    }
                }
            },
            Internal::Leaf(t, m) => {
                let item = match cache.get(&region, folder) {
                    Some(sum) => sum,
                    None => {
                        let sum = folder.gather(*m, t);
                        let ghost mid = cache@;
                        cache.insert(region, folder.copy_sum(&sum));
                        proof {
                            lemma_insert_frame(cache@, mid, region@, sum);
                            assert forall|q: (nat, nat)|
                                #[trigger] cache@.contains_key(q) && !inside(q, region) implies c0.contains_key(
                                q,
                            ) && cache@[q] == c0[q] by {
                                assert(q != region@);
                            }
                        }
                        sum
                    },
                };
                let ghost before = out@;
                proof {
                    lemma_reaches_leaf(root, *node, l, pp);
                }
                out.push((region, item));
                assert(regions_of(out@) =~= regions_of(before).push(region@));
                assert(out@.subrange(0, o0.len() as int) =~= o0);
                assert(lookup(root, *m, 0) == Option::Some(*t));
                assert(region_pairs(out@) =~= region_pairs(before).push((region@, item)));
            },
            Internal::Empty => {
                assert(out@.subrange(0, o0.len() as int) =~= o0);
                assert(regions_of(out@) =~= base + leaf_regions(*node, region@));
                assert(region_pairs(out@) =~= base_pairs + leaf_gathers(*folder, *node, region@));
            },
        }
    } else {
        let found = match cache.get(&region, folder) {
            Some(sum) => Some(sum),
            None => match fold_rand(node, region, depth, folder, cache, rng, Ghost(root)) {
                Some(item) => {
                    let ghost mid = cache@;
                    cache.insert(region, folder.copy_sum(&item));
                    proof {
                        lemma_insert_frame(cache@, mid, region@, item);
                        assert forall|q: (nat, nat)|
                            #[trigger] cache@.contains_key(q) && !inside(q, region) implies c0.contains_key(q)
                            && cache@[q] == c0[q] by {
                            assert(q != region@);
                            assert(mid.contains_key(q));
                        }
                    }
                    Some(item)
                },
                None => None,
            },
        };
        let ghost before = out@;
        match found {
            Some(sum) => {
                out.push((region, sum));
                assert(region_pairs(out@) =~= region_pairs(before).push((region@, sum)));
                assert(out@.subrange(0, o0.len() as int) =~= o0);
            },
            None => {
                assert(region_pairs(out@) =~= region_pairs(before) + Seq::empty());
                assert(out@.subrange(0, o0.len() as int) =~= o0);
            },
        }
    }
}

/// An octree that uses pointers for internal nodes.
#[verifier::reject_recursive_types(M)]
pub struct PointerOctree<T, M> {
    tree: Internal<T, M>,
    count: usize,
    contents: Ghost<Map<M, T>>,
}

impl<T, M: Morton> View for PointerOctree<T, M> {
    type V = Map<M, T>;

    /// The leaves: each key with its payload.
    closed spec fn view(&self) -> Map<M, T> {
        self.contents@
    }
}

impl<T, M: Morton> PointerOctree<T, M> {
    /// The tree holds exactly the leaves of its view, each reached by its key's digits, and
    /// `count` is their number.
    pub closed spec fn wf(&self) -> bool {
        &&& wf_node(self.tree, 0, 0)
        &&& self.contents@.dom().finite()
        &&& self.count == self.contents@.len()
        &&& forall|k: M| #[trigger] lookup(self.tree, k, 0) == map_get(self.contents@, k)
    }

    /// The root slot of the tree, for the contracts of the traversals.
    pub closed spec fn root(&self) -> Internal<T, M> {
        self.tree
    }

    /// Create an empty octree.
    pub fn new() -> (r: Self)
        ensures
            r.wf(),
            r@ == Map::<M, T>::empty(),
    {
        PointerOctree { tree: Internal::Empty, count: 0, contents: Ghost(Map::empty()) }
    }

    /// Fetches the item stored at `morton`.
    pub fn get(&self, morton: M) -> (r: Option<&T>)
        requires
            self.wf(),
        ensures
            match r {
                Option::Some(t) => self@.contains_key(morton) && *t == self@[morton],
                Option::None => !self@.contains_key(morton),
            },
    {
        let dim = M::dim_bits();
        let mut node = &self.tree;
        let mut level: usize = 0;
        assert(lookup(self.tree, morton, 0) == map_get(self@, morton));
        loop
            invariant
                level <= dim,
                dim == M::spec_dim_bits(),
                lookup(*node, morton, level as nat) == map_get(self@, morton),
            decreases dim - level,
        {
            match node {
                Internal::Node(b) => {
                    if level >= dim {
                        return None;
                    }
                    let d = morton.get_level(level);
                    node = &b.children[d];
                    level = level + 1;
                },
                Internal::Leaf(t, m) => {
                    if m.same(morton) {
                        return Some(t);
                    } else {
                        return None;
                    }
                },
                Internal::Empty => {
                    return None;
                },
            }
        }
    }

    /// Inserts `item` at `morton`, replacing the item already there, if any.
    pub fn insert(&mut self, morton: M, item: T)
        requires
            old(self).wf(),
            is_valid_key(morton),
            old(self)@.contains_key(morton) || old(self)@.len() < usize::MAX,
        ensures
            final(self).wf(),
            final(self)@ == old(self)@.insert(morton, item),
    {
        let mut tree = Internal::Empty;
        std::mem::swap(&mut tree, &mut self.tree);
        proof {
            M::lemma_model(morton, morton);
            vstd::arithmetic::power2::lemma2_to64();
            assert(prefix(morton.value(), M::spec_dim_bits(), 0) == 0) by {
                assert(morton.value() / pow8(M::spec_dim_bits()) == 0) by (nonlinear_arith)
                    requires
                        morton.value() < pow8(M::spec_dim_bits()),
                ;
            }
            assert(lookup(tree, morton, 0) == map_get(self@, morton));
        }
        let (tree, added) = insert_node(tree, morton, item, 0, Ghost(0));
        self.tree = tree;
        if added {
            self.count = self.count + 1;
        }
        self.contents = Ghost(self.contents@.insert(morton, item));
        proof {
            assert forall|k: M| #[trigger] lookup(self.tree, k, 0) == map_get(self.contents@, k) by {
                assert(lookup(self.tree, k, 0) == if k == morton {
                    Option::Some(item)
                } else {
                    lookup(old(self).tree, k, 0)
                });
                assert(lookup(old(self).tree, k, 0) == map_get(old(self)@, k));
            }
        }
    }

    /// Inserts each pair in order.
    pub fn extend(&mut self, items: Vec<(M, T)>)
        requires
            old(self).wf(),
            forall|i: int| 0 <= i < items.len() ==> is_valid_key(#[trigger] items@[i].0),
            old(self)@.len() + items.len() <= usize::MAX,
        ensures
            final(self).wf(),
            final(self)@ == insert_all(old(self)@, items@),
    {
        let ghost all = items@;
        let ghost start = self@;
        let ghost n = items.len();
        let mut items = items;
        while items.len() > 0
            invariant
                self.wf(),
                n == all.len(),
                items.len() <= n,
                items@ == all.subrange(n - items.len(), n as int),
                forall|i: int| 0 <= i < all.len() ==> is_valid_key(#[trigger] all[i].0),
                self@ == insert_all(start, all.subrange(0, n - items.len())),
                start.len() + n <= usize::MAX,
                self@.len() <= start.len() + (n - items.len()),
            decreases items.len(),
        {
            let ghost done = n - items.len();
            let (m, t) = items.remove(0);
            proof {
                assert(all[done] == (m, t));
                assert(all.subrange(0, done + 1).drop_last() =~= all.subrange(0, done as int));
                assert(items@ =~= all.subrange(n - items.len(), n as int));
            }
            self.insert(m, t);
        }
        assert(all.subrange(0, n as int) =~= all);
    }

    /// The item stored at `morton`, as `get`.
    pub fn get_mut(&mut self, morton: M) -> (r: Option<&T>)
        requires
            old(self).wf(),
        ensures
            *final(self) == *old(self),
            match r {
                Option::Some(t) => old(self)@.contains_key(morton) && *t == old(self)@[morton],
                Option::None => !old(self)@.contains_key(morton),
            },
    {
        self.get(morton)
    }

    /// Removes and returns the item at `morton`, if any. Nodes on its path are not pruned.
    pub fn remove(&mut self, morton: M) -> (r: Option<T>)
        requires
            old(self).wf(),
        ensures
            final(self).wf(),
            r == map_get(old(self)@, morton),
            final(self)@ == old(self)@.remove(morton),
    {
        let mut tree = Internal::Empty;
        std::mem::swap(&mut tree, &mut self.tree);
        proof {
            assert(lookup(tree, morton, 0) == map_get(self@, morton));
        }
        let (tree, removed) = remove_node(tree, morton, 0, Ghost(0));
        self.tree = tree;
        if removed.is_some() {
            self.count = self.count - 1;
        }
        self.contents = Ghost(self.contents@.remove(morton));
        proof {
            assert forall|k: M| #[trigger] lookup(self.tree, k, 0) == map_get(self.contents@, k) by {
                assert(lookup(old(self).tree, k, 0) == map_get(old(self)@, k));
            }
        }
        removed
    }

    /// The leaves in depth-first order: the sequence of a traversal that visits children in
    /// index order.
    pub closed spec fn spec_entries(&self) -> Seq<(M, T)> {
        entries(self.tree, 0)
    }

    /// A traversal meets every leaf of the tree once: the keys are distinct, each pair is in the
    /// view, every key of the view occurs, and there are `len` of them.
    pub proof fn lemma_entries_cover(&self)
        requires
            self.wf(),
        ensures
            self.spec_entries().len() == self@.len(),
            forall|j: int|
                0 <= j < self.spec_entries().len() ==> self@.contains_key(
                    #[trigger] self.spec_entries()[j].0,
                ) && self@[self.spec_entries()[j].0] == self.spec_entries()[j].1,
            forall|j1: int, j2: int|
                0 <= j1 < self.spec_entries().len() && 0 <= j2 < self.spec_entries().len() && j1
                    != j2 ==> #[trigger] self.spec_entries()[j1].0
                    != #[trigger] self.spec_entries()[j2].0,
            forall|k: M| #[trigger]
                self@.contains_key(k) ==> exists|j: int|
                    0 <= j < self.spec_entries().len() && self.spec_entries()[j].0 == k,
    {
        let e = self.spec_entries();
        lemma_entries(self.tree, 0, 0);
        assert forall|j: int| 0 <= j < e.len() implies self@.contains_key(#[trigger] e[j].0)
            && self@[e[j].0] == e[j].1 by {
            assert(lookup(self.tree, e[j].0, 0) == map_get(self@, e[j].0));
        }
        assert forall|k: M| #[trigger] self@.contains_key(k) implies exists|j: int|
            0 <= j < e.len() && e[j].0 == k by {
            assert(lookup(self.tree, k, 0) == map_get(self@, k));
        }
        let keys = e.map_values(|p: (M, T)| p.0);
        assert forall|j1: int, j2: int| 0 <= j1 < keys.len() && 0 <= j2 < keys.len() && j1 != j2
            implies keys[j1] != keys[j2] by {
            assert(keys[j1] == e[j1].0 && keys[j2] == e[j2].0);
        }
        assert(keys.no_duplicates());
        keys.unique_seq_to_set();
        assert forall|k: M| keys.to_set().contains(k) <==> self@.dom().contains(k) by {
            if keys.to_set().contains(k) {
                let j = choose|j: int| 0 <= j < keys.len() && keys[j] == k;
                assert(e[j].0 == k);
            }
            if self@.dom().contains(k) {
                assert(self@.contains_key(k));
                let j = choose|j: int| 0 <= j < e.len() && e[j].0 == k;
                assert(keys[j] == k);
            }
        }
        assert(keys.to_set() =~= self@.dom());
    }

    /// Every leaf with its key, in depth-first order with children in index order.
    pub fn iter(&self) -> (r: Vec<(M, &T)>)
        requires
            self.wf(),
        ensures
            deref_pairs(r@) == self.spec_entries(),
            r.len() == self@.len(),
            forall|j1: int, j2: int|
                0 <= j1 < j2 < r.len() ==> (#[trigger] r[j1]).0.value() < (#[trigger] r[j2]).0.value(),
            forall|j: int|
                0 <= j < r.len() ==> self@.contains_key(#[trigger] r[j].0) && self@[r[j].0]
                    == *r[j].1,
            forall|j1: int, j2: int|
                0 <= j1 < r.len() && 0 <= j2 < r.len() && j1 != j2 ==> #[trigger] r[j1].0
                    != #[trigger] r[j2].0,
            forall|k: M| #[trigger]
                self@.contains_key(k) ==> exists|j: int| 0 <= j < r.len() && r[j].0 == k,
            r@.map_values(|e: (M, &T)| e.0).to_set() == self@.dom(),
    {
        let mut out: Vec<(M, &T)> = Vec::new();
        collect_entries(&self.tree, 0, &mut out);
        proof {
            self.lemma_entries_cover();
            lemma_entries_sorted(self.tree, 0, 0);
            let e = self.spec_entries();
            assert(deref_pairs(out@) =~= e);
            assert forall|j: int| 0 <= j < out.len() implies e[j].0 == #[trigger] out@[j].0
                && e[j].1 == *out@[j].1 by {
                assert(deref_pairs(out@)[j] == (out@[j].0, *out@[j].1));
            }
            assert forall|k: M| #[trigger] self@.contains_key(k) implies exists|j: int|
                0 <= j < out.len() && out@[j].0 == k by {
                let j = choose|j: int| 0 <= j < e.len() && e[j].0 == k;
                assert(e[j].0 == out@[j].0);
            }
            let ks = out@.map_values(|x: (M, &T)| x.0);
            assert forall|k: M| ks.to_set().contains(k) <==> self@.dom().contains(k) by {
                if ks.to_set().contains(k) {
                    let j = choose|j: int| 0 <= j < ks.len() && ks[j] == k;
                    assert(out@[j].0 == k);
                }
                if self@.dom().contains(k) {
                    assert(self@.contains_key(k));
                    let j = choose|j: int| 0 <= j < out.len() && out@[j].0 == k;
                    assert(ks[j] == k);
                }
            }
            assert(ks.to_set() =~= self@.dom());
        }
        out
    }

    /// Every region that holds a leaf, with its summary: a leaf region gets `gather` of its leaf,
    /// another region `fold` of the summaries of its non-empty children in index order. The
    /// regions below the root come first, the root last.
    pub fn collect_fold<F: Folder<T, M>>(&self, folder: &F) -> (r: Vec<(MortonRegion<M>, F::Sum)>)
        requires
            self.wf(),
        ensures
            region_pairs(r@) == fold_list(*folder, self.root(), (0nat, 0nat)) + match fold_sum(
                *folder,
                self.root(),
                0,
            ) {
                Option::Some(s) => seq![((0nat, 0nat), s)],
                Option::None => Seq::empty(),
            },
    {
        let mut out: Vec<(MortonRegion<M>, F::Sum)> = Vec::new();
        let base = MortonRegion::base();
        let top = collect_node(&self.tree, base, folder, &mut out);
        let ghost before = out@;
        match top {
            Some(s) => {
                out.push((base, s));
                assert(region_pairs(out@) =~= region_pairs(before).push((base@, s)));
            },
            None => {},
        }
        out
    }

    /// Counting leaves with the fold gives the tree's length at the root: the summary of the root
    /// under the counting folder is `len`, and there is none only for an empty tree.
    pub proof fn lemma_count_fold(&self)
        requires
            self.wf(),
        ensures
            fold_sum(CountFolder, self.root(), 0) == if self@.len() > 0 {
                Option::Some(self@.len() as usize)
            } else {
                Option::None
            },
    {
        self.lemma_entries_cover();
        lemma_count_node(self.tree, 0);
    }

    /// Samples the tree: down to `depth` every node is visited, below it one leaf stands for each
    /// node of level `depth` (see `rand_visit`). Every pair returned is a leaf of the tree, and
    /// there are at most `8^depth` of them.
    pub fn iter_rand(&self, depth: usize, rng: &mut SmallRng) -> (r: Vec<(M, &T)>)
        requires
            self.wf(),
        ensures
            r.len() <= pow8(depth as nat),
            forall|j1: int, j2: int|
                0 <= j1 < r.len() && 0 <= j2 < r.len() && j1 != j2 ==> (#[trigger] r@[j1]).0 != (
                #[trigger] r@[j2]).0,
            self@.len() > 0 ==> r.len() > 0,
            depth == 0 ==> r.len() == if self@.len() > 0 {
                1int
            } else {
                0int
            },
            depth >= M::spec_dim_bits() ==> deref_pairs(r@) == self.spec_entries(),
            forall|j: int|
                0 <= j < r.len() ==> self@.contains_key(#[trigger] r@[j].0) && self@[r@[j].0]
                    == *r@[j].1,
    {
        let mut out: Vec<(M, &T)> = Vec::new();
        rand_visit(&self.tree, 0, depth, rng, &mut out, Ghost(self.tree), Ghost(0));
        proof {
            vstd::arithmetic::power2::lemma2_to64();
            assert(depth - 0 == depth);
            assert(deref_pairs(Seq::<(M, &T)>::empty()) =~= Seq::<(M, T)>::empty());
            self.lemma_entries_cover();

            assert forall|j: int| 0 <= j < out.len() implies self@.contains_key(#[trigger] out@[j].0)
                && self@[out@[j].0] == *out@[j].1 by {
                assert(lookup(self.tree, out@[j].0, 0) == map_get(self@, out@[j].0));
            }
        }
        out
    }

    /// Explores the tree from the root: at a node where `explore` is true the children are
    /// explored, last index first; where it is false the node's first leaf in depth-first order
    /// is returned with the node's region; a leaf is returned with its region. Every key and item
    /// returned is a leaf of the tree.
    pub fn iter_explore_simple<E: Fn(MortonRegion<M>) -> bool>(&self, explore: E) -> (r: Vec<
        (MortonRegion<M>, M, &T),
    >)
        requires
            self.wf(),
            forall|r: MortonRegion<M>| explore.requires((r,)),
        ensures
            forall|j: int|
                0 <= j < r.len() ==> self@.contains_key(#[trigger] r@[j].1) && self@[r@[j].1]
                    == *r@[j].2,
            (forall|x: MortonRegion<M>, b: bool| explore.ensures((x,), b) ==> b) ==> stop_regions(r@)
                == leaf_regions(self.root(), (0nat, 0nat)) && r.len() == self@.len(),
            forall|j: int|
                0 <= j < r.len() ==> (#[trigger] r@[j]).0.wf() && prefix(
                    r@[j].1.value(),
                    M::spec_dim_bits(),
                    r@[j].0.level as nat,
                ) == r@[j].0.path(),
            self@.len() > 0 ==> r.len() > 0,
            (forall|x: MortonRegion<M>, b: bool| explore.ensures((x,), b) ==> !b) && self@.len() > 0
                ==> r.len() == 1 && r@[0].0 == MortonRegion::<M>::base_spec() && r@[0].1
                == self.spec_entries()[0].0 && *r@[0].2 == self.spec_entries()[0].1,
    {
        let mut out: Vec<(MortonRegion<M>, M, &T)> = Vec::new();
        proof {
            assert forall|k: M|
                prefix(k.value(), M::spec_dim_bits(), 0) == 0 implies #[trigger] lookup(
                self.tree,
                k,
                0,
            ) == lookup(self.tree, k, 0) by {}
        }
        let base = MortonRegion::base();
        explore_visit(&self.tree, base, &explore, &mut out, Ghost(self.tree));
        proof {
            self.lemma_entries_cover();
            assert(out@.subrange(0, 0) =~= Seq::<(MortonRegion<M>, M, &T)>::empty());
            if self@.len() > 0 {
                assert(!(self.tree is Empty));
            }
            assert(stop_regions(Seq::<(MortonRegion<M>, M, &T)>::empty()) =~= Seq::<(nat, nat)>::empty());
            self.lemma_entries_cover();
            lemma_leaf_regions_len(self.tree, (0nat, 0nat));
            assert(stop_regions(out@).len() == out.len());
            assert forall|j: int| 0 <= j < out.len() implies self@.contains_key(#[trigger] out@[j].1)
                && self@[out@[j].1] == *out@[j].2 by {
                assert(lookup(self.tree, out@[j].1, 0) == map_get(self@, out@[j].1));
            }
        }
        out
    }

    /// Folds the tree exploring every node: each leaf is returned with its region and its summary,
    /// taken from `cache` where it is there and cached otherwise. Children come last index first.
    pub fn iter_fold<F: Folder<T, M>>(&self, folder: &F, cache: &mut RegionCache<M, F::Sum>) -> (r:
        Vec<(MortonRegion<M>, F::Sum)>)
        requires
            self.wf(),
        ensures
            final(cache).capacity() == old(cache).capacity(),
            forall|j: int| 0 <= j < r.len() ==> (#[trigger] r@[j]).0.wf(),
            regions_of(r@) == leaf_regions(self.root(), (0nat, 0nat)),
            r.len() == self@.len(),
            old(cache)@ == Map::<(nat, nat), F::Sum>::empty() ==> region_pairs(r@) == leaf_gathers(
                *folder,
                self.root(),
                (0nat, 0nat),
            ),
    {
        let mut rng = fresh_rng();
        let always = (|_r: MortonRegion<M>| -> (b: bool)
            ensures
                b,
            { true });
        let r = self.iter_fold_random(M::dim_bits(), always, folder, &mut rng, cache);
        proof {
            self.lemma_entries_cover();
            lemma_leaf_regions_len(self.tree, (0nat, 0nat));
            assert(regions_of(r@).len() == r.len());
        }
        r
    }

    /// Folds the tree exploring the nodes where `explore` is true; where it is false the region
    /// is returned with a summary sampled `depth` levels down (see `fold_rand`). Summaries come
    /// from `cache` where they are there and are cached otherwise.
    pub fn iter_fold_random<E: Fn(MortonRegion<M>) -> bool, F: Folder<T, M>>(
        &self,
        depth: usize,
        explore: E,
        folder: &F,
        rng: &mut SmallRng,
        cache: &mut RegionCache<M, F::Sum>,
    ) -> (r: Vec<(MortonRegion<M>, F::Sum)>)
        requires
            self.wf(),
            forall|r: MortonRegion<M>| explore.requires((r,)),
        ensures
            forall|j: int| 0 <= j < r.len() ==> (#[trigger] r@[j]).0.wf(),
            final(cache).capacity() == old(cache).capacity(),
            self@.len() > 0 ==> r.len() > 0,
            self@.len() == 0 && old(cache)@ == Map::<(nat, nat), F::Sum>::empty() ==> r.len() == 0,
            old(cache)@.contains_key((0nat, 0nat)) && (forall|b: bool|
                explore.ensures((MortonRegion::<M>::base_spec(),), b) ==> !b) ==> region_pairs(r@)
                == seq![((0nat, 0nat), old(cache)@[(0nat, 0nat)])],
            forall|j: int|
                0 <= j < r.len() ==> explore.ensures(((#[trigger] r@[j]).0,), false) || (
                explore.ensures((r@[j].0,), true) && exists|k: M|
                    self@.contains_key(k) && prefix(k.value(), M::spec_dim_bits(), r@[j].0.level as nat)
                        == r@[j].0.path()),
            (forall|x: MortonRegion<M>, b: bool| explore.ensures((x,), b) ==> b) && old(cache)@ == Map::<
                (nat, nat),
                F::Sum,
            >::empty() ==> region_pairs(r@) == leaf_gathers(*folder, self.root(), (0nat, 0nat)),
            (forall|x: MortonRegion<M>, b: bool| explore.ensures((x,), b) ==> !b) && old(cache)@
                == Map::<(nat, nat), F::Sum>::empty() && depth >= M::spec_dim_bits() ==> region_pairs(
                r@,
            ) == match fold_sum(*folder, self.root(), 0) {
                Option::Some(s) => seq![((0nat, 0nat), s)],
                Option::None => Seq::empty(),
            },
            (forall|x: MortonRegion<M>, b: bool| explore.ensures((x,), b) ==> b) ==> regions_of(r@)
                == leaf_regions(self.root(), (0nat, 0nat)),
    {
        let mut out: Vec<(MortonRegion<M>, F::Sum)> = Vec::new();
        proof {
            assert forall|k: M|
                prefix(k.value(), M::spec_dim_bits(), 0) == 0 implies #[trigger] lookup(
                self.tree,
                k,
                0,
            ) == lookup(self.tree, k, 0) by {}
        }
        fold_visit(&self.tree, MortonRegion::base(), depth, &explore, folder, cache, rng, &mut out, Ghost(self.tree));
        assert(regions_of(Seq::<(MortonRegion<M>, F::Sum)>::empty()) =~= Seq::<(nat, nat)>::empty());
        assert(region_pairs(Seq::<(MortonRegion<M>, F::Sum)>::empty()) =~= Seq::<((nat, nat), F::Sum)>::empty());
        proof {
            self.lemma_entries_cover();
            assert forall|j: int|
                0 <= j < out.len() implies explore.ensures(((#[trigger] out@[j]).0,), false) || (
                explore.ensures((out@[j].0,), true) && exists|k: M|
                    self@.contains_key(k) && prefix(k.value(), M::spec_dim_bits(), out@[j].0.level as nat)
                        == out@[j].0.path()) by {
                if !explore.ensures((out@[j].0,), false) {
                    let (k, t) = choose|k: M, t: T|
                        lookup(self.tree, k, 0) == Option::Some(t) && prefix(
                            k.value(),
                            M::spec_dim_bits(),
                            out@[j].0.level as nat,
                        ) == out@[j].0.path();
                    assert(lookup(self.tree, k, 0) == map_get(self@, k));
                    assert(self@.contains_key(k));
                }
            }
        }
        out
    }

    /// The view of a valid tree is finite.
    pub proof fn lemma_finite(&self)
        requires
            self.wf(),
        ensures
            self@.dom().finite(),
    {
    }

    /// The number of leaves in the tree.
    pub fn len(&self) -> (r: usize)
        requires
            self.wf(),
        ensures
            r == self@.len(),
            self@.dom().finite(),
    {
        self.count
    }

    /// Whether the tree holds no leaf.
    pub fn is_empty(&self) -> (r: bool)
        requires
            self.wf(),
        ensures
            r == (self@.len() == 0),
    {
        self.count == 0
    }
}

} // verus!
