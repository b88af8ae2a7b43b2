//! Dependency forest over opaque payloads: nodes are added once, edges mark
//! one payload as the prerequisite (parent) of another, and the structure is
//! finally decomposed into prerequisite-first build chains.
//!
//! The parent relation is kept terminating: a node has at most one parent,
//! and an edge that closes a cycle is reported (the edge stays linked, so a
//! cycle report means the graph is corrupt and must be discarded).

use vstd::prelude::*;
use vstd::seq_lib::*;
use vstd::set_lib::*;

use crate::error::GraphError;
use crate::text::str_eq;

verus! {

/// What a graph needs of its payload type: a decidable equality used for
/// node lookup, and an exact duplication.
pub trait GraphData: Sized {
    /// The equality by which payloads are looked up.
    spec fn gd_eq(&self, other: &Self) -> bool;

    /// `gd_eq` is reflexive.
    proof fn gd_eq_refl(&self)
        ensures
            self.gd_eq(self),
    ;

    /// Decides `gd_eq`.
    fn same(&self, other: &Self) -> (r: bool)
        ensures
            r == self.gd_eq(other),
    ;

    /// An exact duplicate of the payload.
    fn duplicate(&self) -> (r: Self)
        ensures
            r == *self,
    ;
}

/// Mathematical model of a graph: payloads in insertion order, per-node
/// child indices, per-node optional parent index.
pub struct GraphView<T> {
    pub nodes: Seq<T>,
    pub children: Seq<Seq<usize>>,
    pub parents: Seq<Option<usize>>,
}

/// Every parent index stored in `p` is below `n`.
pub open spec fn parents_in_range(p: Seq<Option<usize>>, n: nat) -> bool {
    forall|i: int| 0 <= i < p.len() ==> (match #[trigger] p[i] {
        Some(q) => (q as nat) < n,
        None => true,
    })
}

impl<T> GraphView<T> {
    /// Structural well-formedness: the three columns have equal length and
    /// every stored index is in range.
    pub open spec fn wf(self) -> bool {
        &&& self.children.len() == self.nodes.len()
        &&& self.parents.len() == self.nodes.len()
        &&& parents_in_range(self.parents, self.nodes.len())
        &&& forall|i: int, k: int|
            0 <= i < self.children.len() && 0 <= k < self.children[i].len()
                ==> (self.children[i][k] as nat) < self.nodes.len()
    }
}

/// Following parent pointers from `i` reaches a root (a node with no
/// parent) in fewer than `fuel` steps.  Out-of-range starts count as done.
pub open spec fn reaches_root(p: Seq<Option<usize>>, i: int, fuel: nat) -> bool
    decreases fuel,
{
    if fuel == 0 {
        false
    } else if 0 <= i < p.len() {
        match p[i] {
            None => true,
            Some(q) => reaches_root(p, q as int, (fuel - 1) as nat),
        }
    } else {
        true
    }
}

/// The parent relation terminates from every node: the forest invariant.
pub open spec fn acyclic(p: Seq<Option<usize>>) -> bool {
    forall|i: int| 0 <= i < p.len() ==> #[trigger] reaches_root(p, i, p.len() + 1)
}

/// The nodes visited when following parent pointers from `i`, starting
/// with `i` itself, as far as `fuel` reaches.
pub open spec fn root_path(p: Seq<Option<usize>>, i: int, fuel: nat) -> Seq<int>
    decreases fuel,
{
    if fuel == 0 {
        Seq::empty()
    } else if 0 <= i < p.len() {
        match p[i] {
            None => seq![i],
            Some(q) => seq![i] + root_path(p, q as int, (fuel - 1) as nat),
        }
    } else {
        seq![i]
    }
}

pub proof fn lemma_rr_mono(p: Seq<Option<usize>>, i: int, f1: nat, f2: nat)
    requires
        reaches_root(p, i, f1),
        f1 <= f2,
    ensures
        reaches_root(p, i, f2),
    decreases f1,
{
    if 0 <= i < p.len() {
        match p[i] {
            None => {},
            Some(q) => {
                lemma_rr_mono(p, q as int, (f1 - 1) as nat, (f2 - 1) as nat);
            },
        }
    }
}

/// The root path does not depend on the fuel, as long as the fuel suffices.
pub proof fn lemma_rpath_fuel_irrel(p: Seq<Option<usize>>, i: int, f1: nat, f2: nat)
    requires
        reaches_root(p, i, f1),
        reaches_root(p, i, f2),
    ensures
        root_path(p, i, f1) == root_path(p, i, f2),
    decreases f1,
{
    if 0 <= i < p.len() {
        match p[i] {
            None => {},
            Some(q) => {
                lemma_rpath_fuel_irrel(p, q as int, (f1 - 1) as nat, (f2 - 1) as nat);
            },
        }
    }
}

/// Shape of the root path: starts at `i`, stays in range, follows the
/// parent pointers, ends at a root, and witnesses its own length as fuel.
pub proof fn lemma_rpath_basic(p: Seq<Option<usize>>, i: int, f: nat)
    requires
        reaches_root(p, i, f),
        0 <= i < p.len(),
        parents_in_range(p, p.len()),
    ensures
        ({
            let pth = root_path(p, i, f);
            &&& 1 <= pth.len() <= f
            &&& pth[0] == i
            &&& forall|t: int| 0 <= t < pth.len() ==> 0 <= #[trigger] pth[t] < p.len()
            &&& forall|t: int|
                0 <= t < pth.len() - 1 ==> p[#[trigger] pth[t]] == Some(pth[t + 1] as usize)
            &&& p[pth.last()] is None
            &&& reaches_root(p, i, pth.len())
        }),
    decreases f,
{
    match p[i] {
        None => {},
        Some(q) => {
            lemma_rpath_basic(p, q as int, (f - 1) as nat);
            let tail = root_path(p, q as int, (f - 1) as nat);
            let pth = root_path(p, i, f);
            assert(pth == seq![i] + tail);
            assert(pth.last() == tail.last());
            assert forall|t: int| 0 <= t < pth.len() - 1 implies p[#[trigger] pth[t]] == Some(
                pth[t + 1] as usize,
            ) by {
                if t > 0 {
                    assert(pth[t] == tail[t - 1]);
                    assert(pth[t + 1] == tail[t]);
                }
            }
            lemma_rr_mono(p, q as int, tail.len(), (pth.len() - 1) as nat);
        },
    }
}

/// Every suffix of a root path is itself the root path of its first node.
pub proof fn lemma_rpath_suffix(p: Seq<Option<usize>>, i: int, f: nat, t: int)
    requires
        reaches_root(p, i, f),
        0 <= i < p.len(),
        parents_in_range(p, p.len()),
        0 <= t < root_path(p, i, f).len(),
    ensures
        reaches_root(p, root_path(p, i, f)[t], (f - t) as nat),
        root_path(p, root_path(p, i, f)[t], (f - t) as nat) == root_path(p, i, f).skip(t),
    decreases t,
{
    let pth = root_path(p, i, f);
    if t == 0 {
        assert(pth.skip(0) =~= pth);
    } else {
        match p[i] {
            None => {},
            Some(q) => {
                let tail = root_path(p, q as int, (f - 1) as nat);
                assert(pth == seq![i] + tail);
                lemma_rpath_basic(p, q as int, (f - 1) as nat);
                lemma_rpath_suffix(p, q as int, (f - 1) as nat, t - 1);
                assert(pth[t] == tail[t - 1]);
                assert(pth.skip(t) =~= tail.skip(t - 1));
            },
        }
    }
}

/// A root path never revisits a node.
pub proof fn lemma_rpath_distinct(p: Seq<Option<usize>>, i: int, f: nat)
    requires
        reaches_root(p, i, f),
        0 <= i < p.len(),
        parents_in_range(p, p.len()),
    ensures
        root_path(p, i, f).no_duplicates(),
    decreases f,
{
    let pth = root_path(p, i, f);
    match p[i] {
        None => {},
        Some(q) => {
            let tail = root_path(p, q as int, (f - 1) as nat);
            lemma_rpath_basic(p, q as int, (f - 1) as nat);
            lemma_rpath_distinct(p, q as int, (f - 1) as nat);
            assert(pth == seq![i] + tail);
            if tail.contains(i) {
                let t = choose|t: int| 0 <= t < tail.len() && tail[t] == i;
                assert(pth[t + 1] == i);
                lemma_rpath_suffix(p, i, f, t + 1);
                lemma_rpath_fuel_irrel(p, i, f, (f - (t + 1)) as nat);
                assert(pth.skip(t + 1) == pth);
                assert(pth.skip(t + 1).len() == pth.len() - (t + 1));
                assert(false);
            }
            assert forall|a: int, b: int|
                0 <= a < pth.len() && 0 <= b < pth.len() && a != b implies pth[a] != pth[b] by {
                if a > 0 && b > 0 {
                    assert(pth[a] == tail[a - 1]);
                    assert(pth[b] == tail[b - 1]);
                } else if a == 0 && b > 0 {
                    assert(pth[b] == tail[b - 1]);
                    assert(tail.contains(pth[b])) by {
                        if pth[b] == i {
                            assert(tail[b - 1] == i);
                        }
                    }
                } else if b == 0 && a > 0 {
                    assert(pth[a] == tail[a - 1]);
                    if pth[a] == i {
                        assert(tail[a - 1] == i);
                        assert(tail.contains(i));
                    }
                }
            }
        },
    }
}

/// If a node reaches a root at all, it does so within `p.len() + 1` fuel:
/// the fuel in the forest invariant is enough for every terminating walk.
pub proof fn lemma_rr_compress(p: Seq<Option<usize>>, i: int, f: nat)
    requires
        reaches_root(p, i, f),
        0 <= i < p.len(),
        parents_in_range(p, p.len()),
    ensures
        reaches_root(p, i, p.len() + 1),
{
    let pth = root_path(p, i, f);
    lemma_rpath_basic(p, i, f);
    lemma_rpath_distinct(p, i, f);
    pth.unique_seq_to_set();
    assert(pth.to_set().subset_of(set_int_range(0, p.len() as int))) by {
        assert forall|x: int| pth.to_set().contains(x) implies set_int_range(
            0,
            p.len() as int,
        ).contains(x) by {
            let t = choose|t: int| 0 <= t < pth.len() && pth[t] == x;
        }
    }
    lemma_int_range(0, p.len() as int);
    lemma_len_subset(pth.to_set(), set_int_range(0, p.len() as int));
    assert(pth.len() <= p.len());
    lemma_rr_mono(p, i, pth.len(), p.len() + 1);
}

/// Changing the parent pointer of one node `c` keeps every walk
/// terminating, provided the walk out of `c` itself terminates: any old
/// walk either avoids `c` (and is unchanged) or runs through `c` and then
/// follows the new, terminating walk.
pub proof fn lemma_rr_update(
    p0: Seq<Option<usize>>,
    p1: Seq<Option<usize>>,
    c: int,
    i: int,
    f: nat,
    g: nat,
)
    requires
        p0.len() == p1.len(),
        forall|j: int| 0 <= j < p0.len() && j != c ==> p0[j] == p1[j],
        reaches_root(p0, i, f),
        reaches_root(p1, c, g),
    ensures
        reaches_root(p1, i, f + g),
    decreases f,
{
    if i == c {
        lemma_rr_mono(p1, c, g, f + g);
    } else if 0 <= i < p0.len() {
        match p0[i] {
            None => {},
            Some(q) => {
                lemma_rr_update(p0, p1, c, q as int, (f - 1) as nat, g);
            },
        }
    }
}

/// Appending a parentless node leaves every existing walk unchanged.
pub proof fn lemma_rr_push(p: Seq<Option<usize>>, x: Option<usize>, i: int, f: nat)
    requires
        reaches_root(p, i, f),
        parents_in_range(p, p.len()),
        0 <= i < p.len(),
    ensures
        reaches_root(p.push(x), i, f),
    decreases f,
{
    match p[i] {
        None => {},
        Some(q) => {
            lemma_rr_push(p, x, q as int, (f - 1) as nat);
        },
    }
}

/// A set of nodes each of whose members has a parent inside the set again.
pub open spec fn closed_under_parent(p: Seq<Option<usize>>, s: Set<int>) -> bool {
    forall|x: int| s.contains(x) ==> 0 <= x < p.len() && (match p[x] {
        Some(q) => s.contains(q as int),
        None => false,
    })
}

/// No walk out of such a set ever reaches a root: the cycle argument.
pub proof fn lemma_closed_no_rr(p: Seq<Option<usize>>, s: Set<int>, i: int, f: nat)
    requires
        closed_under_parent(p, s),
        s.contains(i),
    ensures
        !reaches_root(p, i, f),
    decreases f,
{
    if f > 0 {
        match p[i] {
            Some(q) => {
                lemma_closed_no_rr(p, s, q as int, (f - 1) as nat);
            },
            None => {},
        }
    }
}

/// A recorded walk that ends at a root witnesses `reaches_root` for its
/// first node, with its own length as fuel.
pub proof fn lemma_linked_rr(p: Seq<Option<usize>>, pth: Seq<usize>)
    requires
        pth.len() >= 1,
        forall|t: int| 0 <= t < pth.len() ==> (#[trigger] pth[t] as nat) < p.len(),
        forall|t: int| 0 <= t < pth.len() - 1 ==> p[#[trigger] pth[t] as int] == Some(pth[t + 1]),
        p[pth.last() as int] is None,
    ensures
        reaches_root(p, pth[0] as int, pth.len()),
    decreases pth.len(),
{
    if pth.len() == 1 {
    } else {
        let tail = pth.skip(1);
        assert(forall|t: int| 0 <= t < tail.len() ==> tail[t] == pth[t + 1]);
        assert(tail.last() == pth.last());
        lemma_linked_rr(p, tail);
        assert(p[pth[0] as int] == Some(pth[1]));
        assert(tail[0] == pth[1]);
    }
}

/// Index of the first payload equal (by `gd_eq`) to `x`, if any.
pub open spec fn find_idx<T: GraphData>(nodes: Seq<T>, x: T) -> Option<int>
    decreases nodes.len(),
{
    if nodes.len() == 0 {
        None
    } else if nodes[0].gd_eq(&x) {
        Some(0)
    } else {
        match find_idx(nodes.skip(1), x) {
            Some(i) => Some(i + 1),
            None => None,
        }
    }
}

pub proof fn lemma_find_idx<T: GraphData>(nodes: Seq<T>, x: T)
    ensures
        match find_idx(nodes, x) {
            Some(i) => 0 <= i < nodes.len() && nodes[i].gd_eq(&x) && (forall|j: int|
                0 <= j < i ==> !(#[trigger] nodes[j]).gd_eq(&x)),
            None => forall|j: int| 0 <= j < nodes.len() ==> !(#[trigger] nodes[j]).gd_eq(&x),
        },
    decreases nodes.len(),
{
    if nodes.len() != 0 && !nodes[0].gd_eq(&x) {
        lemma_find_idx(nodes.skip(1), x);
        let tail = nodes.skip(1);
        assert(forall|j: int| 0 <= j < tail.len() ==> tail[j] == nodes[j + 1]);
        match find_idx(tail, x) {
            Some(i) => {
                assert(nodes[i + 1] == tail[i]);
                assert forall|j: int| 0 <= j < i + 1 implies !(#[trigger] nodes[j]).gd_eq(&x) by {
                    if j > 0 {
                        assert(nodes[j] == tail[j - 1]);
                    }
                }
            },
            None => {
                assert forall|j: int| 0 <= j < nodes.len() implies !(#[trigger] nodes[j]).gd_eq(
                    &x,
                ) by {
                    if j > 0 {
                        assert(nodes[j] == tail[j - 1]);
                    }
                }
            },
        }
    }
}

/// A vector of machine integers views the same through `deep_view` and
/// through `view`.
pub broadcast proof fn lemma_vec_usize_deep_view(v: Vec<usize>)
    ensures
        #[trigger] v.deep_view() == v@,
{
    assert(v.deep_view() =~= v@);
}

/// A walk that revisits a node shows that its starting node no longer
/// reaches a root: the nodes from the first occurrence of the revisited
/// node onward form a set closed under the parent relation.
pub proof fn lemma_walk_revisit(p1: Seq<Option<usize>>, path: Seq<usize>, next: usize, t: int)
    requires
        p1.len() <= usize::MAX,
        path.len() >= 1,
        forall|k: int| 0 <= k < path.len() ==> (#[trigger] path[k] as nat) < p1.len(),
        forall|k: int| 0 <= k < path.len() - 1 ==> p1[#[trigger] path[k] as int] == Some(path[k + 1]),
        p1[path.last() as int] == Some(next),
        0 <= t < path.len(),
        path[t] == next,
    ensures
        !reaches_root(p1, path[0] as int, p1.len() + 1),
{
    let pin = path.map_values(|x: usize| x as int);
    assert(pin.len() == path.len());
    assert(forall|k: int| 0 <= k < pin.len() ==> pin[k] == path[k] as int);
    let cur = path.last();
    let s = pin.skip(t).to_set();
    assert(closed_under_parent(p1, s)) by {
        assert forall|x: int| s.contains(x) implies 0 <= x < p1.len() && (match p1[x] {
            Some(q) => s.contains(q as int),
            None => false,
        }) by {
            let k = choose|k: int| 0 <= k < pin.skip(t).len() && pin.skip(t)[k] == x;
            assert(pin.skip(t)[k] == pin[t + k]);
            assert(x == path[t + k] as int);
            if t + k < path.len() - 1 {
                assert(p1[x] == Some(path[t + k + 1]));
                assert(pin.skip(t)[k + 1] == path[t + k + 1] as int);
                assert(s.contains(path[t + k + 1] as int));
            } else {
                assert(path[t + k] == cur);
                assert(p1[x] == Some(next));
                assert(pin.skip(t)[0] == path[t] as int);
                assert(s.contains(next as int));
            }
        }
    }
    assert(s.contains(next as int)) by {
        assert(pin.skip(t)[0] == pin[t]);
    }
    if reaches_root(p1, path[0] as int, p1.len() + 1) {
        assert(pin[0] == path[0] as int);
        lemma_rr_along_links(p1, pin, p1.len() + 1);
        assert(pin.last() == cur as int);
        assert(p1[cur as int] == Some(next));
        let rem = (p1.len() + 1 - (pin.len() - 1)) as nat;
        assert(reaches_root(p1, cur as int, rem));
        assert(rem >= 1);
        assert(reaches_root(p1, next as int, (rem - 1) as nat));
        lemma_closed_no_rr(p1, s, next as int, (rem - 1) as nat);
        assert(false);
    }
}

/// Pairwise-distinct entries, phrased over ordered index pairs.
pub open spec fn distinct_usizes(s: Seq<usize>) -> bool {
    forall|a: int, b: int| #![trigger s[a], s[b]] 0 <= a < b < s.len() ==> s[a] != s[b]
}

/// Distinct indices below `n` cannot number more than `n`.
pub proof fn lemma_distinct_bounded(s: Seq<usize>, n: nat)
    requires
        distinct_usizes(s),
        forall|t: int| 0 <= t < s.len() ==> (#[trigger] s[t] as nat) < n,
    ensures
        s.len() <= n,
{
    let si = s.map_values(|x: usize| x as int);
    assert(si.no_duplicates()) by {
        assert forall|a: int, b: int|
            0 <= a < si.len() && 0 <= b < si.len() && a != b implies si[a] != si[b] by {
            if a < b {
                assert(s[a] != s[b]);
            } else {
                assert(s[b] != s[a]);
            }
        }
    }
    si.unique_seq_to_set();
    assert(si.to_set().subset_of(set_int_range(0, n as int))) by {
        assert forall|x: int| si.to_set().contains(x) implies set_int_range(0, n as int).contains(
            x,
        ) by {
            let t = choose|t: int| 0 <= t < si.len() && si[t] == x;
            assert((s[t] as nat) < n);
        }
    }
    lemma_int_range(0, n as int);
    lemma_len_subset(si.to_set(), set_int_range(0, n as int));
}

/// A linked walk that cannot stop forces `reaches_root` to carry its fuel
/// to the walk's last node.
pub proof fn lemma_rr_along_links(p: Seq<Option<usize>>, pth: Seq<int>, f: nat)
    requires
        p.len() <= usize::MAX,
        pth.len() >= 1,
        forall|t: int| 0 <= t < pth.len() ==> 0 <= #[trigger] pth[t] < p.len(),
        forall|t: int| 0 <= t < pth.len() - 1 ==> p[#[trigger] pth[t]] == Some(pth[t + 1] as usize),
        reaches_root(p, pth[0], f),
    ensures
        f >= pth.len(),
        reaches_root(p, pth.last(), (f - (pth.len() - 1)) as nat),
    decreases pth.len(),
{
    assert(f >= 1) by {
        if f == 0 {
            assert(!reaches_root(p, pth[0], 0));
        }
    }
    if pth.len() == 1 {
    } else {
        let tail = pth.skip(1);
        assert(forall|t: int| 0 <= t < tail.len() ==> tail[t] == pth[t + 1]);
        assert(p[pth[0]] == Some(pth[1] as usize));
        let q = pth[1] as usize;
        assert(reaches_root(p, q as int, (f - 1) as nat));
        assert(q as int == pth[1]);
        assert(tail[0] == pth[1]);
        lemma_rr_along_links(p, tail, (f - 1) as nat);
        assert(tail.last() == pth.last());
    }
}

/// A linked walk that ends at a root is exactly the root path of its
/// first node.
pub proof fn lemma_linked_is_rpath(p: Seq<Option<usize>>, pth: Seq<int>, f: nat)
    requires
        p.len() <= usize::MAX,
        pth.len() >= 1,
        forall|t: int| 0 <= t < pth.len() ==> 0 <= #[trigger] pth[t] < p.len(),
        forall|t: int| 0 <= t < pth.len() - 1 ==> p[#[trigger] pth[t]] == Some(pth[t + 1] as usize),
        p[pth.last()] is None,
        reaches_root(p, pth[0], f),
    ensures
        root_path(p, pth[0], f) == pth,
    decreases pth.len(),
{
    assert(f >= 1) by {
        if f == 0 {
            assert(!reaches_root(p, pth[0], 0));
        }
    }
    if pth.len() == 1 {
        assert(root_path(p, pth[0], f) =~= pth);
    } else {
        let tail = pth.skip(1);
        assert(forall|t: int| 0 <= t < tail.len() ==> tail[t] == pth[t + 1]);
        assert(p[pth[0]] == Some(pth[1] as usize));
        let q = pth[1] as usize;
        assert(reaches_root(p, q as int, (f - 1) as nat));
        assert(q as int == pth[1]);
        assert(tail[0] == pth[1]);
        assert(tail.last() == pth.last());
        lemma_linked_is_rpath(p, tail, (f - 1) as nat);
        assert(root_path(p, pth[0], f) == seq![pth[0]] + root_path(p, q as int, (f - 1) as nat));
        assert(seq![pth[0]] + tail =~= pth);
    }
}

/// After linking one new parent edge, the forest invariant is restored,
/// provided the walk out of the relinked child terminates.
pub proof fn lemma_acyclic_after_link(p0: Seq<Option<usize>>, p1: Seq<Option<usize>>, ci: int)
    requires
        p0.len() == p1.len(),
        parents_in_range(p1, p1.len()),
        forall|j: int| 0 <= j < p0.len() && j != ci ==> p0[j] == p1[j],
        0 <= ci < p1.len(),
        acyclic(p0),
        reaches_root(p1, ci, p1.len() + 1),
    ensures
        acyclic(p1),
{
    assert forall|i: int| 0 <= i < p1.len() implies #[trigger] reaches_root(
        p1,
        i,
        p1.len() + 1,
    ) by {
        assert(reaches_root(p0, i, p0.len() + 1));
        lemma_rr_update(p0, p1, ci, i, p0.len() + 1, p1.len() + 1);
        lemma_rr_compress(p1, i, p0.len() + 1 + p1.len() + 1);
    }
}

/// Walks the parent chain from `start`, recording the nodes seen.  Returns
/// the walk and whether it revisited a node; a revisit means the walk can
/// never reach a root, and a completed walk means it does.
#[verifier::rlimit(100)]
fn walk_parents(parents: &Vec<Option<usize>>, start: usize) -> (r: (Vec<usize>, bool))
    requires
        parents_in_range(parents@, parents@.len() as nat),
        start < parents@.len(),
    ensures
        r.1 ==> !reaches_root(parents@, start as int, parents@.len() + 1),
        !r.1 ==> reaches_root(parents@, start as int, parents@.len() + 1),
{
    let ghost p1 = parents@;
    let n = parents.len();
    let mut path: Vec<usize> = Vec::new();
    path.push(start);
    let mut cur = start;
    let mut pnext = parents[cur];
    let mut found_cycle = false;
    while !found_cycle && path.len() <= n && pnext.is_some()
        invariant
            p1 == parents@,
            n == p1.len(),
            parents_in_range(p1, n as nat),
            start < n,
            cur < n,
            pnext == p1[cur as int],
            1 <= path@.len() <= n + 1,
            path@[0] == start,
            path@.last() == cur,
            distinct_usizes(path@),
            forall|t: int| 0 <= t < path@.len() ==> (#[trigger] path@[t] as nat) < n,
            forall|t: int|
                0 <= t < path@.len() - 1 ==> p1[#[trigger] path@[t] as int] == Some(path@[t + 1]),
            found_cycle ==> !reaches_root(p1, start as int, p1.len() + 1),
        decreases n + 1 - path@.len(), (if found_cycle { 0int } else { 1int }),
    {
        let next = pnext.unwrap();
        if contains_usize(&path, next) {
            proof {
                let t = choose|t: int| 0 <= t < path@.len() && path@[t] == next;
                lemma_walk_revisit(p1, path@, next, t);
            }
            found_cycle = true;
        } else {
            let ghost before = path@;
            path.push(next);
            proof {
                assert forall|a: int, b: int| #![trigger path@[a], path@[b]]
                    0 <= a < b < path@.len() implies path@[a] != path@[b] by {
                    if b < before.len() {
                        assert(before[a] != before[b]);
                    } else {
                        assert(!before.contains(next));
                        assert(path@[a] == before[a]);
                    }
                }
            }
            cur = next;
            pnext = parents[cur];
        }
    }
    if found_cycle {
        return (path, true);
    }
    if path.len() > n {
        // More nodes recorded than the graph has: impossible, since the
        // recorded nodes are pairwise distinct indices below `n`.
        proof {
            lemma_distinct_bounded(path@, n as nat);
            assert(false);
        }
        return (path, true);
    }
    proof {
        assert(p1[cur as int] is None);
        lemma_linked_rr(p1, path@);
        lemma_rr_compress(p1, start as int, path@.len());
    }
    (path, false)
}

/// Pushing onto one inner vector updates the nested view at one place.
pub proof fn lemma_children_deep_update(v0: Vec<Vec<usize>>, v1: Vec<Vec<usize>>, pi: int, ci: usize)
    requires
        0 <= pi < v0@.len(),
        v1@ == v0@.update(pi, v1@[pi]),
        v1@[pi]@ == v0@[pi]@.push(ci),
    ensures
        v1.deep_view() == v0.deep_view().update(pi, v0.deep_view()[pi].push(ci)),
{
    broadcast use lemma_vec_usize_deep_view;

    assert forall|i: int| 0 <= i < v1.deep_view().len() implies v1.deep_view()[i] == v0.deep_view()
        .update(pi, v0.deep_view()[pi].push(ci))[i] by {
        if i == pi {
            assert(v1@[i]@ == v0@[pi]@.push(ci));
        } else {
            assert(v1@[i] == v0@[i]);
        }
    }
    assert(v1.deep_view() =~= v0.deep_view().update(pi, v0.deep_view()[pi].push(ci)));
}

/// The dependency forest: payloads in insertion order, at most one parent
/// per node, parent walks always terminating.
#[derive(Debug)]
pub struct Graph<T> {
    nodes: Vec<T>,
    children: Vec<Vec<usize>>,
    parents: Vec<Option<usize>>,
}

impl<T: GraphData> View for Graph<T> {
    type V = GraphView<T>;

    closed spec fn view(&self) -> GraphView<T> {
        GraphView { nodes: self.nodes@, children: self.children.deep_view(), parents: self.parents@ }
    }
}

fn contains_usize(v: &Vec<usize>, x: usize) -> (r: bool)
    ensures
        r == v@.contains(x),
{
    let mut i: usize = 0;
    while i < v.len()
        invariant
            i <= v@.len(),
            forall|j: int| 0 <= j < i ==> v@[j] != x,
        decreases v@.len() - i,
    {
        if v[i] == x {
            return true;
        }
        i = i + 1;
    }
    false
}

impl<T: GraphData> Graph<T> {
    pub fn new() -> (r: Self)
        ensures
            r@.nodes =~= Seq::<T>::empty(),
            r@.children =~= Seq::<Seq<usize>>::empty(),
            r@.parents =~= Seq::<Option<usize>>::empty(),
            r@.wf(),
            acyclic(r@.parents),
    {
        Graph { nodes: Vec::new(), children: Vec::new(), parents: Vec::new() }
    }

    pub fn len(&self) -> (r: usize)
        ensures
            r == self@.nodes.len(),
    {
        self.nodes.len()
    }

    /// Appends a node with no children and no parent.
    pub fn add_node(&mut self, data: T)
        requires
            old(self)@.wf(),
            acyclic(old(self)@.parents),
        ensures
            final(self)@.nodes == old(self)@.nodes.push(data),
            final(self)@.children =~= old(self)@.children.push(Seq::<usize>::empty()),
            final(self)@.parents == old(self)@.parents.push(None),
            final(self)@.wf(),
            acyclic(final(self)@.parents),
    {
        let ghost g0 = self@;
        let ghost p0 = self@.parents;
        self.nodes.push(data);
        self.children.push(Vec::new());
        self.parents.push(None);
        proof {
            broadcast use lemma_vec_usize_deep_view;

            assert forall|i: int| 0 <= i < self@.children.len() implies self@.children[i]
                == g0.children.push(Seq::<usize>::empty())[i] by {
                if i < g0.children.len() {
                } else {
                    assert(self@.children[i] =~= Seq::<usize>::empty());
                }
            }
            assert(self@.children =~= g0.children.push(Seq::<usize>::empty()));
            let p1 = self@.parents;
            assert(p1 == p0.push(None));
            assert forall|i: int| 0 <= i < p1.len() implies #[trigger] reaches_root(
                p1,
                i,
                p1.len() + 1,
            ) by {
                if i < p0.len() {
                    assert(reaches_root(p0, i, p0.len() + 1));
                    lemma_rr_push(p0, None, i, p0.len() + 1);
                    lemma_rr_mono(p1, i, p0.len() + 1, p1.len() + 1);
                } else {
                    assert(p1[i] is None);
                }
            }
        }
    }

    fn get_index_of(&self, data: &T) -> (r: Option<usize>)
        ensures
            match r {
                Some(i) => find_idx(self@.nodes, *data) == Some(i as int),
                None => find_idx(self@.nodes, *data) is None,
            },
    {
        proof {
            lemma_find_idx(self@.nodes, *data);
        }
        let n = self.nodes.len();
        let mut i: usize = 0;
        while i < n
            invariant
                i <= n,
                n == self@.nodes.len(),
                forall|j: int| 0 <= j < i ==> !(#[trigger] self@.nodes[j]).gd_eq(data),
            decreases n - i,
        {
            if self.nodes[i].same(data) {
                proof {
                    lemma_find_idx(self@.nodes, *data);
                }
                return Some(i);
            }
            i = i + 1;
        }
        None
    }

    /// Records that `child` cannot build before `parent` has: links the
    /// edge, then confirms that the new parent walk still terminates.
    /// A cycle is reported only after the edge is linked, so on
    /// `CycleDetected` the graph is corrupt and must be discarded.
    #[verifier::rlimit(100)]
    pub fn mark_dep(&mut self, parent: &T, child: &T) -> (r: Result<(), GraphError>)
        requires
            old(self)@.wf(),
            acyclic(old(self)@.parents),
        ensures
            final(self)@.wf(),
            final(self)@.nodes == old(self)@.nodes,
            match r {
                Ok(()) => edge_added(old(self)@, final(self)@, *parent, *child) && acyclic(
                    final(self)@.parents,
                ),
                Err(GraphError::ParentNotFound) => find_idx(old(self)@.nodes, *parent) is None
                    && final(self)@ == old(self)@,
                Err(GraphError::ChildNotFound) => find_idx(old(self)@.nodes, *parent) is Some
                    && find_idx(old(self)@.nodes, *child) is None && final(self)@ == old(self)@,
                Err(GraphError::CycleDetected(_)) => edge_added(old(self)@, final(self)@, *parent, *child)
                    && (match find_idx(old(self)@.nodes, *child) {
                    Some(ci) => !reaches_root(
                        final(self)@.parents,
                        ci,
                        final(self)@.parents.len() + 1,
                    ),
                    None => false,
                }),
            },
    {
        let pi = match self.get_index_of(parent) {
            Some(i) => i,
            None => {
                return Err(GraphError::ParentNotFound);
            },
        };
        let ci = match self.get_index_of(child) {
            Some(i) => i,
            None => {
                return Err(GraphError::ChildNotFound);
            },
        };
        proof {
            lemma_find_idx(self@.nodes, *parent);
            lemma_find_idx(self@.nodes, *child);
        }
        let ghost g0 = self@;
        let ghost c0 = self.children;
        let n = self.nodes.len();
        self.children[pi].push(ci);
        self.parents[ci] = Some(pi);
        proof {
            lemma_children_deep_update(c0, self.children, pi as int, ci);
            assert(self@.parents =~= g0.parents.update(ci as int, Some(pi)));
        }
        let ghost p0 = g0.parents;
        let ghost p1 = self@.parents;

        // Walk the new parent chain from the child; a revisited node means
        // the new edge closed a cycle.
        let (path, found_cycle) = walk_parents(&self.parents, ci);
        if found_cycle {
            return Err(GraphError::CycleDetected(path));
        }
        proof {
            // The walk ended at a root, so the child reaches a root again;
            // every other node then does too, because its old walk either
            // avoids the child or continues along the child's new walk.
            lemma_acyclic_after_link(p0, p1, ci as int);
        }
        Ok(())
    }

    /// Hands the graph to a walker for chain decomposition.
    pub fn walker(self) -> (r: GraphWalker<T>)
        ensures
            r.graph_view() == self@,
            r.walked_view() =~= Seq::new(self@.nodes.len(), |i: int| false),
    {
        GraphWalker::new(self)
    }

    fn is_leaf(&self, idx: usize) -> (r: bool)
        requires
            idx < self@.children.len(),
        ensures
            r == (self@.children[idx as int].len() == 0),
    {
        self.children[idx].len() == 0
    }

    fn data_of(&self, idx: usize) -> (r: T)
        requires
            idx < self@.nodes.len(),
        ensures
            r == self@.nodes[idx as int],
    {
        self.nodes[idx].duplicate()
    }

    fn parent_of(&self, idx: usize) -> (r: Option<usize>)
        requires
            idx < self@.parents.len(),
        ensures
            r == self@.parents[idx as int],
    {
        self.parents[idx]
    }
}

/// The set of indices marked walked.
pub open spec fn walked_set(w: Seq<bool>) -> Set<int> {
    Set::new(|i: int| 0 <= i < w.len() && w[i])
}

/// The chains still to be emitted when the scan stands at node `i` with
/// `walked` already consumed: for every later unwalked leaf, its root path
/// reversed, as node indices.
pub open spec fn chains_from<T>(g: GraphView<T>, i: int, walked: Set<int>) -> Seq<Seq<int>>
    decreases g.nodes.len() - i,
{
    if i < 0 || i >= g.nodes.len() {
        Seq::empty()
    } else if !walked.contains(i) && g.children[i].len() == 0 {
        let pth = root_path(g.parents, i, g.parents.len() + 1);
        seq![pth.reverse()] + chains_from(g, i + 1, walked.union(pth.to_set()))
    } else {
        chains_from(g, i + 1, walked)
    }
}

/// All chains of a graph, by node index, prerequisite-first.
pub open spec fn spec_chains<T>(g: GraphView<T>) -> Seq<Seq<int>> {
    chains_from(g, 0, Set::empty())
}

/// Consumes a graph and hands out its chains; each node is consumed by the
/// first chain that visits it.
#[derive(Debug)]
pub struct GraphWalker<T> {
    walked: Vec<bool>,
    graph: Graph<T>,
}

impl<T: GraphData> GraphWalker<T> {
    pub closed spec fn graph_view(&self) -> GraphView<T> {
        self.graph@
    }

    pub closed spec fn walked_view(&self) -> Seq<bool> {
        self.walked@
    }

    pub fn new(graph: Graph<T>) -> (r: Self)
        ensures
            r.graph_view() == graph@,
            r.walked_view() =~= Seq::new(graph@.nodes.len(), |i: int| false),
    {
        let n = graph.len();
        let mut walked: Vec<bool> = Vec::new();
        while walked.len() < n
            invariant
                walked@.len() <= n,
                forall|j: int| 0 <= j < walked@.len() ==> walked@[j] == false,
            decreases n - walked@.len(),
        {
            walked.push(false);
        }
        proof {
            assert(walked@ =~= Seq::new(graph@.nodes.len(), |i: int| false));
        }
        GraphWalker { walked, graph }
    }

    /// Decomposes the graph into build chains: scanning nodes in insertion
    /// order, every not-yet-consumed leaf contributes one chain, its root
    /// path in prerequisite-first order; all nodes on it are consumed.
    pub fn chains(self) -> (r: Vec<Vec<T>>)
        requires
            self.graph_view().wf(),
            acyclic(self.graph_view().parents),
            self.walked_view() =~= Seq::new(self.graph_view().nodes.len(), |i: int| false),
        ensures
            ({
                let g = self.graph_view();
                &&& r@.len() == spec_chains(g).len()
                &&& forall|k: int|
                    0 <= k < r@.len() ==> (#[trigger] r@[k])@ == spec_chains(g)[k].map_values(
                        |idx: int| g.nodes[idx],
                    )
            }),
    {
        let mut this = self;
        let ghost g = this.graph_view();
        let ghost done: Seq<Seq<int>> = Seq::empty();
        let mut done = Ghost(done);
        let mut chains_vec: Vec<Vec<T>> = Vec::new();
        let num_nodes = this.graph.len();
        let mut current: usize = 0;
        proof {
            assert(walked_set(this.walked_view()) =~= Set::empty());
        }
        while current < num_nodes
            invariant
                this.graph_view() == g,
                g.wf(),
                acyclic(g.parents),
                num_nodes == g.nodes.len(),
                current <= num_nodes,
                this.walked_view().len() == num_nodes,
                spec_chains(g) == done@ + chains_from(
                    g,
                    current as int,
                    walked_set(this.walked_view()),
                ),
                chains_vec@.len() == done@.len(),
                forall|k: int|
                    0 <= k < done@.len() ==> (#[trigger] chains_vec@[k])@ == done@[k].map_values(
                        |idx: int| g.nodes[idx],
                    ),
            decreases num_nodes - current,
        {
            let ghost w0 = walked_set(this.walked_view());
            if !this.walked[current] && this.graph.is_leaf(current) {
                let ghost pth = root_path(g.parents, current as int, g.parents.len() + 1);
                proof {
                    assert(reaches_root(g.parents, current as int, g.parents.len() + 1));
                    lemma_rpath_basic(g.parents, current as int, g.parents.len() + 1);
                }
                let mut current_chain: Vec<T> = Vec::new();
                let mut cur = current;
                let ghost ipath = seq![current as int];
                let mut ipath = Ghost(ipath);
                let ghost fuel = (g.parents.len() + 1) as nat;
                let mut fuel = Ghost(fuel);
                current_chain.push(this.graph.data_of(cur));
                this.walked[cur] = true;
                let mut pnext = this.graph.parent_of(cur);
                while pnext.is_some()
                    invariant
                        pnext == g.parents[cur as int],
                        cur < num_nodes,
                        this.graph_view() == g,
                        g.wf(),
                        num_nodes == g.nodes.len(),
                        current < num_nodes,
                        this.walked_view().len() == num_nodes,
                        ipath@.len() >= 1,
                        ipath@[0] == current as int,
                        ipath@.last() == cur as int,
                        forall|t: int| 0 <= t < ipath@.len() ==> 0 <= #[trigger] ipath@[t] < num_nodes,
                        forall|t: int|
                            0 <= t < ipath@.len() - 1 ==> g.parents[#[trigger] ipath@[t]] == Some(
                                ipath@[t + 1] as usize,
                            ),
                        reaches_root(g.parents, cur as int, fuel@),
                        current_chain@.len() == ipath@.len(),
                        forall|t: int|
                            0 <= t < ipath@.len() ==> #[trigger] current_chain@[t] == g.nodes[ipath@[t]],
                        walked_set(this.walked_view()) =~= w0.union(ipath@.to_set()),
                    decreases fuel@,
                {
                    let parent = pnext.unwrap();
                    proof {
                        assert(g.parents[cur as int] == Some(parent));
                        assert(fuel@ >= 1);
                    }
                    let parent_data = this.graph.data_of(parent);
                    current_chain.push(parent_data);
                    let ghost w_before = this.walked_view();
                    this.walked[parent] = true;
                    proof {
                        let prev = ipath@;
                        ipath@ = prev.push(parent as int);
                        fuel@ = (fuel@ - 1) as nat;
                        assert(ipath@.last() == parent as int);
                        assert forall|t: int| 0 <= t < ipath@.len() - 1 implies g.parents[#[trigger] ipath@[t]]
                            == Some(ipath@[t + 1] as usize) by {
                            if t < prev.len() - 1 {
                                assert(ipath@[t] == prev[t]);
                                assert(ipath@[t + 1] == prev[t + 1]);
                            } else {
                                assert(ipath@[t] == cur as int);
                            }
                        }
                        assert(ipath@.to_set() =~= prev.to_set().insert(parent as int)) by {
                            assert forall|a: int|
                                ipath@.to_set().contains(a) implies prev.to_set().insert(
                                parent as int,
                            ).contains(a) by {
                                let k = choose|k: int|
                                    0 <= k < ipath@.len() && ipath@[k] == a;
                                if k < prev.len() {
                                    assert(prev[k] == a);
                                }
                            }
                            assert forall|a: int|
                                prev.to_set().insert(parent as int).contains(a) implies ipath@
                                .to_set().contains(a) by {
                                if prev.to_set().contains(a) {
                                    let k = choose|k: int| 0 <= k < prev.len() && prev[k] == a;
                                    assert(ipath@[k] == a);
                                } else {
                                    assert(ipath@[prev.len() as int] == a);
                                }
                            }
                        }
                        assert(walked_set(this.walked_view()) =~= walked_set(w_before).insert(
                            parent as int,
                        ));
                        assert(walked_set(w_before) =~= w0.union(prev.to_set()));
                        assert(w0.union(prev.to_set()).insert(parent as int) =~= w0.union(
                            prev.to_set().insert(parent as int),
                        ));
                        assert(walked_set(this.walked_view()) =~= w0.union(ipath@.to_set()));
                    }
                    cur = parent;
                    pnext = this.graph.parent_of(cur);
                }
                proof {
                    // The recorded walk is exactly the leaf's root path.
                    assert(g.parents[cur as int] is None);
                    lemma_linked_is_rpath(g.parents, ipath@, g.parents.len() + 1);
                    assert(ipath@ == pth);
                }
                // Reverse into prerequisite-first order.
                let mut rev: Vec<T> = Vec::new();
                while current_chain.len() > 0
                    invariant
                        rev@.len() + current_chain@.len() == pth.len(),
                        forall|t: int|
                            0 <= t < current_chain@.len() ==> #[trigger] current_chain@[t]
                                == g.nodes[pth[t]],
                        forall|t: int|
                            0 <= t < rev@.len() ==> #[trigger] rev@[t] == g.nodes[pth.reverse()[t]],
                    decreases current_chain@.len(),
                {
                    let ghost cc_before = current_chain@;
                    let x = current_chain.pop().unwrap();
                    rev.push(x);
                    proof {
                        assert(x == g.nodes[pth[cc_before.len() - 1]]);
                        assert(pth.reverse()[rev@.len() - 1] == pth[pth.len() - 1 - (rev@.len()
                            - 1)]);
                        assert(pth.len() - 1 - (rev@.len() - 1) == cc_before.len() - 1);
                    }
                }
                proof {
                    let mapped = pth.reverse().map_values(|idx: int| g.nodes[idx]);
                    assert(rev@.len() == pth.reverse().len());
                    assert forall|t: int| 0 <= t < rev@.len() implies rev@[t] == mapped[t] by {
                        assert(rev@[t] == g.nodes[pth.reverse()[t]]);
                    }
                    assert(rev@ =~= mapped);
                }
                chains_vec.push(rev);
                proof {
                    done@ = done@.push(pth.reverse());
                    assert(chains_from(g, current as int, w0) == seq![pth.reverse()]
                        + chains_from(g, current as int + 1, w0.union(pth.to_set())));
                    assert(spec_chains(g) =~= done@ + chains_from(
                        g,
                        current as int + 1,
                        walked_set(this.walked_view()),
                    ));
                }
            } else {
                proof {
                    assert(chains_from(g, current as int, w0) == chains_from(
                        g,
                        current as int + 1,
                        w0,
                    ));
                }
            }
            current = current + 1;
        }
        chains_vec
    }
}

/// The state of the edge columns after linking `child` under `parent`:
/// the child's index is appended to the parent's child list and the
/// child's parent pointer is overwritten.
pub open spec fn edge_added<T: GraphData>(
    g0: GraphView<T>,
    g1: GraphView<T>,
    parent: T,
    child: T,
) -> bool {
    match (find_idx(g0.nodes, parent), find_idx(g0.nodes, child)) {
        (Some(pi), Some(ci)) => {
            &&& g1.nodes == g0.nodes
            &&& g1.children == g0.children.update(pi, g0.children[pi].push(ci as usize))
            &&& g1.parents == g0.parents.update(ci, Some(pi as usize))
        },
        _ => false,
    }
}

impl GraphData for String {
    open spec fn gd_eq(&self, other: &Self) -> bool {
        self@ == other@
    }

    proof fn gd_eq_refl(&self) {
    }

    fn same(&self, other: &Self) -> (r: bool) {
        str_eq(self.as_str(), other.as_str())
    }

    fn duplicate(&self) -> (r: Self) {
        self.clone()
    }
}

/// In a line-shaped forest (each node's parent is its predecessor), the
/// root path of node `i` is `i, i-1, ..., 0`.
proof fn lemma_line_root_path(p: Seq<Option<usize>>, i: int, f: nat)
    requires
        p.len() <= usize::MAX,
        0 <= i < p.len(),
        forall|j: int| 0 <= j < p.len() ==> #[trigger] p[j] == (if j == 0 {
            None
        } else {
            Some((j - 1) as usize)
        }),
        f >= i + 1,
    ensures
        root_path(p, i, f) =~= Seq::new((i + 1) as nat, |k: int| i - k),
    decreases i,
{
    if i == 0 {
        assert(p[0] is None);
    } else {
        assert(p[i] == Some((i - 1) as usize));
        lemma_line_root_path(p, i - 1, (f - 1) as nat);
        assert(root_path(p, i, f) == seq![i] + root_path(p, i - 1, (f - 1) as nat));
    }
}

/// Nodes with children contribute no chain of their own.
proof fn lemma_chains_from_skip_nonleaves<T>(g: GraphView<T>, j: int, j2: int, w: Set<int>)
    requires
        0 <= j <= j2 <= g.nodes.len(),
        g.children.len() == g.nodes.len(),
        forall|i: int| j <= i < j2 ==> (#[trigger] g.children[i]).len() != 0,
    ensures
        chains_from(g, j, w) == chains_from(g, j2, w),
    decreases j2 - j,
{
    if j < j2 {
        lemma_chains_from_skip_nonleaves(g, j + 1, j2, w);
    }
}

/// Law: inserting the edges `0 -> 1 -> 2 -> ... -> (n-1)`, parent before
/// child, decomposes into exactly one chain holding every payload in
/// insertion order.  The graph state spelled out in the premises is what
/// `add_node` and `mark_dep` leave behind for those edges.
pub proof fn lemma_line_graph_chains<T>(g: GraphView<T>, n: int)
    requires
        g.wf(),
        n == g.nodes.len(),
        1 <= n <= usize::MAX,
        forall|j: int| 0 <= j < n ==> #[trigger] g.parents[j] == (if j == 0 {
            None
        } else {
            Some((j - 1) as usize)
        }),
        forall|j: int| 0 <= j < n - 1 ==> (#[trigger] g.children[j]).len() != 0,
        g.children[n - 1].len() == 0,
    ensures
        spec_chains(g).len() == 1,
        spec_chains(g)[0] =~= Seq::new(n as nat, |k: int| k),
{
    let w0 = Set::<int>::empty();
    lemma_chains_from_skip_nonleaves(g, 0, n - 1, w0);
    assert(!w0.contains(n - 1));
    let pth = root_path(g.parents, n - 1, g.parents.len() + 1);
    lemma_line_root_path(g.parents, n - 1, g.parents.len() + 1);
    assert(chains_from(g, n - 1, w0) == seq![pth.reverse()] + chains_from(
        g,
        n,
        w0.union(pth.to_set()),
    ));
    assert(chains_from(g, n, w0.union(pth.to_set())) == Seq::<Seq<int>>::empty());
    assert(spec_chains(g)[0] == pth.reverse());
    assert forall|k: int| 0 <= k < n implies pth.reverse()[k] == k by {
        assert(pth[n - 1 - k] == (n - 1) - (n - 1 - k));
    }
    assert(pth.reverse() =~= Seq::new(n as nat, |k: int| k));
}

/// The chains still to come in a star-shaped forest: every remaining
/// leaf `j, j+1, ..., n-2` contributes the chain `[n-1, j]`.
proof fn lemma_star_chains_from<T>(g: GraphView<T>, n: int, j: int, w: Set<int>)
    requires
        g.wf(),
        n == g.nodes.len(),
        2 <= n <= usize::MAX,
        0 <= j <= n - 1,
        g.parents[n - 1] is None,
        forall|i: int| 0 <= i < n - 1 ==> #[trigger] g.parents[i] == Some((n - 1) as usize),
        g.children[n - 1].len() != 0,
        forall|i: int| 0 <= i < n - 1 ==> (#[trigger] g.children[i]).len() == 0,
        w.contains(n - 1) <==> j > 0,
        forall|i: int| j <= i < n - 1 ==> !w.contains(i),
    ensures
        chains_from(g, j, w) =~= Seq::new((n - 1 - j) as nat, |k: int| seq![n - 1, j + k]),
    decreases n - j,
{
    if j == n - 1 {
        assert(w.contains(n - 1));
        assert(chains_from(g, j, w) == chains_from(g, j + 1, w));
    } else {
        let pth = root_path(g.parents, j, g.parents.len() + 1);
        assert(g.parents[j] == Some((n - 1) as usize));
        assert(pth == seq![j] + root_path(g.parents, n - 1, g.parents.len()));
        assert(root_path(g.parents, n - 1, g.parents.len()) == seq![n - 1]);
        assert(pth =~= seq![j, n - 1]);
        let w2 = w.union(pth.to_set());
        assert(chains_from(g, j, w) == seq![pth.reverse()] + chains_from(g, j + 1, w2));
        assert(w2.contains(n - 1)) by {
            assert(pth[1] == n - 1);
        }
        assert forall|i: int| j + 1 <= i < n - 1 implies !w2.contains(i) by {
            if pth.to_set().contains(i) {
                let t = choose|t: int| 0 <= t < pth.len() && pth[t] == i;
            }
        }
        lemma_star_chains_from(g, n, j + 1, w2);
        assert(pth.reverse() =~= seq![n - 1, j]);
        assert(chains_from(g, j, w) =~= Seq::new((n - 1 - j) as nat, |k: int| seq![n - 1, j + k]))
            by {
            let expect = Seq::new((n - 1 - j) as nat, |k: int| seq![n - 1, j + k]);
            let rest = Seq::new((n - 2 - j) as nat, |k: int| seq![n - 1, j + 1 + k]);
            assert(chains_from(g, j + 1, w2) =~= rest);
            assert forall|k: int| 0 <= k < expect.len() implies chains_from(g, j, w)[k]
                == expect[k] by {
                if k > 0 {
                    assert(chains_from(g, j, w)[k] == rest[k - 1]);
                }
            }
        }
    }
}

/// Law: inserting the edges `(n-1) -> i` for every `i` below `n-1` (one
/// parent, many children) decomposes into `n-1` chains, each holding the
/// shared parent first and one child second.
pub proof fn lemma_star_graph_chains<T>(g: GraphView<T>, n: int)
    requires
        g.wf(),
        n == g.nodes.len(),
        2 <= n <= usize::MAX,
        g.parents[n - 1] is None,
        forall|i: int| 0 <= i < n - 1 ==> #[trigger] g.parents[i] == Some((n - 1) as usize),
        g.children[n - 1].len() != 0,
        forall|i: int| 0 <= i < n - 1 ==> (#[trigger] g.children[i]).len() == 0,
    ensures
        spec_chains(g).len() == n - 1,
        forall|k: int| 0 <= k < n - 1 ==> spec_chains(g)[k] =~= seq![n - 1, k],
{
    lemma_star_chains_from(g, n, 0, Set::<int>::empty());
}

/// Law: an edge and then its reverse close a cycle.  With `a` already the
/// prerequisite of `b`, linking `a` under `b` leaves `a` unable to reach a
/// root, so marking that reverse dependency reports `CycleDetected`; the
/// graph is then corrupt and yields no chains at all.
pub proof fn lemma_reverse_edge_cycle(p: Seq<Option<usize>>, a: int, b: int)
    requires
        p.len() <= usize::MAX,
        0 <= a < p.len(),
        0 <= b < p.len(),
        a != b,
        p[b] == Some(a as usize),
    ensures
        !reaches_root(p.update(a, Some(b as usize)), a, p.update(a, Some(b as usize)).len() + 1),
{
    let p2 = p.update(a, Some(b as usize));
    let s = set![a, b];
    assert(closed_under_parent(p2, s)) by {
        assert(p2[a] == Some(b as usize));
        assert(p2[b] == Some(a as usize));
    }
    lemma_closed_no_rr(p2, s, a, p2.len() + 1);
}

/// The indices of one chain are in range and linked: each entry is the
/// stored parent of the next, so chains run prerequisite-first.
pub open spec fn chain_wf<T>(g: GraphView<T>, ch: Seq<int>) -> bool {
    &&& forall|t: int| 0 <= t < ch.len() ==> 0 <= #[trigger] ch[t] < g.nodes.len()
    &&& forall|t: int|
        0 <= t < ch.len() - 1 ==> g.parents[#[trigger] ch[t + 1]] == Some(ch[t] as usize)
}

/// Every chain the decomposition yields is well-formed.
pub proof fn lemma_chains_from_linked<T>(g: GraphView<T>, i: int, w: Set<int>)
    requires
        g.wf(),
        acyclic(g.parents),
    ensures
        forall|k: int|
            0 <= k < chains_from(g, i, w).len() ==> chain_wf(g, #[trigger] chains_from(g, i, w)[k]),
    decreases g.nodes.len() - i,
{
    if 0 <= i < g.nodes.len() {
        if !w.contains(i) && g.children[i].len() == 0 {
            let pth = root_path(g.parents, i, g.parents.len() + 1);
            assert(reaches_root(g.parents, i, g.parents.len() + 1));
            lemma_rpath_basic(g.parents, i, g.parents.len() + 1);
            lemma_chains_from_linked(g, i + 1, w.union(pth.to_set()));
            let ch = pth.reverse();
            assert(chain_wf(g, ch)) by {
                assert forall|t: int| 0 <= t < ch.len() implies 0 <= #[trigger] ch[t]
                    < g.nodes.len() by {
                    assert(ch[t] == pth[pth.len() - 1 - t]);
                }
                assert forall|t: int| 0 <= t < ch.len() - 1 implies g.parents[#[trigger] ch[t + 1]]
                    == Some(ch[t] as usize) by {
                    assert(ch[t + 1] == pth[pth.len() - 2 - t]);
                    assert(ch[t] == pth[pth.len() - 1 - t]);
                    assert(g.parents[pth[pth.len() - 2 - t]] == Some(
                        pth[pth.len() - 2 - t + 1] as usize,
                    ));
                }
            }
            assert(chains_from(g, i, w) == seq![ch] + chains_from(g, i + 1, w.union(pth.to_set())));
            assert forall|k: int| 0 <= k < chains_from(g, i, w).len() implies chain_wf(
                g,
                #[trigger] chains_from(g, i, w)[k],
            ) by {
                if k == 0 {
                    assert(chains_from(g, i, w)[0] == ch);
                } else {
                    assert(chains_from(g, i, w)[k] == chains_from(g, i + 1, w.union(pth.to_set()))[
                        k - 1]);
                }
            }
        } else {
            lemma_chains_from_linked(g, i + 1, w);
            assert(chains_from(g, i, w) == chains_from(g, i + 1, w));
        }
    } else {
        assert(chains_from(g, i, w) == Seq::<Seq<int>>::empty());
    }
}

/// In a graph where every stored parent has children recorded, a leaf
/// that is not yet consumed heads (ends) a chain of its own: leaves never
/// lie on another node's root path, so the scan always reaches them.
pub proof fn lemma_leaf_heads_chain<T>(g: GraphView<T>, i: int, w: Set<int>, leaf: int)
    requires
        g.wf(),
        acyclic(g.parents),
        g.nodes.len() <= usize::MAX,
        0 <= i <= leaf < g.nodes.len(),
        g.children[leaf].len() == 0,
        !w.contains(leaf),
        forall|x: int| 0 <= x < g.parents.len() ==> (match #[trigger] g.parents[x] {
            Some(p) => g.children[p as int].len() != 0,
            None => true,
        }),
    ensures
        exists|k: int|
            0 <= k < chains_from(g, i, w).len() && (#[trigger] chains_from(g, i, w)[k]).len() >= 1
                && chains_from(g, i, w)[k].last() == leaf,
    decreases g.nodes.len() - i,
{
    if i == leaf {
        let pth = root_path(g.parents, i, g.parents.len() + 1);
        assert(reaches_root(g.parents, i, g.parents.len() + 1));
        lemma_rpath_basic(g.parents, i, g.parents.len() + 1);
        assert(chains_from(g, i, w)[0] == pth.reverse());
        assert(pth.reverse().last() == pth[0]);
        assert(chains_from(g, i, w).len() >= 1);
    } else if !w.contains(i) && g.children[i].len() == 0 {
        let pth = root_path(g.parents, i, g.parents.len() + 1);
        assert(reaches_root(g.parents, i, g.parents.len() + 1));
        lemma_rpath_basic(g.parents, i, g.parents.len() + 1);
        let w2 = w.union(pth.to_set());
        assert(!pth.to_set().contains(leaf)) by {
            if pth.to_set().contains(leaf) {
                let t = choose|t: int| 0 <= t < pth.len() && pth[t] == leaf;
                if t == 0 {
                    assert(pth[0] == i);
                } else {
                    assert(g.parents[pth[t - 1]] == Some(pth[t] as usize));
                    assert(g.children[pth[t] as int].len() != 0);
                }
            }
        }
        lemma_leaf_heads_chain(g, i + 1, w2, leaf);
        let k = choose|k: int|
            0 <= k < chains_from(g, i + 1, w2).len() && (#[trigger] chains_from(g, i + 1, w2)[k]).len()
                >= 1 && chains_from(g, i + 1, w2)[k].last() == leaf;
        assert(chains_from(g, i, w)[k + 1] == chains_from(g, i + 1, w2)[k]);
    } else {
        lemma_leaf_heads_chain(g, i + 1, w, leaf);
        let k = choose|k: int|
            0 <= k < chains_from(g, i + 1, w).len() && (#[trigger] chains_from(g, i + 1, w)[k]).len()
                >= 1 && chains_from(g, i + 1, w)[k].last() == leaf;
        assert(chains_from(g, i, w)[k] == chains_from(g, i + 1, w)[k]);
    }
}

} // verus!
