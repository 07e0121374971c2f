//! The arena behind the Barnes-Hut quadtree.
//!
//! Every quad lives in one `Vec<Quad>` and links are `u32` indices, with
//! [`NIL`] for "absent". An internal quad has up to four children, indexed
//! `bottom << 1 | right`; a leaf holds one point index and chains the
//! coincident points that follow it through `next`.
//!
//! Where a point goes is decided by comparing its coordinates with the
//! midpoints of the quads on the way down; that geometry is the caller's.
//! This module owns the shape: it only ever grows the tree in the four ways
//! the insertion and covering algorithms need, and it hands out the
//! pre-order and post-order walks that the forces traverse.

use vstd::prelude::*;

verus! {

/// "No node" marker for child, `next` and `data` links.
pub const NIL: u32 = 4294967295;

/// One quad of the arena.
#[derive(Clone, Copy, Debug)]
pub struct Quad {
    /// Children `[bottom << 1 | right]`; only meaningful for internal quads.
    pub children: [u32; 4],
    /// Point index for a leaf; [`NIL`] for an internal quad.
    pub data: u32,
    /// Next coincident leaf in the chain, or [`NIL`].
    pub next: u32,
}

/// The `k`-th outgoing link of a quad: children `0..4`, then `next`.
pub open spec fn link_of(q: Quad, k: int) -> u32 {
    if k < 4 {
        q.children@[k]
    } else {
        q.next
    }
}

/// An internal quad with no children.
pub open spec fn internal_quad() -> Quad {
    Quad { children: [NIL, NIL, NIL, NIL], data: NIL, next: NIL }
}

/// A leaf for point `d` in front of the chain `next`.
pub open spec fn leaf_quad(d: u32, next: u32) -> Quad {
    Quad { children: [NIL, NIL, NIL, NIL], data: d, next }
}

/// `q` with child `i` replaced by `c`.
pub open spec fn with_child(q: Quad, i: int, c: u32) -> Quad {
    Quad {
        children: [
            if i == 0 {
                c
            } else {
                q.children@[0]
            },
            if i == 1 {
                c
            } else {
                q.children@[1]
            },
            if i == 2 {
                c
            } else {
                q.children@[2]
            },
            if i == 3 {
                c
            } else {
                q.children@[3]
            },
        ],
        ..q
    }
}

/// What [`with_child`] changes, slot by slot.
pub proof fn lemma_with_child(q: Quad, i: int, c: u32)
    requires
        0 <= i < 4,
    ensures
        forall|k: int|
            0 <= k < 4 ==> #[trigger] with_child(q, i, c).children@[k] == if k == i {
                c
            } else {
                q.children@[k]
            },
        with_child(q, i, c).data == q.data,
        with_child(q, i, c).next == q.next,
{
    let w = with_child(q, i, c);
    assert(w.children@[0] == if i == 0 { c } else { q.children@[0] });
    assert(w.children@[1] == if i == 1 { c } else { q.children@[1] });
    assert(w.children@[2] == if i == 2 { c } else { q.children@[2] });
    assert(w.children@[3] == if i == 3 { c } else { q.children@[3] });
}

impl Quad {
    pub open spec fn is_leaf_spec(&self) -> bool {
        self.data != NIL
    }

    /// Whether this quad is a leaf (holds a point).
    #[verifier::when_used_as_spec(is_leaf_spec)]
    pub fn is_leaf(&self) -> (r: bool)
        ensures
            r == self.is_leaf_spec(),
    {
        self.data != NIL
    }
}

/// The abstract state of a [`Quadtree`]: the arena and the root.
pub struct QuadtreeView {
    pub nodes: Seq<Quad>,
    pub root: u32,
}

/// The quadtree arena.
pub struct Quadtree {
    nodes: Vec<Quad>,
    root: u32,
    /// Strictly increases along child links; below `hi` everywhere.
    depth: Ghost<Seq<int>>,
    hi: Ghost<int>,
    /// At most every depth.
    lo: Ghost<int>,
    /// The slot `(quad, link)` that points at each quad; `(-1, 0)` for the root.
    parent: Ghost<Seq<(int, int)>>,
}

impl View for Quadtree {
    type V = QuadtreeView;

    closed spec fn view(&self) -> QuadtreeView {
        QuadtreeView { nodes: self.nodes@, root: self.root }
    }
}

/// Link `k` of quad `p` is well formed: it points inside the arena, back at
/// `p` through `parent`, deeper along a child link, and along the leaf chain
/// to a leaf with a lower index at the same depth.
pub closed spec fn link_ok(nodes: Seq<Quad>, depth: Seq<int>, parent: Seq<(int, int)>, p: int, k: int) -> bool {
    let c = link_of(nodes[p], k);
    c != NIL ==> {
        &&& (c as int) < nodes.len()
        &&& parent[c as int] == (p, k)
        &&& (k < 4 ==> depth[c as int] > depth[p])
        &&& (k >= 4 ==> (c as int) < p && nodes[c as int].data != NIL && depth[c as int] == depth[p])
    }
}

/// Quad `p` is well formed: its links are, internal quads chain nothing and
/// leaves have no children.
pub closed spec fn quad_ok(
    nodes: Seq<Quad>,
    depth: Seq<int>,
    hi: int,
    parent: Seq<(int, int)>,
    p: int,
) -> bool {
    let q = nodes[p];
    &&& depth[p] < hi
    &&& link_ok(nodes, depth, parent, p, 0)
    &&& link_ok(nodes, depth, parent, p, 1)
    &&& link_ok(nodes, depth, parent, p, 2)
    &&& link_ok(nodes, depth, parent, p, 3)
    &&& link_ok(nodes, depth, parent, p, 4)
    &&& q.data == NIL ==> q.next == NIL
    &&& q.data != NIL ==> q.children@[0] == NIL && q.children@[1] == NIL && q.children@[2] == NIL
        && q.children@[3] == NIL
}

/// Any one link of a well-formed quad is well formed.
proof fn lemma_link_ok(nodes: Seq<Quad>, depth: Seq<int>, hi: int, parent: Seq<(int, int)>, p: int, k: int)
    requires
        quad_ok(nodes, depth, hi, parent, p),
        0 <= k < 5,
    ensures
        link_ok(nodes, depth, parent, p, k),
        nodes[p].data != NIL && k < 4 ==> nodes[p].children@[k] == NIL,
{
}

/// A quad whose links are all well formed, and whose shape fits its kind,
/// is well formed.
proof fn lemma_quad_ok_intro(nodes: Seq<Quad>, depth: Seq<int>, hi: int, parent: Seq<(int, int)>, p: int)
    requires
        depth[p] < hi,
        forall|k: int| 0 <= k < 5 ==> #[trigger] link_ok(nodes, depth, parent, p, k),
        nodes[p].data == NIL ==> nodes[p].next == NIL,
        nodes[p].data != NIL ==> forall|k: int| 0 <= k < 4 ==> #[trigger] nodes[p].children@[k] == NIL,
    ensures
        quad_ok(nodes, depth, hi, parent, p),
{
    assert(link_ok(nodes, depth, parent, p, 0));
    assert(link_ok(nodes, depth, parent, p, 1));
    assert(link_ok(nodes, depth, parent, p, 2));
    assert(link_ok(nodes, depth, parent, p, 3));
    assert(link_ok(nodes, depth, parent, p, 4));
    if nodes[p].data != NIL {
        assert(nodes[p].children@[0] == NIL);
        assert(nodes[p].children@[1] == NIL);
        assert(nodes[p].children@[2] == NIL);
        assert(nodes[p].children@[3] == NIL);
    }
}

/// A link that still points where it did stays well formed when its target
/// kept its parent entry and kind, and the depth step along it is unchanged.
proof fn lemma_link_kept(
    on: Seq<Quad>,
    od: Seq<int>,
    op: Seq<(int, int)>,
    nn: Seq<Quad>,
    nd: Seq<int>,
    np: Seq<(int, int)>,
    p: int,
    k: int,
)
    requires
        link_ok(on, od, op, p, k),
        0 <= p < on.len(),
        on.len() <= nn.len(),
        0 <= k < 5,
        link_of(nn[p], k) == link_of(on[p], k),
        link_of(on[p], k) != NIL ==> ({
            let c = link_of(on[p], k) as int;
            &&& np[c] == op[c]
            &&& nn[c].data == on[c].data
            &&& nd[c] - nd[p] == od[c] - od[p]
        }),
    ensures
        link_ok(nn, nd, np, p, k),
{
}

/// A new leaf with no chain is a well-formed quad.
proof fn lemma_fresh_leaf_ok(nodes: Seq<Quad>, depth: Seq<int>, hi: int, parent: Seq<(int, int)>, p: int, d: u32)
    requires
        0 <= p < nodes.len(),
        nodes[p] == leaf_quad(d, NIL),
        d != NIL,
        depth[p] < hi,
    ensures
        quad_ok(nodes, depth, hi, parent, p),
{
}

/// Quad `c` is what its parent entry names: a link of a quad of the arena.
pub closed spec fn back_ok(nodes: Seq<Quad>, parent: Seq<(int, int)>, c: int) -> bool {
    let (p, k) = parent[c];
    &&& 0 <= p < nodes.len()
    &&& 0 <= k < 5
    &&& link_of(nodes[p], k) == c as u32
}

impl Quadtree {
    /// The arena is a tree of quads rooted at `root`.
    #[verifier::opaque]
    pub closed spec fn wf(&self) -> bool {
        let n = self.nodes@;
        &&& n.len() < NIL
        &&& self.depth@.len() == n.len()
        &&& self.parent@.len() == n.len()
        &&& (self.root == NIL <==> n.len() == 0)
        &&& self.root != NIL ==> self.root < n.len() && self.parent@[self.root as int] == (
            -1int,
            0int,
        )
        &&& forall|p: int|
            0 <= p < n.len() ==> #[trigger] quad_ok(n, self.depth@, self.hi@, self.parent@, p)
        &&& forall|p: int| 0 <= p < n.len() ==> self.lo@ <= #[trigger] self.depth@[p]
        &&& forall|c: int|
            0 <= c < n.len() && c != self.root ==> #[trigger] back_ok(n, self.parent@, c)
    }

    /// An empty tree.
    pub fn new() -> (r: Quadtree)
        ensures
            r.wf(),
            r@.nodes.len() == 0,
            r@.root == NIL,
            r.points_spec().len() == 0,
    {
        let r = Quadtree {
            nodes: Vec::new(),
            root: NIL,
            depth: Ghost(Seq::empty()),
            hi: Ghost(0),
            lo: Ghost(0),
            parent: Ghost(Seq::empty()),
        };
        proof {
            reveal(Quadtree::wf);
            assert(r.pre_of(NIL) == Seq::<u32>::empty());
        }
        r
    }

    /// Empty the tree, keeping its allocation.
    pub fn clear(&mut self)
        ensures
            final(self).wf(),
            final(self)@.nodes.len() == 0,
            final(self)@.root == NIL,
            final(self).points_spec().len() == 0,
    {
        self.nodes.clear();
        self.root = NIL;
        self.depth = Ghost(Seq::empty());
        self.parent = Ghost(Seq::empty());
        proof {
            reveal(Quadtree::wf);
            assert(self.pre_of(NIL) == Seq::<u32>::empty());
        }
    }

    /// Number of quads in the arena.
    pub fn len(&self) -> (r: usize)
        ensures
            r == self@.nodes.len(),
    {
        self.nodes.len()
    }

    /// The root quad, or [`NIL`] for an empty tree.
    pub fn root(&self) -> (r: u32)
        ensures
            r == self@.root,
    {
        self.root
    }

    /// Quad `id`.
    pub fn quad(&self, id: u32) -> (r: Quad)
        requires
            id < self@.nodes.len(),
        ensures
            r == self@.nodes[id as int],
    {
        self.nodes[id as usize]
    }

    /// Facts every quad of a well-formed tree has.
    proof fn lemma_quad(self, p: int)
        requires
            self.wf(),
            0 <= p < self@.nodes.len(),
        ensures
            quad_ok(self.nodes@, self.depth@, self.hi@, self.parent@, p),
            self.lo@ <= self.depth@[p] < self.hi@,
    {
        reveal(Quadtree::wf);
        assert(quad_ok(self.nodes@, self.depth@, self.hi@, self.parent@, p));
        assert(self.lo@ <= self.depth@[p]);
    }

    /// The bookkeeping of a well-formed tree covers the arena, which fits
    /// `u32` indices, and the root is there exactly when the arena is not
    /// empty.
    proof fn lemma_wf(self)
        requires
            self.wf(),
        ensures
            self.nodes@.len() < NIL,
            self.depth@.len() == self.nodes@.len(),
            self.parent@.len() == self.nodes@.len(),
            self.root == NIL <==> self.nodes@.len() == 0,
            self.root != NIL ==> self.root < self.nodes@.len() && self.parent@[self.root as int] == (
                -1int,
                0int,
            ),
    {
        reveal(Quadtree::wf);
    }

    /// Every quad but the root is linked from the slot its parent entry names.
    proof fn lemma_back(self, c: int)
        requires
            self.wf(),
            0 <= c < self@.nodes.len(),
            c != self.root,
        ensures
            back_ok(self.nodes@, self.parent@, c),
            0 <= self.parent@[c].0 < self@.nodes.len(),
            0 <= self.parent@[c].1 < 5,
            link_of(self@.nodes[self.parent@[c].0], self.parent@[c].1) == c as u32,
    {
        reveal(Quadtree::wf);
    }

    /// Quads that kept their parent entry stay linked from it when one slot
    /// that held `occupant` now holds `x`.
    proof fn lemma_old_back_ok(old: Quadtree, nn: Seq<Quad>, np: Seq<(int, int)>, parent: u32, i: int, x: u32)
        requires
            old.wf(),
            slot(old@, parent, i),
            nn.len() >= old.nodes@.len(),
            np.len() == nn.len(),
            forall|j: int|
                0 <= j < old.nodes@.len() ==> #[trigger] nn[j] == placed(old.nodes@, parent, i, x)[j],
            forall|j: int|
                0 <= j < old.nodes@.len() && j != occupant(old@, parent, i) ==> #[trigger] np[j]
                    == old.parent@[j],
        ensures
            forall|c: int|
                0 <= c < old.nodes@.len() && c != old.root && c != occupant(old@, parent, i) ==> #[trigger] back_ok(nn, np, c),
    {
        let on = old.nodes@;
        old.lemma_wf();
        if parent != NIL {
            lemma_with_child(on[parent as int], i, x);
        }
        assert forall|c: int|
            0 <= c < on.len() && c != old.root && c != occupant(old@, parent, i) implies #[trigger] back_ok(nn, np, c) by {
            old.lemma_back(c);
            let p = old.parent@[c].0;
            let k = old.parent@[c].1;
            assert(np[c] == old.parent@[c]);
            assert(nn[p] == placed(on, parent, i, x)[p]);
            if parent != NIL && p == parent as int {
                if k == i {
                    assert(back_ok(on, old.parent@, c));
                    assert(link_of(on[p], k) == c as u32);
                    assert(link_of(on[p], k) == on[p].children@[i]);
                    assert(old@.nodes == on);
                    assert(on[p].children@[i] == occupant(old@, parent, i));
                    assert(false);
                } else {
                    assert(link_of(nn[p], k) == link_of(on[p], k));
                }
            } else {
                assert(nn[p] == on[p]);
            }
        }
    }
}

/// What sits in slot `i` of quad `parent`, or at the root when `parent` is [`NIL`].
pub open spec fn occupant(t: QuadtreeView, parent: u32, i: int) -> u32 {
    if parent == NIL {
        t.root
    } else {
        t.nodes[parent as int].children@[i]
    }
}

/// The arena after slot `i` of `parent` (the root when `parent` is
/// [`NIL`]) is pointed at `x`.
pub open spec fn placed(nodes: Seq<Quad>, parent: u32, i: int, x: u32) -> Seq<Quad> {
    if parent == NIL {
        nodes
    } else {
        nodes.update(parent as int, with_child(nodes[parent as int], i, x))
    }
}

/// The root after slot `i` of `parent` is pointed at `x`.
pub open spec fn placed_root(root: u32, parent: u32, x: u32) -> u32 {
    if parent == NIL {
        x
    } else {
        root
    }
}

/// Pointing a slot at `x` changes that slot and nothing else: afterwards
/// the slot holds `x`; every other quad, every other child of `parent`, and
/// the root (unless the slot is the root) are as before.
pub proof fn lemma_placed(t: QuadtreeView, parent: u32, i: int, x: u32)
    requires
        0 <= i < 4,
        parent == NIL || parent < t.nodes.len(),
    ensures
        ({
            let after = QuadtreeView { nodes: placed(t.nodes, parent, i, x), root: placed_root(t.root, parent, x) };
            &&& occupant(after, parent, i) == x
            &&& after.nodes.len() == t.nodes.len()
            &&& parent != NIL ==> after.root == t.root
            &&& forall|j: int| 0 <= j < t.nodes.len() && j != parent ==> #[trigger] after.nodes[j] == t.nodes[j]
            &&& parent != NIL ==> {
                &&& after.nodes[parent as int].data == t.nodes[parent as int].data
                &&& after.nodes[parent as int].next == t.nodes[parent as int].next
                &&& forall|k: int| 0 <= k < 4 && k != i ==> #[trigger] after.nodes[parent as int].children@[k]
                    == t.nodes[parent as int].children@[k]
            }
        }),
{
    if parent != NIL {
        lemma_with_child(t.nodes[parent as int], i, x);
    }
}

/// A fresh leaf holds its point in front of the given chain and has no
/// children; a fresh internal quad holds nothing.
pub proof fn lemma_fresh_quads(d: u32, next: u32)
    ensures
        leaf_quad(d, next).data == d,
        leaf_quad(d, next).next == next,
        forall|k: int| 0 <= k < 4 ==> #[trigger] leaf_quad(d, next).children@[k] == NIL,
        internal_quad().data == NIL,
        internal_quad().next == NIL,
        forall|k: int| 0 <= k < 4 ==> #[trigger] internal_quad().children@[k] == NIL,
{
    assert(leaf_quad(d, next).children@ =~= seq![NIL, NIL, NIL, NIL]);
    assert(internal_quad().children@ =~= seq![NIL, NIL, NIL, NIL]);
}

/// `(parent, i)` names a slot: the root when `parent` is [`NIL`], else
/// child `i` of an internal quad.
pub open spec fn slot(t: QuadtreeView, parent: u32, i: int) -> bool {
    &&& 0 <= i < 4
    &&& parent == NIL || (parent < t.nodes.len() && !t.nodes[parent as int].is_leaf())
}

/// `(parent, i)` names a slot that holds a leaf.
pub open spec fn leaf_slot(t: QuadtreeView, parent: u32, i: int) -> bool {
    &&& slot(t, parent, i)
    &&& occupant(t, parent, i) != NIL
    &&& occupant(t, parent, i) < t.nodes.len()
    &&& t.nodes[occupant(t, parent, i) as int].is_leaf()
}

/// The internal quads a split appends after the new leaf `base`: quad `t`
/// (index `base + 1 + t`) leads to the next one through `common[t]`, and the
/// last holds the old leaf `occ` at `old_j` and the new leaf at `new_i`.
pub open spec fn split_quads(base: int, common: Seq<usize>, new_i: int, old_j: int, occ: u32) -> Seq<Quad> {
    Seq::new(
        (common.len() + 1) as nat,
        |t: int|
            if t < common.len() {
                with_child(internal_quad(), common[t] as int, (base + 2 + t) as u32)
            } else {
                with_child(with_child(internal_quad(), old_j, occ), new_i, base as u32)
            },
    )
}

/// The internal quads a split lays down form one path, top to bottom: the
/// `t`-th of them has exactly one child, the next quad (index `base + 2 + t`),
/// in the quadrant `common[t]` both points share at that depth; the last has
/// exactly two children, the new leaf `base` in `new_i` and the old leaf
/// `occ` in `old_j`. None of them holds a point or a chain.
pub proof fn lemma_split_quads_path(base: int, common: Seq<usize>, new_i: int, old_j: int, occ: u32)
    requires
        0 <= new_i < 4,
        0 <= old_j < 4,
        new_i != old_j,
        forall|t: int| 0 <= t < common.len() ==> #[trigger] common[t] < 4,
    ensures
        split_quads(base, common, new_i, old_j, occ).len() == common.len() + 1,
        forall|t: int, c: int|
            0 <= t < common.len() && 0 <= c < 4 ==> #[trigger] split_quads(base, common, new_i, old_j, occ)[t].children@[c]
                == if c == common[t] as int {
                (base + 2 + t) as u32
            } else {
                NIL
            },
        forall|c: int|
            0 <= c < 4 ==> #[trigger] split_quads(base, common, new_i, old_j, occ)[common.len() as int].children@[c]
                == if c == new_i {
                base as u32
            } else if c == old_j {
                occ
            } else {
                NIL
            },
        forall|t: int|
            0 <= t <= common.len() ==> #[trigger] split_quads(base, common, new_i, old_j, occ)[t].data == NIL
                && split_quads(base, common, new_i, old_j, occ)[t].next == NIL,
{
    let qs = split_quads(base, common, new_i, old_j, occ);
    assert forall|t: int, c: int| 0 <= t < common.len() && 0 <= c < 4 implies #[trigger] qs[t].children@[c] == if c
        == common[t] as int {
        (base + 2 + t) as u32
    } else {
        NIL
    } by {
        lemma_with_child(internal_quad(), common[t] as int, (base + 2 + t) as u32);
    }
    lemma_with_child(internal_quad(), old_j, occ);
    lemma_with_child(with_child(internal_quad(), old_j, occ), new_i, base as u32);
    assert forall|t: int| 0 <= t <= common.len() implies #[trigger] qs[t].data == NIL && qs[t].next == NIL by {
        if t < common.len() {
            lemma_with_child(internal_quad(), common[t] as int, (base + 2 + t) as u32);
        }
    }
}

impl Quadtree {
    /// The quads of the leaf chain that starts at `n`, head first.
    pub closed spec fn chain_ids(self, n: u32) -> Seq<u32>
        decreases n,
        when self.wf() && (n == NIL || (n as int) < self@.nodes.len())
    {
        if n == NIL || (n as int) >= self.nodes@.len() {
            seq![]
        } else {
            let q = self.nodes@[n as int];
            if q.data == NIL {
                seq![]
            } else {
                proof {
                    self.lemma_quad(n as int);
                }
                if q.next == NIL {
                    seq![n]
                } else {
                    seq![n] + self.chain_ids(q.next)
                }
            }
        }
    }

    /// A leaf chain starts at its head.
    proof fn lemma_chain_start(self, n: u32)
        requires
            self.wf(),
            n != NIL,
            (n as int) < self@.nodes.len(),
            self@.nodes[n as int].is_leaf(),
        ensures
            self.chain_ids(n).len() >= 1,
            self.chain_ids(n)[0] == n,
            self@.nodes[n as int].next != NIL ==> self.chain_ids(n) == seq![n] + self.chain_ids(
                self@.nodes[n as int].next,
            ),
            self@.nodes[n as int].next == NIL ==> self.chain_ids(n) == seq![n],
    {
        self.lemma_quad(n as int);
    }

    /// Entry `m` of the leaf chain at `n`: a leaf at `n`'s depth, no later
    /// than `n`, whose `next` is the following entry, and which (but for the
    /// head) the entry before points at through `next`.
    proof fn lemma_chain_at(self, n: u32, m: int)
        requires
            self.wf(),
            n != NIL,
            (n as int) < self@.nodes.len(),
            self@.nodes[n as int].is_leaf(),
            0 <= m < self.chain_ids(n).len(),
        ensures
            ({
                let ch = self.chain_ids(n);
                let c = ch[m];
                &&& c != NIL
                &&& (c as int) < self@.nodes.len()
                &&& c <= n
                &&& self@.nodes[c as int].is_leaf()
                &&& self.depth@[c as int] == self.depth@[n as int]
                &&& self@.nodes[c as int].next == if m + 1 < ch.len() {
                    ch[m + 1]
                } else {
                    NIL
                }
                &&& m > 0 ==> self.parent@[c as int] == (ch[m - 1] as int, 4int)
            }),
        decreases n,
    {
        let q = self.nodes@[n as int];
        self.lemma_quad(n as int);
        self.lemma_chain_start(n);
        let ch = self.chain_ids(n);
        if q.next != NIL {
            let rest = self.chain_ids(q.next);
            self.lemma_chain_start(q.next);
            if m > 0 {
                self.lemma_chain_at(q.next, m - 1);
                assert(ch[m] == rest[m - 1]);
                if m > 1 {
                    assert(ch[m - 1] == rest[m - 2]);
                }
                if m + 1 < ch.len() {
                    assert(ch[m + 1] == rest[m]);
                }
            } else {
                assert(ch[1] == rest[0]);
            }
        }
    }

    /// A link into a leaf chain other than at its head is the `next` of the
    /// chain quad before it.
    proof fn lemma_into_chain(self, occ: u32, p: int, k: int)
        requires
            self.wf(),
            occ != NIL,
            (occ as int) < self@.nodes.len(),
            self@.nodes[occ as int].is_leaf(),
            0 <= p < self@.nodes.len(),
            0 <= k < 5,
            link_of(self@.nodes[p], k) != NIL,
            self.chain_ids(occ).contains(link_of(self@.nodes[p], k)),
            link_of(self@.nodes[p], k) != occ,
        ensures
            k == 4,
            self.chain_ids(occ).contains(p as u32),
    {
        self.lemma_chain_start(occ);
        self.lemma_quad(p);
        lemma_link_ok(self.nodes@, self.depth@, self.hi@, self.parent@, p, k);
        let c = link_of(self@.nodes[p], k);
        let ch = self.chain_ids(occ);
        let m = choose|m: int| 0 <= m < ch.len() && ch[m] == c;
        assert(ch[m] == c);
        assert(m > 0);
        self.lemma_chain_at(occ, m);
        assert(self.parent@[c as int] == (ch[m - 1] as int, 4int));
        assert(ch[m - 1] == p as u32);
    }

    /// Quads below the old length stay well formed when slot `i` of
    /// `parent` (the root when `parent` is [`NIL`]), which held `occ`, now
    /// holds `x`, `occ`'s parent entry moved, and the quads of `moved`
    /// (nothing, or `occ`'s whole chain) went to depth `v`.
    proof fn lemma_old_quads_ok(
        old: Quadtree,
        nn: Seq<Quad>,
        nd: Seq<int>,
        nhi: int,
        np: Seq<(int, int)>,
        parent: u32,
        i: int,
        x: u32,
        moved: Seq<u32>,
        v: int,
    )
        requires
            old.wf(),
            slot(old@, parent, i),
            nn.len() >= old.nodes@.len(),
            nd.len() == nn.len(),
            np.len() == nn.len(),
            nhi >= old.hi@,
            (x as int) < nn.len(),
            x != NIL,
            np[x as int] == (if parent == NIL {
                (-1int, 0int)
            } else {
                (parent as int, i)
            }),
            parent != NIL ==> nd[x as int] > old.depth@[parent as int],
            forall|j: int|
                0 <= j < old.nodes@.len() ==> #[trigger] nn[j] == placed(old.nodes@, parent, i, x)[j],
            forall|j: int|
                0 <= j < old.nodes@.len() && !moved.contains(j as u32) ==> #[trigger] nd[j]
                    == old.depth@[j],
            forall|j: int|
                0 <= j < old.nodes@.len() && j != occupant(old@, parent, i) ==> #[trigger] np[j]
                    == old.parent@[j],
            moved.len() > 0 ==> leaf_slot(old@, parent, i) && moved == old.chain_ids(
                occupant(old@, parent, i),
            ),
            forall|j: int| 0 <= j < moved.len() ==> #[trigger] nd[moved[j] as int] == v,
            moved.len() > 0 ==> v < nhi,
        ensures
            forall|p: int| 0 <= p < old.nodes@.len() ==> #[trigger] quad_ok(nn, nd, nhi, np, p),
    {
        let on = old.nodes@;
        let od = old.depth@;
        let op = old.parent@;
        let occ = occupant(old@, parent, i);
        old.lemma_wf();
        if parent != NIL {
            lemma_with_child(on[parent as int], i, x);
            old.lemma_quad(parent as int);
            lemma_link_ok(on, od, old.hi@, op, parent as int, i);
        }
        if moved.len() > 0 {
            old.lemma_chain_start(occ);
        }
        assert forall|p: int| 0 <= p < on.len() implies #[trigger] quad_ok(nn, nd, nhi, np, p) by {
            old.lemma_quad(p);
            assert(nn[p] == placed(on, parent, i, x)[p]);
            let pm = moved.contains(p as u32);
            if pm {
                let m = choose|m: int| 0 <= m < moved.len() && moved[m] == p as u32;
                assert(nd[moved[m] as int] == v);
            }
            assert forall|k: int| 0 <= k < 5 implies #[trigger] link_ok(nn, nd, np, p, k) by {
                lemma_link_ok(on, od, old.hi@, op, p, k);
                if p == parent as int && k == i {
                    if moved.contains(parent) {
                        let m = choose|m: int| 0 <= m < moved.len() && moved[m] == parent;
                        old.lemma_chain_at(occ, m);
                    }
                    assert(nd[p] == od[p]);
                    assert(link_of(nn[p], k) == x);
                } else {
                    assert(link_of(nn[p], k) == link_of(on[p], k));
                    let c = link_of(on[p], k);
                    if c != NIL {
                        assert(op[c as int] == (p, k));
                        if c == occ {
                            if parent != NIL {
                                assert(op[occ as int] == (parent as int, i));
                            } else {
                                assert(op[occ as int] == (-1int, 0int));
                            }
                        }
                        assert(nn[c as int] == placed(on, parent, i, x)[c as int]);
                        if moved.contains(c) {
                            old.lemma_into_chain(occ, p, k);
                            let m = choose|m: int| 0 <= m < moved.len() && moved[m] == c;
                            assert(nd[moved[m] as int] == v);
                            let m2 = choose|m2: int| 0 <= m2 < moved.len() && moved[m2] == p as u32;
                            assert(nd[moved[m2] as int] == v);
                        } else if pm {
                            let m = choose|m: int| 0 <= m < moved.len() && moved[m] == p as u32;
                            let ch = old.chain_ids(occ);
                            assert(ch[m] == p as u32);
                            old.lemma_chain_at(occ, m);
                            assert(k == 4);
                            assert(m + 1 < ch.len());
                            assert(ch[m + 1] == c);
                            assert(moved.contains(c));
                        }
                    }
                    lemma_link_kept(on, od, op, nn, nd, np, p, k);
                }
            }
            lemma_quad_ok_intro(nn, nd, nhi, np, p);
        }
    }

    /// Place the first point `d` in an empty tree.
    pub fn insert_first(&mut self, d: u32)
        requires
            old(self).wf(),
            old(self)@.root == NIL,
            d != NIL,
        ensures
            final(self).wf(),
            final(self)@.root == 0,
            final(self)@.nodes == seq![leaf_quad(d, NIL)],
            final(self).points_spec().to_multiset() == old(self).points_spec().to_multiset().insert(d),
    {
        let ghost old_self = *self;
        proof {
            self.lemma_wf();
        }
        self.nodes.push(Quad { children: [NIL, NIL, NIL, NIL], data: d, next: NIL });
        self.root = 0;
        self.depth = Ghost(Seq::empty().push(0int));
        self.hi = Ghost(1int);
        self.lo = Ghost(0int);
        self.parent = Ghost(Seq::empty().push((-1int, 0int)));
        proof {
            let nn = self.nodes@;
            assert(nn =~= seq![leaf_quad(d, NIL)]);
            lemma_fresh_leaf_ok(nn, self.depth@, self.hi@, self.parent@, 0, d);
            reveal(Quadtree::wf);
            broadcast use vstd::seq_lib::to_multiset_build;
            self.lemma_points_are_arena_points();
            old_self.lemma_points_are_arena_points();
            assert(arena_points(self@.nodes, 0) =~= Seq::<u32>::empty());
            assert(self@.nodes[0].data == d);
            assert(arena_points(self@.nodes, 1) =~= seq![d]);
            assert(arena_points(old_self@.nodes, 0) =~= Seq::<u32>::empty());
            assert(seq![d] =~= Seq::<u32>::empty().push(d));
        }
    }

    /// Hang a new leaf for point `d` in the empty slot `i` of internal quad
    /// `parent`. The new leaf gets the next free index.
    pub fn attach_leaf(&mut self, parent: u32, i: usize, d: u32)
        requires
            old(self).wf(),
            parent < old(self)@.nodes.len(),
            !old(self)@.nodes[parent as int].is_leaf(),
            i < 4,
            old(self)@.nodes[parent as int].children@[i as int] == NIL,
            d != NIL,
            old(self)@.nodes.len() + 1 < NIL,
        ensures
            final(self).wf(),
            final(self)@.root == old(self)@.root,
            final(self)@.nodes == old(self)@.nodes.update(
                parent as int,
                with_child(old(self)@.nodes[parent as int], i as int, old(self)@.nodes.len() as u32),
            ).push(leaf_quad(d, NIL)),
            final(self).points_spec().to_multiset() == old(self).points_spec().to_multiset().insert(d),
    {
        let ghost old_self = *self;
        proof {
            old_self.lemma_wf();
        }
        let ghost on = self.nodes@;
        let ghost od = self.depth@;
        let ghost op = self.parent@;
        let id = self.nodes.len() as u32;
        let mut q = self.nodes[parent as usize];
        q.children[i] = id;
        assert(q.children =~= with_child(on[parent as int], i as int, id).children);
        self.nodes.set(parent as usize, q);
        self.nodes.push(Quad { children: [NIL, NIL, NIL, NIL], data: d, next: NIL });
        let ghost dl = od[parent as int] + 1;
        self.depth = Ghost(od.push(dl));
        self.hi = Ghost(if dl + 1 > old_self.hi@ { dl + 1 } else { old_self.hi@ });
        self.parent = Ghost(op.push((parent as int, i as int)));
        proof {
            let nn = self.nodes@;
            assert(nn =~= placed(on, parent, i as int, id).push(leaf_quad(d, NIL)));
            old_self.lemma_quad(parent as int);
            Quadtree::lemma_old_quads_ok(
                old_self,
                nn,
                self.depth@,
                self.hi@,
                self.parent@,
                parent,
                i as int,
                id,
                Seq::empty(),
                0,
            );
            lemma_fresh_leaf_ok(nn, self.depth@, self.hi@, self.parent@, id as int, d);
            assert forall|p: int| 0 <= p < nn.len() implies self.lo@ <= #[trigger] self.depth@[p] by {
                if p < on.len() {
                    old_self.lemma_quad(p);
                }
            }
            Quadtree::lemma_old_back_ok(old_self, nn, self.parent@, parent, i as int, id);
            lemma_with_child(on[parent as int], i as int, id);
            assert(back_ok(nn, self.parent@, id as int));
            reveal(Quadtree::wf);
            broadcast use vstd::seq_lib::to_multiset_build;
            self.lemma_points_are_arena_points();
            old_self.lemma_points_are_arena_points();
            assert forall|j: int| 0 <= j < on.len() implies #[trigger] self@.nodes[j].data == on[j].data by {
                if parent != NIL && j == parent as int {
                    lemma_with_child(on[parent as int], i as int, id);
                }
            }
            lemma_arena_points_frame(on, self@.nodes, on.len() as int);
            assert(arena_points(self@.nodes, on.len() as int + 1) == arena_points(on, on.len() as int).push(d));
        }
    }

    /// Put a new leaf for point `d`, coincident with the leaf in slot `i`
    /// of `parent` (the root when `parent` is [`NIL`]), in front of that
    /// leaf's chain. The new leaf gets the next free index.
    pub fn push_coincident(&mut self, parent: u32, i: usize, d: u32)
        requires
            old(self).wf(),
            leaf_slot(old(self)@, parent, i as int),
            d != NIL,
            old(self)@.nodes.len() + 1 < NIL,
        ensures
            final(self).wf(),
            final(self)@.root == placed_root(old(self)@.root, parent, old(self)@.nodes.len() as u32),
            final(self)@.nodes == placed(
                old(self)@.nodes,
                parent,
                i as int,
                old(self)@.nodes.len() as u32,
            ).push(leaf_quad(d, occupant(old(self)@, parent, i as int))),
            final(self).points_spec().to_multiset() == old(self).points_spec().to_multiset().insert(d),
    {
        let ghost old_self = *self;
        proof {
            old_self.lemma_wf();
        }
        let ghost on = self.nodes@;
        let id = self.nodes.len() as u32;
        let occ = if parent == NIL {
            self.root
        } else {
            self.nodes[parent as usize].children[i]
        };
        if parent == NIL {
            self.root = id;
        } else {
            let mut q = self.nodes[parent as usize];
            q.children[i] = id;
            assert(q.children =~= with_child(on[parent as int], i as int, id).children);
            self.nodes.set(parent as usize, q);
        }
        self.nodes.push(Quad { children: [NIL, NIL, NIL, NIL], data: d, next: occ });
        let ghost od = old_self.depth@;
        let ghost op = old_self.parent@;
        self.depth = Ghost(od.push(od[occ as int]));
        self.parent = Ghost(op.update(occ as int, (id as int, 4int)).push(op[occ as int]));
        proof {
            let nn = self.nodes@;
            let nd = self.depth@;
            let np = self.parent@;
            assert(nn =~= placed(on, parent, i as int, id).push(leaf_quad(d, occ)));
            old_self.lemma_quad(occ as int);
            if parent != NIL {
                old_self.lemma_quad(parent as int);
                lemma_link_ok(on, od, old_self.hi@, op, parent as int, i as int);
            }
            Quadtree::lemma_old_quads_ok(
                old_self,
                nn,
                nd,
                self.hi@,
                np,
                parent,
                i as int,
                id,
                Seq::empty(),
                0,
            );
            let p = id as int;
            assert forall|k: int| 0 <= k < 5 implies #[trigger] link_ok(nn, nd, np, p, k) by {
                if k == 4 {
                    assert(link_of(nn[p], 4) == occ);
                } else {
                    assert(link_of(nn[p], k) == NIL);
                }
            }
            lemma_quad_ok_intro(nn, nd, self.hi@, np, p);
            assert forall|j: int| 0 <= j < nn.len() implies self.lo@ <= #[trigger] self.depth@[j] by {
                if j < on.len() {
                    old_self.lemma_quad(j);
                }
            }
            Quadtree::lemma_old_back_ok(old_self, nn, np, parent, i as int, id);
            assert(back_ok(nn, np, occ as int));
            if parent != NIL {
                lemma_with_child(on[parent as int], i as int, id);
                assert(op[occ as int] == (parent as int, i as int));
                assert(back_ok(nn, np, id as int));
                assert(self.root == old_self.root);
                assert(old_self.root != occ) by {
                    if old_self.root == occ {
                        assert(op[occ as int] == (-1int, 0int));
                    }
                }
            }
            reveal(Quadtree::wf);
            broadcast use vstd::seq_lib::to_multiset_build;
            self.lemma_points_are_arena_points();
            old_self.lemma_points_are_arena_points();
            assert forall|j: int| 0 <= j < on.len() implies #[trigger] self@.nodes[j].data == on[j].data by {
                if parent != NIL && j == parent as int {
                    lemma_with_child(on[parent as int], i as int, id);
                }
            }
            lemma_arena_points_frame(on, self@.nodes, on.len() as int);
            assert(arena_points(self@.nodes, on.len() as int + 1) == arena_points(on, on.len() as int).push(d));
        }
    }

    /// Grow the tree upward: a new internal root whose child `i` is the
    /// old (internal) root. The new root gets the next free index.
    pub fn grow(&mut self, i: usize)
        requires
            old(self).wf(),
            old(self)@.root != NIL,
            !old(self)@.nodes[old(self)@.root as int].is_leaf(),
            i < 4,
            old(self)@.nodes.len() + 1 < NIL,
        ensures
            final(self).wf(),
            final(self)@.root == old(self)@.nodes.len() as u32,
            final(self)@.nodes == old(self)@.nodes.push(
                with_child(internal_quad(), i as int, old(self)@.root),
            ),
            final(self).points_spec().to_multiset() == old(self).points_spec().to_multiset(),
    {
        let ghost old_self = *self;
        proof {
            old_self.lemma_wf();
        }
        let ghost on = self.nodes@;
        let ghost od = self.depth@;
        let ghost op = self.parent@;
        let id = self.nodes.len() as u32;
        let old_root = self.root;
        let mut q = Quad { children: [NIL, NIL, NIL, NIL], data: NIL, next: NIL };
        q.children[i] = old_root;
        assert(q.children =~= with_child(internal_quad(), i as int, old_root).children);
        self.nodes.push(q);
        self.root = id;
        self.depth = Ghost(od.push(od[old_root as int] - 1));
        self.lo = Ghost(
            if od[old_root as int] - 1 < old_self.lo@ {
                od[old_root as int] - 1
            } else {
                old_self.lo@
            },
        );
        self.parent = Ghost(op.update(old_root as int, (id as int, i as int)).push((-1int, 0int)));
        proof {
            let nn = self.nodes@;
            let nd = self.depth@;
            let np = self.parent@;
            old_self.lemma_quad(old_root as int);
            assert forall|p: int| 0 <= p < on.len() implies #[trigger] quad_ok(nn, nd, self.hi@, np, p) by {
                old_self.lemma_quad(p);
                assert(nn[p] == on[p]);
                assert forall|k: int| 0 <= k < 5 implies #[trigger] link_ok(nn, nd, np, p, k) by {
                    lemma_link_ok(on, od, old_self.hi@, op, p, k);
                    let c = link_of(on[p], k);
                    if c != NIL {
                        assert(op[c as int] == (p, k));
                    }
                    lemma_link_kept(on, od, op, nn, nd, np, p, k);
                }
                lemma_quad_ok_intro(nn, nd, self.hi@, np, p);
            }
            let p = id as int;
            lemma_with_child(internal_quad(), i as int, old_root);
            assert forall|k: int| 0 <= k < 5 implies #[trigger] link_ok(nn, nd, np, p, k) by {
                if k == i {
                    assert(link_of(nn[p], k) == old_root);
                } else if k < 4 {
                    assert(link_of(nn[p], k) == NIL);
                }
            }
            lemma_quad_ok_intro(nn, nd, self.hi@, np, p);
            assert forall|j: int| 0 <= j < nn.len() implies self.lo@ <= #[trigger] self.depth@[j] by {
                if j < on.len() {
                    old_self.lemma_quad(j);
                }
            }
            assert forall|j: int| 0 <= j < on.len() implies #[trigger] nn[j] == placed(on, NIL, 0, id)[j] by {}
            Quadtree::lemma_old_back_ok(old_self, nn, np, NIL, 0, id);
            assert(back_ok(nn, np, old_root as int));
            reveal(Quadtree::wf);
            self.lemma_points_are_arena_points();
            old_self.lemma_points_are_arena_points();
            lemma_arena_points_frame(on, self@.nodes, on.len() as int);
            lemma_arena_points_internal(self@.nodes, on.len() as int, 1);
        }
    }

    /// Separate a new point `d` from the leaf in slot `i` of `parent` (the
    /// root when `parent` is [`NIL`]): the new leaf gets the next free
    /// index, then one internal quad per entry of `common` (the quadrant
    /// both points fall in at that depth) plus one where they part, the new
    /// point going to `new_i` and the old leaf, with its chain, to `old_j`.
    /// The first of those internal quads takes the slot.
    pub fn split(
        &mut self,
        parent: u32,
        i: usize,
        common: &[usize],
        new_i: usize,
        old_j: usize,
        d: u32,
    )
        requires
            old(self).wf(),
            leaf_slot(old(self)@, parent, i as int),
            d != NIL,
            new_i < 4,
            old_j < 4,
            new_i != old_j,
            forall|t: int| 0 <= t < common@.len() ==> #[trigger] common@[t] < 4,
            old(self)@.nodes.len() + common@.len() + 2 < NIL,
        ensures
            final(self).wf(),
            final(self)@.root == placed_root(
                old(self)@.root,
                parent,
                (old(self)@.nodes.len() + 1) as u32,
            ),
            final(self)@.nodes == placed(
                old(self)@.nodes,
                parent,
                i as int,
                (old(self)@.nodes.len() + 1) as u32,
            ).push(leaf_quad(d, NIL)) + split_quads(
                old(self)@.nodes.len() as int,
                common@,
                new_i as int,
                old_j as int,
                occupant(old(self)@, parent, i as int),
            ),
            occupant(final(self)@, parent, i as int) == old(self)@.nodes.len() + 1,
            final(self)@.nodes[old(self)@.nodes.len() as int] == leaf_quad(d, NIL),
            forall|q: int, c: int|
                old(self)@.nodes.len() + 1 <= q < old(self)@.nodes.len() + 1 + common@.len() && 0 <= c < 4
                    ==> #[trigger] final(self)@.nodes[q].children@[c] == if c == common@[q - old(self)@.nodes.len() - 1] as int {
                    (q + 1) as u32
                } else {
                    NIL
                },
            forall|c: int|
                0 <= c < 4 ==> #[trigger] final(self)@.nodes[(old(self)@.nodes.len() + 1 + common@.len()) as int].children@[c]
                    == if c == new_i as int {
                    old(self)@.nodes.len() as u32
                } else if c == old_j as int {
                    occupant(old(self)@, parent, i as int)
                } else {
                    NIL
                },
            final(self).points_spec().to_multiset() == old(self).points_spec().to_multiset().insert(d),
    {
        let ghost old_self = *self;
        proof {
            old_self.lemma_wf();
        }
        let ghost on = self.nodes@;
        let ghost od = self.depth@;
        let ghost op = self.parent@;
        let base = self.nodes.len() as u32;
        let k = common.len();
        let occ = if parent == NIL {
            self.root
        } else {
            self.nodes[parent as usize].children[i]
        };
        let first = base + 1;
        if parent == NIL {
            self.root = first;
        } else {
            let mut q = self.nodes[parent as usize];
            q.children[i] = first;
            assert(q.children =~= with_child(on[parent as int], i as int, first).children);
            self.nodes.set(parent as usize, q);
        }
        self.nodes.push(Quad { children: [NIL, NIL, NIL, NIL], data: d, next: NIL });
        let ghost pre = self.nodes@;
        let ghost quads = split_quads(base as int, common@, new_i as int, old_j as int, occ);
        let mut t: usize = 0;
        while t < k
            invariant
                t <= k,
                k == common@.len(),
                quads == split_quads(base as int, common@, new_i as int, old_j as int, occ),
                base as int + k + 2 < NIL,
                self.nodes@ == pre + quads.take(t as int),
                self.root == placed_root(old_self@.root, parent, first),
                self.lo@ == old_self.lo@,
                forall|u: int| 0 <= u < common@.len() ==> #[trigger] common@[u] < 4,
            decreases k - t,
        {
            let mut q = Quad { children: [NIL, NIL, NIL, NIL], data: NIL, next: NIL };
            let c = common[t];
            q.children[c] = base + 2 + t as u32;
            assert(q.children =~= with_child(internal_quad(), c as int, (base + 2 + t) as u32).children);
            assert(q == quads[t as int]);
            self.nodes.push(q);
            assert(quads.take(t + 1) =~= quads.take(t as int).push(quads[t as int]));
            t = t + 1;
        }
        let mut q = Quad { children: [NIL, NIL, NIL, NIL], data: NIL, next: NIL };
        q.children[old_j] = occ;
        q.children[new_i] = base;
        assert(q.children =~= with_child(with_child(internal_quad(), old_j as int, occ), new_i as int, base).children);
        assert(q == quads[k as int]);
        self.nodes.push(q);
        assert(quads.take(k as int).push(quads[k as int]) =~= quads);
        let ghost b = od[occ as int];
        let ghost kk = k as int;
        self.depth = Ghost(old_self.split_depth(occ, kk));
        self.hi = Ghost(if b + kk + 2 > old_self.hi@ { b + kk + 2 } else { old_self.hi@ });
        self.parent = Ghost(old_self.split_parent(occ, common@, new_i as int, old_j as int));
        proof {
            let nn = self.nodes@;
            assert(nn =~= placed(on, parent, i as int, first).push(leaf_quad(d, NIL)) + quads);
            let nd = self.depth@;
            let np = self.parent@;
            Quadtree::lemma_split_ok(
                old_self,
                nn,
                nd,
                self.hi@,
                self.lo@,
                np,
                parent,
                i as int,
                common@,
                new_i as int,
                old_j as int,
                d,
            );
            let occ_parent = op[occ as int];
            assert forall|j: int| 0 <= j < on.len() implies #[trigger] nn[j] == placed(on, parent, i as int, first)[j] by {}
            assert forall|j: int| 0 <= j < on.len() && j != occ implies #[trigger] np[j] == op[j] by {}
            Quadtree::lemma_old_back_ok(old_self, nn, np, parent, i as int, first);
            Quadtree::lemma_split_back(old_self, nn, np, parent, i as int, common@, new_i as int, old_j as int, d);
            if parent != NIL {
                old_self.lemma_quad(parent as int);
                lemma_link_ok(on, od, old_self.hi@, op, parent as int, i as int);
                assert(occ_parent == (parent as int, i as int));
                assert(self.root == old_self@.root);
                assert(np[self.root as int] == op[self.root as int]);
            } else {
                assert(occ_parent == (-1int, 0int));
                assert(np[first as int] == occ_parent);
            }
            reveal(Quadtree::wf);
            broadcast use vstd::seq_lib::to_multiset_build;
            self.lemma_points_are_arena_points();
            old_self.lemma_points_are_arena_points();
            assert forall|j: int| 0 <= j < on.len() implies #[trigger] nn[j].data == on[j].data by {
                if parent != NIL && j == parent as int {
                    lemma_with_child(on[parent as int], i as int, first);
                }
            }
            lemma_arena_points_frame(on, nn, on.len() as int);
            assert(arena_points(nn, on.len() as int + 1) == arena_points(on, on.len() as int).push(d));
            assert forall|j: int| on.len() + 1 <= j < on.len() + 1 + (kk + 1) implies #[trigger] nn[j].data == NIL by {
                let u = j - on.len() - 1;
                assert(nn[j] == quads[u]);
                if u < kk {
                    lemma_with_child(internal_quad(), common@[u] as int, (base + 2 + u) as u32);
                } else {
                    lemma_with_child(internal_quad(), old_j as int, occ);
                    lemma_with_child(with_child(internal_quad(), old_j as int, occ), new_i as int, base);
                }
            }
            lemma_arena_points_internal(nn, on.len() as int + 1, kk + 1);
            lemma_split_quads_path(base as int, common@, new_i as int, old_j as int, occ);
            assert forall|q: int, c: int|
                on.len() + 1 <= q < on.len() + 1 + kk && 0 <= c < 4 implies #[trigger] nn[q].children@[c] == if c
                    == common@[q - on.len() - 1] as int {
                    (q + 1) as u32
                } else {
                    NIL
                } by {
                assert(nn[q] == quads[q - on.len() - 1]);
            }
            assert(nn[on.len() + 1 + kk] == quads[kk]);
            assert(nn[on.len() as int] == leaf_quad(d, NIL));
            if parent != NIL {
                lemma_with_child(on[parent as int], i as int, first);
                assert(nn[parent as int] == with_child(on[parent as int], i as int, first));
            }
        }
    }

    /// The depths after a split of the leaf `occ` through `kk` common
    /// quadrants: `occ`'s chain goes below the new internal quads.
    closed spec fn split_depth(self, occ: u32, kk: int) -> Seq<int> {
        let b = self.depth@[occ as int];
        let ch = self.chain_ids(occ);
        Seq::new(
            self.nodes@.len(),
            |j: int|
                if ch.contains(j as u32) {
                    b + kk + 1
                } else {
                    self.depth@[j]
                },
        ).push(b + kk + 1) + Seq::new((kk + 1) as nat, |u: int| b + u)
    }

    /// The parent entries after that split.
    closed spec fn split_parent(self, occ: u32, common: Seq<usize>, new_i: int, old_j: int) -> Seq<(int, int)> {
        let base = self.nodes@.len() as int;
        let lastf = base + 1 + common.len();
        self.parent@.update(occ as int, (lastf, old_j)).push((lastf, new_i)) + Seq::new(
            (common.len() + 1) as nat,
            |u: int|
                if u == 0 {
                    self.parent@[occ as int]
                } else {
                    (base + u, common[u - 1] as int)
                },
        )
    }

    /// The quads a split adds, and the old leaf it moved, are linked from
    /// the slots their parent entries name.
    proof fn lemma_split_back(
        old: Quadtree,
        nn: Seq<Quad>,
        np: Seq<(int, int)>,
        parent: u32,
        i: int,
        common: Seq<usize>,
        new_i: int,
        old_j: int,
        d: u32,
    )
        requires
            old.wf(),
            leaf_slot(old@, parent, i),
            0 <= new_i < 4,
            0 <= old_j < 4,
            new_i != old_j,
            forall|t: int| 0 <= t < common.len() ==> #[trigger] common[t] < 4,
            old@.nodes.len() + common.len() + 2 < NIL,
            nn == placed(old@.nodes, parent, i, (old@.nodes.len() + 1) as u32).push(leaf_quad(d, NIL))
                + split_quads(old@.nodes.len() as int, common, new_i, old_j, occupant(old@, parent, i)),
            np == old.split_parent(occupant(old@, parent, i), common, new_i, old_j),
        ensures
            forall|c: int|
                old@.nodes.len() <= c < nn.len() && c != placed_root(
                    old@.root,
                    parent,
                    (old@.nodes.len() + 1) as u32,
                ) ==> #[trigger] back_ok(nn, np, c),
            back_ok(nn, np, occupant(old@, parent, i) as int),
    {
        old.lemma_wf();
        let on = old@.nodes;
        let base = on.len() as int;
        let occ = occupant(old@, parent, i);
        let kk = common.len() as int;
        let lastf = base + 1 + kk;
        let quads = split_quads(base, common, new_i, old_j, occ);
        lemma_with_child(internal_quad(), old_j, occ);
        lemma_with_child(with_child(internal_quad(), old_j, occ), new_i, base as u32);
        assert(nn[lastf] == quads[kk]);
        assert(np[occ as int] == (lastf, old_j));
        assert(link_of(nn[lastf], old_j) == occ);
        assert(back_ok(nn, np, occ as int));
        assert forall|c: int|
            base <= c < nn.len() && c != placed_root(old@.root, parent, (base + 1) as u32) implies #[trigger] back_ok(nn, np, c) by {
            if c == base {
                assert(np[c] == (lastf, new_i));
                assert(link_of(nn[lastf], new_i) == base as u32);
            } else if c == base + 1 {
                assert(np[c] == old.parent@[occ as int]);
                if parent != NIL {
                    old.lemma_quad(parent as int);
                    lemma_link_ok(on, old.depth@, old.hi@, old.parent@, parent as int, i);
                    lemma_with_child(on[parent as int], i, (base + 1) as u32);
                    assert(nn[parent as int] == with_child(on[parent as int], i, (base + 1) as u32));
                }
            } else {
                let u = c - base - 1;
                assert(np[c] == (base + u, common[u - 1] as int));
                assert(nn[base + u] == quads[u - 1]);
                lemma_with_child(internal_quad(), common[u - 1] as int, (base + 2 + u - 1) as u32);
                assert(link_of(nn[base + u], common[u - 1] as int) == c as u32);
            }
        }
    }

    /// The bookkeeping [`Quadtree::split`] leaves behind is that of a
    /// well-formed tree.
    #[verifier::rlimit(40)]
    proof fn lemma_split_ok(
        old: Quadtree,
        nn: Seq<Quad>,
        nd: Seq<int>,
        nhi: int,
        nlo: int,
        np: Seq<(int, int)>,
        parent: u32,
        i: int,
        common: Seq<usize>,
        new_i: int,
        old_j: int,
        d: u32,
    )
        requires
            old.wf(),
            leaf_slot(old@, parent, i),
            d != NIL,
            0 <= new_i < 4,
            0 <= old_j < 4,
            new_i != old_j,
            forall|t: int| 0 <= t < common.len() ==> #[trigger] common[t] < 4,
            old@.nodes.len() + common.len() + 2 < NIL,
            ({
                let on = old@.nodes;
                let base = on.len() as int;
                let occ = occupant(old@, parent, i);
                let b = old.depth@[occ as int];
                let kk = common.len() as int;
                let lastf = base + 1 + kk;
                let ch = old.chain_ids(occ);
                &&& nn == placed(on, parent, i, (base + 1) as u32).push(leaf_quad(d, NIL))
                    + split_quads(base, common, new_i, old_j, occ)
                &&& nd == old.split_depth(occ, kk)
                &&& nhi == if b + kk + 2 > old.hi@ {
                    b + kk + 2
                } else {
                    old.hi@
                }
                &&& nlo == old.lo@
                &&& np == old.split_parent(occ, common, new_i, old_j)
            }),
        ensures
            forall|p: int| 0 <= p < nn.len() ==> #[trigger] quad_ok(nn, nd, nhi, np, p),
            forall|p: int| 0 <= p < nn.len() ==> nlo <= #[trigger] nd[p],
    {
        let on = old@.nodes;
        let od = old.depth@;
        let op = old.parent@;
        let base = on.len() as int;
        let occ = occupant(old@, parent, i);
        let b = od[occ as int];
        let kk = common.len() as int;
        let lastf = base + 1 + kk;
        let first = (base + 1) as u32;
        let ch = old.chain_ids(occ);
        let quads = split_quads(base, common, new_i, old_j, occ);
        old.lemma_wf();
        old.lemma_chain_start(occ);
        old.lemma_quad(occ as int);
        assert(ch.contains(occ));
        if parent != NIL {
            old.lemma_quad(parent as int);
            lemma_link_ok(on, od, old.hi@, op, parent as int, i);
            assert(op[occ as int] == (parent as int, i));
        } else {
            assert(op[occ as int] == (-1int, 0int));
        }
        assert(nd[first as int] == b);
        assert forall|j: int| 0 <= j < ch.len() implies #[trigger] nd[ch[j] as int] == b + kk + 1 by {
            old.lemma_chain_at(occ, j);
            assert(ch.contains(ch[j]));
        }
        assert forall|j: int|
            0 <= j < on.len() && !ch.contains(j as u32) implies #[trigger] nd[j] == od[j] by {}
        assert forall|j: int| 0 <= j < on.len() && j != occ implies #[trigger] np[j] == op[j] by {}
        assert forall|j: int| 0 <= j < on.len() implies #[trigger] nn[j] == placed(on, parent, i, first)[j] by {}
        Quadtree::lemma_old_quads_ok(old, nn, nd, nhi, np, parent, i, first, ch, b + kk + 1);
        assert forall|p: int| 0 <= p < nn.len() implies #[trigger] quad_ok(nn, nd, nhi, np, p) by {
            if p == base {
                assert(nn[p] == leaf_quad(d, NIL));
                lemma_fresh_leaf_ok(nn, nd, nhi, np, p, d);
            } else if p > base {
                let u = p - base - 1;
                assert(nn[p] == quads[u]);
                assert(nd[p] == b + u);
                if u < kk {
                    lemma_with_child(internal_quad(), common[u] as int, (base + 2 + u) as u32);
                    assert(nd[p + 1] == b + u + 1);
                    assert(np[p + 1] == (p, common[u] as int));
                    assert forall|k2: int| 0 <= k2 < 5 implies #[trigger] link_ok(nn, nd, np, p, k2) by {
                        if k2 == common[u] as int {
                            assert(link_of(nn[p], k2) == (p + 1) as u32);
                        } else if k2 < 4 {
                            assert(link_of(nn[p], k2) == NIL);
                        }
                    }
                } else {
                    lemma_with_child(internal_quad(), old_j, occ);
                    lemma_with_child(with_child(internal_quad(), old_j, occ), new_i, base as u32);
                    assert(nd[occ as int] == b + kk + 1);
                    assert(nd[base] == b + kk + 1);
                    assert(np[occ as int] == (p, old_j));
                    assert(np[base] == (p, new_i));
                    assert forall|k2: int| 0 <= k2 < 5 implies #[trigger] link_ok(nn, nd, np, p, k2) by {
                        if k2 == old_j {
                            assert(link_of(nn[p], k2) == occ);
                        } else if k2 == new_i {
                            assert(link_of(nn[p], k2) == base as u32);
                        } else if k2 < 4 {
                            assert(link_of(nn[p], k2) == NIL);
                        }
                    }
                }
                lemma_quad_ok_intro(nn, nd, nhi, np, p);
            }
        }
        assert forall|p: int| 0 <= p < nn.len() implies nlo <= #[trigger] nd[p] by {
            if p < base {
                old.lemma_quad(p);
            }
        }
    }
}

/// One entry of a pre-order walk: the quad, the position of its parent's
/// entry (none for the root) and which child of the parent it is, and the
/// position just past its subtree (where a walk that prunes it resumes).
#[derive(Clone, Copy, Debug)]
pub struct VisitStep {
    pub node: u32,
    pub parent: Option<usize>,
    pub quadrant: usize,
    pub skip: usize,
}

impl Quadtree {
    /// How far quad `n` sits above the deepest level the tree has had;
    /// strictly smaller for every child.
    pub closed spec fn height(self, n: u32) -> int {
        self.hi@ - self.depth@[n as int]
    }

    /// The quads of the subtree at `n` in pre-order, children `0, 1, 2, 3`
    /// (the order in which `visit` reaches them).
    pub closed spec fn pre_of(self, n: u32) -> Seq<u32>
        decreases self.height(n),
        when self.wf() && (n == NIL || (n as int) < self@.nodes.len())
    {
        if n == NIL {
            seq![]
        } else {
            let q = self.nodes@[n as int];
            if q.data != NIL {
                seq![n]
            } else {
                proof {
                    self.lemma_quad(n as int);
                    assert(link_of(q, 0) == q.children@[0]);
                    assert(link_of(q, 1) == q.children@[1]);
                    assert(link_of(q, 2) == q.children@[2]);
                    assert(link_of(q, 3) == q.children@[3]);
                    if q.children@[0] != NIL {
                        self.lemma_quad(q.children@[0] as int);
                    }
                    if q.children@[1] != NIL {
                        self.lemma_quad(q.children@[1] as int);
                    }
                    if q.children@[2] != NIL {
                        self.lemma_quad(q.children@[2] as int);
                    }
                    if q.children@[3] != NIL {
                        self.lemma_quad(q.children@[3] as int);
                    }
                }
                seq![n] + (if q.children@[0] == NIL {
                    seq![]
                } else {
                    self.pre_of(q.children@[0])
                }) + (if q.children@[1] == NIL {
                    seq![]
                } else {
                    self.pre_of(q.children@[1])
                }) + (if q.children@[2] == NIL {
                    seq![]
                } else {
                    self.pre_of(q.children@[2])
                }) + (if q.children@[3] == NIL {
                    seq![]
                } else {
                    self.pre_of(q.children@[3])
                })
            }
        }
    }
}


impl Quadtree {
    /// The quads of the subtree at `n` in post-order, children `0, 1, 2, 3`
    /// (the order in which `visit_after` reaches them).
    pub closed spec fn post_of(self, n: u32) -> Seq<u32>
        decreases self.height(n),
        when self.wf() && (n == NIL || (n as int) < self@.nodes.len())
    {
        if n == NIL {
            seq![]
        } else {
            let q = self.nodes@[n as int];
            if q.data != NIL {
                seq![n]
            } else {
                proof {
                    self.lemma_quad(n as int);
                    assert(link_of(q, 0) == q.children@[0]);
                    assert(link_of(q, 1) == q.children@[1]);
                    assert(link_of(q, 2) == q.children@[2]);
                    assert(link_of(q, 3) == q.children@[3]);
                    if q.children@[0] != NIL {
                        self.lemma_quad(q.children@[0] as int);
                    }
                    if q.children@[1] != NIL {
                        self.lemma_quad(q.children@[1] as int);
                    }
                    if q.children@[2] != NIL {
                        self.lemma_quad(q.children@[2] as int);
                    }
                    if q.children@[3] != NIL {
                        self.lemma_quad(q.children@[3] as int);
                    }
                }
                (if q.children@[0] == NIL {
                    seq![]
                } else {
                    self.post_of(q.children@[0])
                }) + (if q.children@[1] == NIL {
                    seq![]
                } else {
                    self.post_of(q.children@[1])
                }) + (if q.children@[2] == NIL {
                    seq![]
                } else {
                    self.post_of(q.children@[2])
                }) + (if q.children@[3] == NIL {
                    seq![]
                } else {
                    self.post_of(q.children@[3])
                }) + seq![n]
            }
        }
    }

    /// The pre-order of child `c` of quad `n` (empty when absent).
    pub open spec fn kid_pre(self, n: u32, c: int) -> Seq<u32> {
        let ch = self@.nodes[n as int].children@[c];
        if ch == NIL {
            seq![]
        } else {
            self.pre_of(ch)
        }
    }

    /// The post-order of child `c` of quad `n` (empty when absent).
    pub open spec fn kid_post(self, n: u32, c: int) -> Seq<u32> {
        let ch = self@.nodes[n as int].children@[c];
        if ch == NIL {
            seq![]
        } else {
            self.post_of(ch)
        }
    }

    /// Entries `lo .. hi` of a walk are consistent: each knows where its
    /// subtree ends, and each but the first hangs below an earlier entry
    /// of the same range.
    pub open spec fn steps_ok(self, s: Seq<VisitStep>, lo: int, hi: int) -> bool {
        forall|j: int|
            lo <= j < hi ==> {
                &&& (#[trigger] s[j]).skip == j + self.pre_of(s[j].node).len()
                &&& j > lo ==> (s[j].parent matches Some(pp) && lo <= pp < j && s[j].quadrant < 4
                    && self@.nodes[s[pp as int].node as int].children@[s[j].quadrant as int]
                    == s[j].node)
            }
    }

    /// Facts about the subtree below a quad of a well-formed tree.
    proof fn lemma_pre_unfold(self, n: u32)
        requires
            self.wf(),
            n != NIL,
            (n as int) < self@.nodes.len(),
        ensures
            self@.nodes[n as int].is_leaf() ==> self.pre_of(n) == seq![n] && self.post_of(n)
                == seq![n],
            !self@.nodes[n as int].is_leaf() ==> self.pre_of(n) == seq![n] + self.kid_pre(n, 0)
                + self.kid_pre(n, 1) + self.kid_pre(n, 2) + self.kid_pre(n, 3),
            !self@.nodes[n as int].is_leaf() ==> self.post_of(n) == self.kid_post(n, 0)
                + self.kid_post(n, 1) + self.kid_post(n, 2) + self.kid_post(n, 3) + seq![n],
            forall|c: int|
                0 <= c < 4 && #[trigger] self@.nodes[n as int].children@[c] != NIL ==> (
                self@.nodes[n as int].children@[c] as int) < self@.nodes.len(),
    {
        let q = self.nodes@[n as int];
        self.lemma_quad(n as int);
        assert forall|c: int|
            0 <= c < 4 && #[trigger] self@.nodes[n as int].children@[c] != NIL implies (
            self@.nodes[n as int].children@[c] as int) < self@.nodes.len() by {
            assert(link_of(q, c) == q.children@[c]);
        }
    }

    /// The pre-orders of children `0 .. c` of quad `n`, one after another.
    pub open spec fn kids_pre(self, n: u32, c: int) -> Seq<u32>
        decreases c,
    {
        if c <= 0 {
            seq![]
        } else {
            self.kids_pre(n, c - 1) + self.kid_pre(n, c - 1)
        }
    }

    /// The post-orders of children `0 .. c` of quad `n`, one after another.
    pub open spec fn kids_post(self, n: u32, c: int) -> Seq<u32>
        decreases c,
    {
        if c <= 0 {
            seq![]
        } else {
            self.kids_post(n, c - 1) + self.kid_post(n, c - 1)
        }
    }

    /// Entries `lo .. hi` of a walk know where their subtrees end and hang
    /// below an earlier entry at or after `top`.
    pub open spec fn hang_below(self, s: Seq<VisitStep>, top: int, lo: int, hi: int) -> bool {
        forall|j: int|
            lo <= j < hi ==> {
                &&& (#[trigger] s[j]).skip == j + self.pre_of(s[j].node).len()
                &&& (s[j].parent matches Some(pp) && top <= pp < j && s[j].quadrant < 4
                    && self@.nodes[s[pp as int].node as int].children@[s[j].quadrant as int]
                    == s[j].node)
            }
    }

    /// A walk starts at the quad it walks.
    proof fn lemma_pre_first(self, n: u32)
        requires
            self.wf(),
            n != NIL,
            (n as int) < self@.nodes.len(),
        ensures
            self.pre_of(n).len() >= 1,
            self.pre_of(n)[0] == n,
    {
        self.lemma_pre_unfold(n);
    }

    /// [`Quadtree::lemma_pre_valid`] for child `c` of `n`.
    proof fn lemma_kid_valid(self, n: u32, c: int)
        requires
            self.wf(),
            n != NIL,
            (n as int) < self@.nodes.len(),
            !self@.nodes[n as int].is_leaf(),
            0 <= c < 4,
        ensures
            forall|j: int|
                0 <= j < self.kid_pre(n, c).len() ==> #[trigger] self.kid_pre(n, c)[j] != NIL && (
                self.kid_pre(n, c)[j] as int) < self@.nodes.len(),
        decreases self.height(n), 0int,
    {
        let q = self.nodes@[n as int];
        let ch = q.children@[c];
        if ch != NIL {
            self.lemma_quad(n as int);
            assert(link_of(q, c) == ch);
            self.lemma_quad(ch as int);
            self.lemma_pre_valid(ch);
        }
    }

    /// Every quad a walk reaches is a quad of the arena.
    proof fn lemma_pre_valid(self, n: u32)
        requires
            self.wf(),
            n != NIL,
            (n as int) < self@.nodes.len(),
        ensures
            forall|j: int|
                0 <= j < self.pre_of(n).len() ==> #[trigger] self.pre_of(n)[j] != NIL && (self.pre_of(
                    n,
                )[j] as int) < self@.nodes.len(),
        decreases self.height(n), 1int,
    {
        self.lemma_pre_unfold(n);
        if !self@.nodes[n as int].is_leaf() {
            let q = self.nodes@[n as int];
            self.lemma_quad(n as int);
            self.lemma_kid_valid(n, 0);
            self.lemma_kid_valid(n, 1);
            self.lemma_kid_valid(n, 2);
            self.lemma_kid_valid(n, 3);
            let k0 = self.kid_pre(n, 0);
            let k1 = self.kid_pre(n, 1);
            let k2 = self.kid_pre(n, 2);
            let k3 = self.kid_pre(n, 3);
            assert forall|j: int| 0 <= j < self.pre_of(n).len() implies #[trigger] self.pre_of(n)[j] != NIL && (self.pre_of(
                    n,
                )[j] as int) < self@.nodes.len() by {
                let a1 = 1 + k0.len();
                let a2 = a1 + k1.len();
                let a3 = a2 + k2.len();
                if j == 0 {
                } else if j < a1 {
                    assert(self.pre_of(n)[j] == k0[j - 1]);
                } else if j < a2 {
                    assert(self.pre_of(n)[j] == k1[j - a1]);
                } else if j < a3 {
                    assert(self.pre_of(n)[j] == k2[j - a2]);
                } else {
                    assert(self.pre_of(n)[j] == k3[j - a3]);
                }
            }
        }
    }

    #[verifier::rlimit(100)]
    /// Append the pre-order walk of the subtree at `n` to `steps` (its first
    /// entry hanging below `parent` as child `quadrant`) and the positions
    /// of its entries in post-order to `post`.
    fn emit(
        &self,
        n: u32,
        parent: Option<usize>,
        quadrant: usize,
        steps: &mut Vec<VisitStep>,
        post: &mut Vec<usize>,
    )
        requires
            self.wf(),
            n != NIL,
            (n as int) < self@.nodes.len(),
            quadrant < 4,
            parent matches Some(pp) ==> pp < old(steps)@.len(),
        ensures
            final(steps)@.len() == old(steps)@.len() + self.pre_of(n).len(),
            forall|j: int| 0 <= j < old(steps)@.len() ==> #[trigger] final(steps)@[j] == old(steps)@[j],
            forall|j: int|
                old(steps)@.len() <= j < final(steps)@.len() ==> #[trigger] final(steps)@[j].node
                    == self.pre_of(n)[j - old(steps)@.len()],
            final(steps)@[old(steps)@.len() as int].parent == parent,
            final(steps)@[old(steps)@.len() as int].quadrant == quadrant,
            self.steps_ok(final(steps)@, old(steps)@.len() as int, final(steps)@.len() as int),
            final(post)@.len() == old(post)@.len() + self.post_of(n).len(),
            forall|m: int| 0 <= m < old(post)@.len() ==> #[trigger] final(post)@[m] == old(post)@[m],
            forall|m: int|
                old(post)@.len() <= m < final(post)@.len() ==> old(steps)@.len() <= #[trigger] final(post)@[m] < final(steps)@.len() && final(steps)@[final(post)@[m] as int].node
                    == self.post_of(n)[m - old(post)@.len()],
        decreases self.height(n), 1int,
    {
        proof {
            self.lemma_pre_unfold(n);
        }
        let ghost s0 = steps@;
        let ghost q0 = post@;
        let pos = steps.len();
        steps.push(VisitStep { node: n, parent, quadrant, skip: pos });
        let q = self.nodes[n as usize];
        if !q.is_leaf() {
            let mut c: usize = 0;
            while c < 4
                invariant
                    self.wf(),
                    n != NIL,
                    (n as int) < self@.nodes.len(),
                    !self@.nodes[n as int].is_leaf(),
                    c <= 4,
                    pos == s0.len(),
                    steps@.len() == pos + 1 + self.kids_pre(n, c as int).len(),
                    forall|j: int| 0 <= j < pos ==> #[trigger] steps@[j] == s0[j],
                    steps@[pos as int] == (VisitStep { node: n, parent, quadrant, skip: pos }),
                    forall|j: int|
                        pos < j < steps@.len() ==> #[trigger] steps@[j].node == self.kids_pre(
                            n,
                            c as int,
                        )[j - pos - 1],
                    self.hang_below(steps@, pos as int, pos + 1, steps@.len() as int),
                    post@.len() == q0.len() + self.kids_post(n, c as int).len(),
                    forall|m: int| 0 <= m < q0.len() ==> #[trigger] post@[m] == q0[m],
                    forall|m: int|
                        q0.len() <= m < post@.len() ==> pos < #[trigger] post@[m] < steps@.len()
                            && steps@[post@[m] as int].node == self.kids_post(n, c as int)[m
                            - q0.len()],
                decreases 4 - c,
            {
                let ghost sb = steps@;
                let ghost pb = post@;
                self.emit_child(n, pos, c, steps, post);
                proof {
                    let sa = steps@;
                    let a = sb.len() as int;
                    let kp = self.kids_pre(n, c as int);
                    let kc = self.kid_pre(n, c as int);
                    assert(self.kids_pre(n, c + 1) == kp + kc);
                    assert(self.kids_post(n, c + 1) == self.kids_post(n, c as int) + self.kid_post(
                        n,
                        c as int,
                    ));
                    assert forall|j: int| pos < j < sa.len() implies #[trigger] sa[j].node
                        == self.kids_pre(n, c + 1)[j - pos - 1] by {
                        if j < a {
                            assert(sa[j] == sb[j]);
                        }
                    }
                    assert forall|j: int| pos + 1 <= j < sa.len() implies {
                        &&& (#[trigger] sa[j]).skip == j + self.pre_of(sa[j].node).len()
                        &&& (sa[j].parent matches Some(pp) && pos <= pp < j && sa[j].quadrant < 4
                            && self@.nodes[sa[pp as int].node as int].children@[sa[j].quadrant as int]
                            == sa[j].node)
                    } by {
                        if j < a {
                            assert(sa[j] == sb[j]);
                            assert(sb[j] == sb[j]);
                            if let Some(pp) = sb[j].parent {
                                assert(sa[pp as int] == sb[pp as int]);
                            }
                        } else {
                            assert(self.steps_ok(sa, a, sa.len() as int));
                            assert(sa[j] == sa[j]);
                            if j == a {
                                let ch = self@.nodes[n as int].children@[c as int];
                                assert(ch != NIL);
                                self.lemma_quad(n as int);
                                assert(link_of(self.nodes@[n as int], c as int) == ch);
                                self.lemma_pre_first(ch);
                                assert(sa[pos as int] == sb[pos as int]);
                            }
                        }
                    }
                    let pa = post@;
                    assert forall|m: int| q0.len() <= m < pa.len() implies pos < #[trigger] pa[m]
                        < sa.len() && sa[pa[m] as int].node == self.kids_post(n, c + 1)[m
                        - q0.len()] by {
                        if m < pb.len() {
                            assert(pa[m] == pb[m]);
                            assert(sa[pb[m] as int] == sb[pb[m] as int]);
                        }
                    }
                }
                c = c + 1;
            }
            proof {
                assert(self.kids_pre(n, 0) =~= Seq::<u32>::empty());
                assert(self.kids_pre(n, 1) =~= self.kid_pre(n, 0));
                assert(self.kids_pre(n, 2) =~= self.kid_pre(n, 0) + self.kid_pre(n, 1));
                assert(self.kids_pre(n, 3) =~= self.kid_pre(n, 0) + self.kid_pre(n, 1) + self.kid_pre(n, 2));
                assert(self.kids_post(n, 0) =~= Seq::<u32>::empty());
                assert(self.kids_post(n, 1) =~= self.kid_post(n, 0));
                assert(self.kids_post(n, 2) =~= self.kid_post(n, 0) + self.kid_post(n, 1));
                assert(self.kids_post(n, 3) =~= self.kid_post(n, 0) + self.kid_post(n, 1) + self.kid_post(n, 2));
                assert(self.kids_pre(n, 4) =~= self.kid_pre(n, 0) + self.kid_pre(n, 1) + self.kid_pre(n, 2) + self.kid_pre(n, 3));
                assert(self.kids_post(n, 4) =~= self.kid_post(n, 0) + self.kid_post(n, 1) + self.kid_post(n, 2) + self.kid_post(n, 3));
            }
        }
        let end = steps.len();
        let ghost sl = steps@;
        steps.set(pos, VisitStep { node: n, parent, quadrant, skip: end });
        post.push(pos);
        proof {
            let fs = steps@;
            let pr = self.pre_of(n);
            assert forall|j: int| pos <= j < fs.len() implies #[trigger] fs[j].node == pr[j - pos] by {
                if j > pos {
                    assert(fs[j] == sl[j]);
                }
            }
            assert forall|j: int| pos <= j < fs.len() implies {
                &&& (#[trigger] fs[j]).skip == j + self.pre_of(fs[j].node).len()
                &&& j > pos ==> (fs[j].parent matches Some(pp) && pos <= pp < j && fs[j].quadrant < 4
                    && self@.nodes[fs[pp as int].node as int].children@[fs[j].quadrant as int]
                    == fs[j].node)
            } by {
                if j > pos {
                    assert(fs[j] == sl[j]);
                    assert(sl[j] == sl[j]);
                    if let Some(pp) = sl[j].parent {
                        if pp > pos {
                            assert(fs[pp as int] == sl[pp as int]);
                        }
                    }
                }
            }
            let fp = post@;
            let po = self.post_of(n);
            assert forall|m: int| q0.len() <= m < fp.len() implies pos <= #[trigger] fp[m]
                < fs.len() && fs[fp[m] as int].node == po[m - q0.len()] by {
                if m < fp.len() - 1 {
                    if fp[m] > pos {
                        assert(fs[fp[m] as int] == sl[fp[m] as int]);
                    }
                }
            }
        }
    }

    /// [`Quadtree::emit`] for child `c` of `n`, whose entry sits at `pos`;
    /// nothing when that child is absent.
    fn emit_child(
        &self,
        n: u32,
        pos: usize,
        c: usize,
        steps: &mut Vec<VisitStep>,
        post: &mut Vec<usize>,
    )
        requires
            self.wf(),
            n != NIL,
            (n as int) < self@.nodes.len(),
            !self@.nodes[n as int].is_leaf(),
            c < 4,
            pos < old(steps)@.len(),
            old(steps)@[pos as int].node == n,
        ensures
            final(steps)@.len() == old(steps)@.len() + self.kid_pre(n, c as int).len(),
            forall|j: int| 0 <= j < old(steps)@.len() ==> #[trigger] final(steps)@[j] == old(steps)@[j],
            forall|j: int|
                old(steps)@.len() <= j < final(steps)@.len() ==> #[trigger] final(steps)@[j].node
                    == self.kid_pre(n, c as int)[j - old(steps)@.len()],
            old(steps)@.len() < final(steps)@.len() ==> final(steps)@[old(steps)@.len() as int].parent
                == Some(pos) && final(steps)@[old(steps)@.len() as int].quadrant == c,
            self.steps_ok(final(steps)@, old(steps)@.len() as int, final(steps)@.len() as int),
            final(post)@.len() == old(post)@.len() + self.kid_post(n, c as int).len(),
            forall|m: int| 0 <= m < old(post)@.len() ==> #[trigger] final(post)@[m] == old(post)@[m],
            forall|m: int|
                old(post)@.len() <= m < final(post)@.len() ==> old(steps)@.len() <= #[trigger] final(post)@[m] < final(steps)@.len() && final(steps)@[final(post)@[m] as int].node
                    == self.kid_post(n, c as int)[m - old(post)@.len()],
        decreases self.height(n), 0int,
    {
        proof {
            self.lemma_pre_unfold(n);
        }
        let ch = self.nodes[n as usize].children[c];
        if ch != NIL {
            proof {
                self.lemma_quad(n as int);
                assert(link_of(self.nodes@[n as int], c as int) == ch);
                assert(self.nodes@[n as int].children@[c as int] == ch);
                self.lemma_quad(ch as int);
            }
            self.emit(ch, Some(pos), c, steps, post);
        }
    }
}


impl Quadtree {
    /// The pre-order walk of the whole tree (the order of `visit`, which
    /// resumes at an entry's `skip` when it prunes that entry's subtree),
    /// and the positions of its entries in post-order (the order of
    /// `visit_after`).
    pub fn traversal(&self) -> (r: (Vec<VisitStep>, Vec<usize>))
        requires
            self.wf(),
        ensures
            r.0@.len() == self.pre_of(self@.root).len(),
            forall|j: int| 0 <= j < r.0@.len() ==> #[trigger] r.0@[j].node == self.pre_of(self@.root)[j],
            r.0@.len() > 0 ==> r.0@[0].parent is None,
            self.steps_ok(r.0@, 0, r.0@.len() as int),
            r.1@.len() == self.post_of(self@.root).len(),
            forall|m: int|
                0 <= m < r.1@.len() ==> #[trigger] r.1@[m] < r.0@.len() && r.0@[r.1@[m] as int].node
                    == self.post_of(self@.root)[m],
    {
        let mut steps: Vec<VisitStep> = Vec::new();
        let mut post: Vec<usize> = Vec::new();
        proof {
            self.lemma_wf();
        }
        if self.root != NIL {
            self.emit(self.root, None, 0, &mut steps, &mut post);
        }
        (steps, post)
    }

    /// The points of the leaf chain that starts at `n`, head first.
    pub closed spec fn chain_of(self, n: u32) -> Seq<u32>
        decreases n,
        when self.wf() && (n == NIL || (n as int) < self@.nodes.len())
    {
        if n == NIL || (n as int) >= self.nodes@.len() {
            seq![]
        } else {
            let q = self.nodes@[n as int];
            if q.data == NIL {
                seq![]
            } else {
                proof {
                    self.lemma_quad(n as int);
                }
                if q.next == NIL {
                    seq![q.data]
                } else {
                    seq![q.data] + self.chain_of(q.next)
                }
            }
        }
    }

    /// The points held at the quads of `walk`, chain by chain.
    pub open spec fn chains_of(self, walk: Seq<u32>) -> Seq<u32>
        decreases walk.len(),
    {
        if walk.len() == 0 {
            seq![]
        } else {
            self.chains_of(walk.drop_last()) + self.chain_of(walk.last())
        }
    }

    /// The points in the tree, in `visit` order, each chain head first.
    pub open spec fn points_spec(self) -> Seq<u32> {
        self.chains_of(self.pre_of(self@.root))
    }

    /// Append the chain that starts at `n` to `out`.
    fn push_chain(&self, n: u32, out: &mut Vec<u32>)
        requires
            self.wf(),
            n != NIL,
            (n as int) < self@.nodes.len(),
        ensures
            final(out)@ == old(out)@ + self.chain_of(n),
    {
        let mut cur = n;
        while cur != NIL
            invariant
                self.wf(),
                cur == NIL || (cur as int) < self@.nodes.len(),
                old(out)@ + self.chain_of(n) == out@ + self.chain_of(cur),
            decreases (if cur == NIL {
                0
            } else {
                cur as int + 1
            }),
        {
            let q = self.nodes[cur as usize];
            proof {
                self.lemma_quad(cur as int);
            }
            if q.data == NIL {
                assert(self.chain_of(cur) == Seq::<u32>::empty());
                assert(out@ + self.chain_of(cur) =~= out@);
                return;
            }
            let ghost before = out@;
            out.push(q.data);
            assert(self.chain_of(cur) == seq![q.data] + self.chain_of(q.next)) by {
                if q.next == NIL {
                    assert(self.chain_of(q.next) == Seq::<u32>::empty());
                    assert(seq![q.data] + self.chain_of(q.next) =~= seq![q.data]);
                }
            }
            assert(before + self.chain_of(cur) =~= out@ + self.chain_of(q.next));
            cur = q.next;
        }
        assert(self.chain_of(NIL) == Seq::<u32>::empty());
        assert(out@ + self.chain_of(cur) =~= out@);
    }

    /// The point indices held by the tree, in `visit` order, each chain
    /// head first.
    pub fn points(&self) -> (r: Vec<u32>)
        requires
            self.wf(),
        ensures
            r@ == self.points_spec(),
    {
        let (steps, _post) = self.traversal();
        let ghost walk = self.pre_of(self@.root);
        proof {
            self.lemma_wf();
            if self@.root != NIL {
                self.lemma_pre_valid(self@.root);
            }
        }
        let mut out: Vec<u32> = Vec::new();
        let mut k: usize = 0;
        while k < steps.len()
            invariant
                self.wf(),
                k <= steps@.len(),
                steps@.len() == walk.len(),
                walk == self.pre_of(self@.root),
                forall|j: int| 0 <= j < steps@.len() ==> #[trigger] steps@[j].node == walk[j],
                forall|j: int|
                    0 <= j < walk.len() ==> #[trigger] walk[j] != NIL && (walk[j] as int)
                        < self@.nodes.len(),
                out@ == self.chains_of(walk.take(k as int)),
            decreases steps@.len() - k,
        {
            let node = steps[k].node;
            proof {
                assert(walk[k as int] == node);
            }
            self.push_chain(node, &mut out);
            proof {
                assert(walk.take(k + 1).drop_last() =~= walk.take(k as int));
                assert(walk.take(k + 1).last() == node);
            }
            k = k + 1;
        }
        proof {
            assert(walk.take(k as int) =~= walk);
        }
        out
    }

    /// Number of points in the tree.
    pub fn size(&self) -> (r: usize)
        requires
            self.wf(),
        ensures
            r == self.points_spec().len(),
    {
        self.points().len()
    }
}


impl Quadtree {
    /// The quad `m` steps up from `c` along parent entries; `-1` once the
    /// climb has passed the root (or left the arena).
    pub closed spec fn climb(self, c: int, m: nat) -> int
        decreases m,
    {
        if m == 0 {
            c
        } else {
            let u = self.climb(c, (m - 1) as nat);
            if 0 <= u < self.nodes@.len() && u != self.root {
                self.parent@[u].0
            } else {
                -1
            }
        }
    }

    /// Quad `c` is the root or sits in a child slot (it is not reached
    /// through a leaf chain's `next`).
    pub closed spec fn is_head(self, c: int) -> bool {
        c == self.root || self.parent@[c].1 < 4
    }

    /// Climbing `a` steps and then `t` more is climbing `a + t` steps.
    proof fn lemma_climb_add(self, c: int, a: nat, t: nat)
        ensures
            self.climb(c, a + t) == self.climb(self.climb(c, a), t),
        decreases t,
    {
        if t > 0 {
            self.lemma_climb_add(c, a, (t - 1) as nat);
            assert(self.climb(c, a + t) == {
                let u = self.climb(c, (a + t - 1) as nat);
                if 0 <= u < self.nodes@.len() && u != self.root {
                    self.parent@[u].0
                } else {
                    -1
                }
            });
        }
    }

    /// Climbing from the invalid quad `-1` stays there.
    proof fn lemma_climb_gone(self, t: nat)
        ensures
            self.climb(-1, t) == -1,
        decreases t,
    {
        if t > 0 {
            self.lemma_climb_gone((t - 1) as nat);
        }
    }

    /// The parent of a head other than the root is an internal head one
    /// level up that holds it in a child slot.
    proof fn lemma_head_parent(self, c: int)
        requires
            self.wf(),
            0 <= c < self@.nodes.len(),
            self.is_head(c),
            c != self.root,
        ensures
            ({
                let p = self.parent@[c].0;
                let k = self.parent@[c].1;
                &&& 0 <= p < self@.nodes.len()
                &&& 0 <= k < 4
                &&& self@.nodes[p].children@[k] == c as u32
                &&& !self@.nodes[p].is_leaf()
                &&& self.is_head(p)
                &&& self.depth@[p] < self.depth@[c]
                &&& self.climb(c, 1) == p
            }),
    {
        self.lemma_wf();
        self.lemma_back(c);
        let p = self.parent@[c].0;
        let k = self.parent@[c].1;
        self.lemma_quad(p);
        lemma_link_ok(self.nodes@, self.depth@, self.hi@, self.parent@, p, k);
        assert(link_of(self@.nodes[p], k) == self@.nodes[p].children@[k]);
        if self@.nodes[p].is_leaf() {
            assert(self@.nodes[p].children@[k] == NIL);
        }
        if p != self.root {
            self.lemma_back(p);
            let g = self.parent@[p].0;
            let kg = self.parent@[p].1;
            self.lemma_quad(g);
            lemma_link_ok(self.nodes@, self.depth@, self.hi@, self.parent@, g, kg);
        }
        assert(self.climb(c, 1) == {
            let u = self.climb(c, 0);
            if 0 <= u < self.nodes@.len() && u != self.root {
                self.parent@[u].0
            } else {
                -1
            }
        });
    }

    /// Climbing from a head stays on heads that are internal and strictly
    /// shallower, as long as it stays in the arena.
    proof fn lemma_climb_up(self, c: int, m: nat)
        requires
            self.wf(),
            0 <= c < self@.nodes.len(),
            self.is_head(c),
            m >= 1,
            0 <= self.climb(c, m) < self@.nodes.len(),
        ensures
            self.is_head(self.climb(c, m)),
            !self@.nodes[self.climb(c, m)].is_leaf(),
            self.depth@[self.climb(c, m)] < self.depth@[c],
            0 <= self.climb(c, (m - 1) as nat) < self@.nodes.len(),
            self.climb(c, (m - 1) as nat) != self.root,
            self.parent@[self.climb(c, (m - 1) as nat)].0 == self.climb(c, m),
        decreases m,
    {
        let u = self.climb(c, (m - 1) as nat);
        if !(0 <= u < self.nodes@.len() && u != self.root) {
            assert(self.climb(c, m) == -1);
        }
        if m == 1 {
            self.lemma_head_parent(c);
        } else {
            self.lemma_climb_up(c, (m - 1) as nat);
            self.lemma_head_parent(u);
        }
    }

    /// Every head reaches the root by climbing.
    proof fn lemma_head_reaches_root(self, c: int) -> (m: nat)
        requires
            self.wf(),
            0 <= c < self@.nodes.len(),
            self.is_head(c),
        ensures
            self.climb(c, m) == self.root,
        decreases self.depth@[c] - self.lo@,
    {
        self.lemma_wf();
        if c == self.root {
            0
        } else {
            self.lemma_head_parent(c);
            let p = self.parent@[c].0;
            self.lemma_quad(p);
            self.lemma_quad(c);
            let m = self.lemma_head_reaches_root(p);
            self.lemma_climb_add(c, 1, m);
            (1 + m) as nat
        }
    }
}


impl Quadtree {
    /// The walk below an internal quad is the quad followed by its
    /// children's walks.
    proof fn lemma_pre_kids(self, n: u32)
        requires
            self.wf(),
            n != NIL,
            (n as int) < self@.nodes.len(),
            !self@.nodes[n as int].is_leaf(),
        ensures
            self.pre_of(n) == seq![n] + self.kids_pre(n, 4),
    {
        self.lemma_pre_unfold(n);
        assert(self.kids_pre(n, 0) =~= Seq::<u32>::empty());
        assert(self.kids_pre(n, 1) =~= self.kid_pre(n, 0));
        assert(self.kids_pre(n, 2) =~= self.kid_pre(n, 0) + self.kid_pre(n, 1));
        assert(self.kids_pre(n, 3) =~= self.kid_pre(n, 0) + self.kid_pre(n, 1) + self.kid_pre(n, 2));
        assert(self.kids_pre(n, 4) =~= self.kid_pre(n, 0) + self.kid_pre(n, 1) + self.kid_pre(n, 2)
            + self.kid_pre(n, 3));
        assert(self.pre_of(n) =~= seq![n] + self.kids_pre(n, 4));
    }

    /// Child `c` of an internal quad, when present, is a head one level
    /// down whose parent entry names that slot.
    proof fn lemma_child(self, n: u32, c: int)
        requires
            self.wf(),
            n != NIL,
            (n as int) < self@.nodes.len(),
            !self@.nodes[n as int].is_leaf(),
            0 <= c < 4,
            self@.nodes[n as int].children@[c] != NIL,
        ensures
            ({
                let y = self@.nodes[n as int].children@[c];
                &&& (y as int) < self@.nodes.len()
                &&& self.parent@[y as int] == (n as int, c)
                &&& y != self.root
                &&& self.is_head(y as int)
                &&& self.depth@[y as int] > self.depth@[n as int]
                &&& self.climb(y as int, 1) == n as int
                &&& self.height(y) < self.height(n)
                &&& self.height(y) >= 1
            }),
    {
        self.lemma_wf();
        self.lemma_quad(n as int);
        lemma_link_ok(self.nodes@, self.depth@, self.hi@, self.parent@, n as int, c);
        let y = self@.nodes[n as int].children@[c];
        self.lemma_quad(y as int);
        assert(link_of(self@.nodes[n as int], c) == y);
        assert(self.climb(y as int, 1) == {
            let u = self.climb(y as int, 0);
            if 0 <= u < self.nodes@.len() && u != self.root {
                self.parent@[u].0
            } else {
                -1
            }
        });
    }

    /// Entry `j` of the walk below `n` climbs back to `n`; every entry but
    /// the first is a head strictly deeper than `n`.
    proof fn lemma_pre_climb(self, n: u32, j: int) -> (m: nat)
        requires
            self.wf(),
            n != NIL,
            (n as int) < self@.nodes.len(),
            0 <= j < self.pre_of(n).len(),
        ensures
            ({
                let x = self.pre_of(n)[j] as int;
                &&& 0 <= x < self@.nodes.len()
                &&& self.climb(x, m) == n as int
                &&& j == 0 ==> x == n as int && m == 0
                &&& j > 0 ==> m >= 1 && self.is_head(x) && self.depth@[x] > self.depth@[n as int]
            }),
        decreases self.height(n), 1int, 0int,
    {
        self.lemma_pre_unfold(n);
        self.lemma_pre_valid(n);
        self.lemma_quad(n as int);
        if j == 0 {
            0
        } else {
            self.lemma_pre_kids(n);
            let r = self.lemma_kids_climb(n, 4, j - 1);
            r
        }
    }

    /// [`Quadtree::lemma_pre_climb`] for the walks of children `0 .. c`.
    proof fn lemma_kids_climb(self, n: u32, c: int, j: int) -> (m: nat)
        requires
            self.wf(),
            n != NIL,
            (n as int) < self@.nodes.len(),
            !self@.nodes[n as int].is_leaf(),
            0 <= c <= 4,
            0 <= j < self.kids_pre(n, c).len(),
        ensures
            ({
                let x = self.kids_pre(n, c)[j] as int;
                &&& 0 <= x < self@.nodes.len()
                &&& self.climb(x, m) == n as int
                &&& m >= 1
                &&& self.is_head(x)
                &&& self.depth@[x] > self.depth@[n as int]
            }),
        decreases self.height(n), 0int, c,
    {
        self.lemma_quad(n as int);
        let first = self.kids_pre(n, c - 1);
        let last = self.kid_pre(n, c - 1);
        assert(self.kids_pre(n, c) == first + last);
        if j < first.len() {
            self.lemma_kids_climb(n, c - 1, j)
        } else {
            let y = self@.nodes[n as int].children@[c - 1];
            assert(y != NIL);
            self.lemma_child(n, c - 1);
            let jj = j - first.len();
            assert(self.kids_pre(n, c)[j] == self.pre_of(y)[jj]);
            let m0 = self.lemma_pre_climb(y, jj);
            let x = self.pre_of(y)[jj] as int;
            self.lemma_climb_add(x, m0, 1);
            if jj == 0 {
            } else {
                self.lemma_quad(y as int);
            }
            (m0 + 1) as nat
        }
    }

    /// A walk contains every head that climbs to its start.
    proof fn lemma_climb_in_pre(self, c: int, m: nat, n: u32)
        requires
            self.wf(),
            0 <= c < self@.nodes.len(),
            self.is_head(c),
            n != NIL,
            (n as int) < self@.nodes.len(),
            self.climb(c, m) == n as int,
        ensures
            self.pre_of(n).contains(c as u32),
        decreases m,
    {
        self.lemma_wf();
        if m == 0 {
            self.lemma_pre_unfold(n);
            assert(self.pre_of(n)[0] == n);
        } else {
            self.lemma_climb_up(c, m);
            let y = self.climb(c, (m - 1) as nat);
            if m - 1 > 0 {
                self.lemma_climb_up(c, (m - 1) as nat);
            }
            self.lemma_head_parent(y);
            let k = self.parent@[y].1;
            self.lemma_climb_in_pre(c, (m - 1) as nat, y as u32);
            self.lemma_pre_kids(n);
            assert(self.kid_pre(n, k) == self.pre_of(y as u32));
            self.lemma_kid_in_kids(n, k, 4, c as u32);
            let w = choose|w: int| 0 <= w < self.kids_pre(n, 4).len() && self.kids_pre(n, 4)[w] == c as u32;
            assert(self.pre_of(n)[w + 1] == c as u32);
        }
    }

    /// The walks of children `0 .. c` contain whatever the walk of an
    /// earlier child contains.
    proof fn lemma_kid_in_kids(self, n: u32, k: int, c: int, x: u32)
        requires
            0 <= k < c,
            self.kid_pre(n, k).contains(x),
        ensures
            self.kids_pre(n, c).contains(x),
        decreases c,
    {
        let first = self.kids_pre(n, c - 1);
        let last = self.kid_pre(n, c - 1);
        assert(self.kids_pre(n, c) == first + last);
        if k == c - 1 {
            let w = choose|w: int| 0 <= w < last.len() && last[w] == x;
            assert((first + last)[first.len() + w] == x);
        } else {
            self.lemma_kid_in_kids(n, k, c - 1, x);
            let w = choose|w: int| 0 <= w < first.len() && first[w] == x;
            assert((first + last)[w] == x);
        }
    }

    /// An entry of the walks of children `0 .. c` comes from one child's walk.
    proof fn lemma_kids_member(self, n: u32, c: int, j: int) -> (k: int)
        requires
            0 <= c,
            0 <= j < self.kids_pre(n, c).len(),
        ensures
            0 <= k < c,
            self.kid_pre(n, k).contains(self.kids_pre(n, c)[j]),
        decreases c,
    {
        let first = self.kids_pre(n, c - 1);
        let last = self.kid_pre(n, c - 1);
        assert(self.kids_pre(n, c) == first + last);
        if j < first.len() {
            self.lemma_kids_member(n, c - 1, j)
        } else {
            assert(last[j - first.len()] == self.kids_pre(n, c)[j]);
            c - 1
        }
    }

    /// The walks below two different children of a quad share no quad.
    proof fn lemma_kids_disjoint(self, n: u32, a: int, b: int, x: u32)
        requires
            self.wf(),
            n != NIL,
            (n as int) < self@.nodes.len(),
            !self@.nodes[n as int].is_leaf(),
            0 <= a < 4,
            0 <= b < 4,
            a != b,
        ensures
            !(self.kid_pre(n, a).contains(x) && self.kid_pre(n, b).contains(x)),
    {
        if self.kid_pre(n, a).contains(x) && self.kid_pre(n, b).contains(x) {
            let ca = self@.nodes[n as int].children@[a];
            let cb = self@.nodes[n as int].children@[b];
            self.lemma_child(n, a);
            self.lemma_child(n, b);
            let ja = choose|w: int| 0 <= w < self.pre_of(ca).len() && self.pre_of(ca)[w] == x;
            let jb = choose|w: int| 0 <= w < self.pre_of(cb).len() && self.pre_of(cb)[w] == x;
            let ma = self.lemma_pre_climb(ca, ja);
            let mb = self.lemma_pre_climb(cb, jb);
            let xi = x as int;
            if ma == mb {
                assert(ca == cb);
            } else if ma < mb {
                self.lemma_climb_add(xi, ma, (mb - ma) as nat);
                self.lemma_climb_add(ca as int, 1, (mb - ma - 1) as nat);
                if mb - ma == 1 {
                    assert(self.climb(ca as int, 1) == cb as int);
                } else {
                    self.lemma_head_parent(ca as int);
                    self.lemma_climb_up(n as int, (mb - ma - 1) as nat);
                }
            } else {
                self.lemma_climb_add(xi, mb, (ma - mb) as nat);
                self.lemma_climb_add(cb as int, 1, (ma - mb - 1) as nat);
                if ma - mb == 1 {
                    assert(self.climb(cb as int, 1) == ca as int);
                } else {
                    self.lemma_head_parent(cb as int);
                    self.lemma_climb_up(n as int, (ma - mb - 1) as nat);
                }
            }
        }
    }

    /// No quad occurs twice in the walks of children `0 .. c`.
    proof fn lemma_kids_no_dup(self, n: u32, c: int)
        requires
            self.wf(),
            n != NIL,
            (n as int) < self@.nodes.len(),
            !self@.nodes[n as int].is_leaf(),
            0 <= c <= 4,
        ensures
            self.kids_pre(n, c).no_duplicates(),
        decreases self.height(n), 0int, c,
    {
        if c > 0 {
            self.lemma_kids_no_dup(n, c - 1);
            let first = self.kids_pre(n, c - 1);
            let last = self.kid_pre(n, c - 1);
            assert(self.kids_pre(n, c) == first + last);
            let y = self@.nodes[n as int].children@[c - 1];
            if y != NIL {
                self.lemma_child(n, c - 1);
                self.lemma_pre_no_dup(y);
            }
            let all = first + last;
            assert forall|u: int, w: int| 0 <= u < w < all.len() implies all[u] != all[w] by {
                if w < first.len() {
                } else if u >= first.len() {
                    assert(all[u] == last[u - first.len()]);
                    assert(all[w] == last[w - first.len()]);
                } else {
                    if all[u] == all[w] {
                        let k = self.lemma_kids_member(n, c - 1, u);
                        assert(last[w - first.len()] == all[w]);
                        assert(last.contains(all[w]));
                        self.lemma_kids_disjoint(n, k, c - 1, all[u]);
                    }
                }
            }
        }
    }

    /// No quad occurs twice in the walk below `n`.
    proof fn lemma_pre_no_dup(self, n: u32)
        requires
            self.wf(),
            n != NIL,
            (n as int) < self@.nodes.len(),
        ensures
            self.pre_of(n).no_duplicates(),
        decreases self.height(n), 1int, 0int,
    {
        self.lemma_pre_unfold(n);
        if !self@.nodes[n as int].is_leaf() {
            self.lemma_pre_kids(n);
            self.lemma_kids_no_dup(n, 4);
            let all = self.pre_of(n);
            let ks = self.kids_pre(n, 4);
            assert forall|u: int, w: int| 0 <= u < w < all.len() implies all[u] != all[w] by {
                if u == 0 {
                    let _m = self.lemma_kids_climb(n, 4, w - 1);
                    assert(all[w] == ks[w - 1]);
                } else {
                    assert(all[u] == ks[u - 1]);
                    assert(all[w] == ks[w - 1]);
                }
            }
        }
    }
}


impl Quadtree {
    /// Two chains that share a quad are one chain, met at one position.
    proof fn lemma_chain_unique(self, h1: u32, h2: u32, m1: int, m2: int)
        requires
            self.wf(),
            h1 != NIL,
            h2 != NIL,
            (h1 as int) < self@.nodes.len(),
            (h2 as int) < self@.nodes.len(),
            self@.nodes[h1 as int].is_leaf(),
            self@.nodes[h2 as int].is_leaf(),
            self.is_head(h1 as int),
            self.is_head(h2 as int),
            0 <= m1 < self.chain_ids(h1).len(),
            0 <= m2 < self.chain_ids(h2).len(),
            self.chain_ids(h1)[m1] == self.chain_ids(h2)[m2],
        ensures
            h1 == h2,
            m1 == m2,
        decreases m1,
    {
        self.lemma_wf();
        self.lemma_chain_start(h1);
        self.lemma_chain_start(h2);
        self.lemma_chain_at(h1, m1);
        self.lemma_chain_at(h2, m2);
        let x = self.chain_ids(h1)[m1] as int;
        if m1 > 0 && m2 > 0 {
            self.lemma_chain_at(h1, m1 - 1);
            self.lemma_chain_unique(h1, h2, m1 - 1, m2 - 1);
        } else if m1 > 0 {
            assert(x == h2 as int);
            assert(self.parent@[x].1 == 4);
        } else if m2 > 0 {
            assert(x == h1 as int);
            assert(self.parent@[x].1 == 4);
        }
    }

    /// Every leaf of the arena is on the chain of some leaf head.
    proof fn lemma_leaf_in_chain(self, c: int) -> (r: (u32, int))
        requires
            self.wf(),
            0 <= c < self@.nodes.len(),
            self@.nodes[c].is_leaf(),
        ensures
            r.0 != NIL,
            (r.0 as int) < self@.nodes.len(),
            self@.nodes[r.0 as int].is_leaf(),
            self.is_head(r.0 as int),
            0 <= r.1 < self.chain_ids(r.0).len(),
            self.chain_ids(r.0)[r.1] == c as u32,
        decreases self@.nodes.len() - c,
    {
        self.lemma_wf();
        if self.is_head(c) {
            self.lemma_chain_start(c as u32);
            (c as u32, 0int)
        } else {
            self.lemma_back(c);
            let p = self.parent@[c].0;
            assert(self.parent@[c].1 == 4);
            self.lemma_quad(p);
            lemma_link_ok(self.nodes@, self.depth@, self.hi@, self.parent@, p, 4);
            assert(self@.nodes[p].next == c as u32);
            let (h, m) = self.lemma_leaf_in_chain(p);
            self.lemma_chain_at(h, m);
            (h, m + 1)
        }
    }

    /// Along a chain the indices strictly decrease.
    proof fn lemma_chain_decreasing(self, h: u32, u: int, w: int)
        requires
            self.wf(),
            h != NIL,
            (h as int) < self@.nodes.len(),
            self@.nodes[h as int].is_leaf(),
            0 <= u < w < self.chain_ids(h).len(),
        ensures
            self.chain_ids(h)[w] < self.chain_ids(h)[u],
        decreases w - u,
    {
        let ch = self.chain_ids(h);
        self.lemma_chain_at(h, w - 1);
        self.lemma_chain_at(h, w);
        let prev = ch[w - 1] as int;
        self.lemma_quad(prev);
        lemma_link_ok(self.nodes@, self.depth@, self.hi@, self.parent@, prev, 4);
        assert(self@.nodes[prev].next == ch[w]);
        assert(link_of(self@.nodes[prev], 4) == ch[w]);
        assert(ch[w] < ch[w - 1]);
        if w - 1 > u {
            self.lemma_chain_decreasing(h, u, w - 1);
        }
    }

    /// The quads of the leaf chains of `walk`, chain by chain.
    pub closed spec fn ids_of(self, walk: Seq<u32>) -> Seq<u32>
        decreases walk.len(),
    {
        if walk.len() == 0 {
            seq![]
        } else {
            self.ids_of(walk.drop_last()) + self.chain_ids(walk.last())
        }
    }

    /// The leaf quads the walk of the whole tree reaches, chain by chain.
    pub closed spec fn walk_leaves(self) -> Seq<u32> {
        self.ids_of(self.pre_of(self@.root))
    }

    /// An entry of `ids_of(walk)` is an entry of one chain of `walk`.
    proof fn lemma_ids_member(self, walk: Seq<u32>, j: int) -> (r: (int, int))
        requires
            0 <= j < self.ids_of(walk).len(),
        ensures
            0 <= r.0 < walk.len(),
            0 <= r.1 < self.chain_ids(walk[r.0]).len(),
            self.ids_of(walk)[j] == self.chain_ids(walk[r.0])[r.1],
        decreases walk.len(),
    {
        let dl = walk.drop_last();
        let a = self.ids_of(dl);
        let b = self.chain_ids(walk.last());
        assert(self.ids_of(walk) == a + b);
        if j < a.len() {
            let (t, m) = self.lemma_ids_member(dl, j);
            assert(dl[t] == walk[t]);
            (t, m)
        } else {
            (walk.len() - 1, j - a.len())
        }
    }

    /// `ids_of(walk)` holds every entry of every chain of `walk`.
    proof fn lemma_ids_contains(self, walk: Seq<u32>, t: int, m: int)
        requires
            0 <= t < walk.len(),
            0 <= m < self.chain_ids(walk[t]).len(),
        ensures
            self.ids_of(walk).contains(self.chain_ids(walk[t])[m]),
        decreases walk.len(),
    {
        let dl = walk.drop_last();
        let a = self.ids_of(dl);
        let b = self.chain_ids(walk.last());
        assert(self.ids_of(walk) == a + b);
        if t < walk.len() - 1 {
            assert(dl[t] == walk[t]);
            self.lemma_ids_contains(dl, t, m);
            let w = choose|w: int| 0 <= w < a.len() && a[w] == self.chain_ids(walk[t])[m];
            assert((a + b)[w] == a[w]);
        } else {
            assert((a + b)[a.len() + m] == b[m]);
        }
    }

    /// A walk through distinct quads, of which the leaves are heads, meets
    /// no leaf twice along its chains.
    proof fn lemma_ids_no_dup(self, walk: Seq<u32>)
        requires
            self.wf(),
            walk.no_duplicates(),
            forall|t: int|
                0 <= t < walk.len() ==> #[trigger] walk[t] != NIL && (walk[t] as int) < self@.nodes.len()
                    && self.is_head(walk[t] as int),
        ensures
            self.ids_of(walk).no_duplicates(),
        decreases walk.len(),
    {
        if walk.len() > 0 {
            let dl = walk.drop_last();
            assert forall|t: int|
                0 <= t < dl.len() implies #[trigger] dl[t] != NIL && (dl[t] as int) < self@.nodes.len()
                    && self.is_head(dl[t] as int) by {
                assert(dl[t] == walk[t]);
            }
            assert(dl.no_duplicates()) by {
                assert forall|u: int, w: int| 0 <= u < w < dl.len() implies dl[u] != dl[w] by {
                    assert(dl[u] == walk[u]);
                    assert(dl[w] == walk[w]);
                }
            }
            self.lemma_ids_no_dup(dl);
            let a = self.ids_of(dl);
            let last = walk.last();
            assert(walk[walk.len() - 1] == last);
            let b = self.chain_ids(last);
            assert(self.ids_of(walk) == a + b);
            let all = a + b;
            assert forall|u: int, w: int| 0 <= u < w < all.len() implies all[u] != all[w] by {
                if w < a.len() {
                } else if u >= a.len() {
                    assert(all[u] == b[u - a.len()]);
                    assert(all[w] == b[w - a.len()]);
                    self.lemma_chain_decreasing(last, u - a.len(), w - a.len());
                } else {
                    let (t, m) = self.lemma_ids_member(dl, u);
                    assert(all[u] == a[u]);
                    assert(all[w] == b[w - a.len()]);
                    if all[u] == all[w] {
                        let h1 = dl[t];
                        assert(dl[t] == walk[t]);
                        self.lemma_quad(h1 as int);
                        self.lemma_quad(last as int);
                        self.lemma_chain_unique(h1, last, m, w - a.len());
                    }
                }
            }
        }
    }

    /// The points of a chain are the data of its quads.
    proof fn lemma_chain_data(self, n: u32)
        requires
            self.wf(),
            n != NIL,
            (n as int) < self@.nodes.len(),
        ensures
            self.chain_of(n) == self.chain_ids(n).map_values(|c: u32| self@.nodes[c as int].data),
        decreases n,
    {
        let q = self.nodes@[n as int];
        self.lemma_quad(n as int);
        let f = |c: u32| self@.nodes[c as int].data;
        if q.data == NIL {
            assert(self.chain_ids(n).map_values(f) =~= Seq::<u32>::empty());
        } else if q.next == NIL {
            assert(self.chain_ids(n).map_values(f) =~= seq![q.data]);
        } else {
            self.lemma_chain_data(q.next);
            assert(self.chain_ids(n).map_values(f) =~= seq![q.data] + self.chain_ids(q.next).map_values(f));
        }
    }

    /// The points of a walk are the data of the quads of its chains.
    proof fn lemma_chains_data(self, walk: Seq<u32>)
        requires
            self.wf(),
            forall|t: int|
                0 <= t < walk.len() ==> #[trigger] walk[t] != NIL && (walk[t] as int) < self@.nodes.len(),
        ensures
            self.chains_of(walk) == self.ids_of(walk).map_values(|c: u32| self@.nodes[c as int].data),
        decreases walk.len(),
    {
        let f = |c: u32| self@.nodes[c as int].data;
        if walk.len() == 0 {
            assert(self.ids_of(walk).map_values(f) =~= Seq::<u32>::empty());
        } else {
            let dl = walk.drop_last();
            assert forall|t: int|
                0 <= t < dl.len() implies #[trigger] dl[t] != NIL && (dl[t] as int) < self@.nodes.len() by {
                assert(dl[t] == walk[t]);
            }
            self.lemma_chains_data(dl);
            assert(walk[walk.len() - 1] == walk.last());
            self.lemma_chain_data(walk.last());
            assert(self.ids_of(walk).map_values(f) =~= self.ids_of(dl).map_values(f) + self.chain_ids(
                walk.last(),
            ).map_values(f));
        }
    }

    /// The leaves the walk of a well-formed tree reaches along its chains
    /// are exactly the leaf quads of the arena, each once, and the points
    /// of the tree are their data in that order.
    pub proof fn lemma_walk_leaves(self)
        requires
            self.wf(),
        ensures
            self.walk_leaves().no_duplicates(),
            forall|c: u32|
                #[trigger] self.walk_leaves().contains(c) <==> ((c as int) < self@.nodes.len()
                    && self@.nodes[c as int].is_leaf()),
            self.points_spec() == self.walk_leaves().map_values(|c: u32| self@.nodes[c as int].data),
    {
        self.lemma_wf();
        let w = self.pre_of(self@.root);
        if self@.root == NIL {
            assert(w == Seq::<u32>::empty());
            assert(self.walk_leaves() == Seq::<u32>::empty());
            assert(self.walk_leaves().map_values(|c: u32| self@.nodes[c as int].data) =~= Seq::<u32>::empty());
            assert(self.points_spec() =~= Seq::<u32>::empty());
        } else {
            let r = self@.root;
            self.lemma_pre_valid(r);
            self.lemma_pre_no_dup(r);
            assert forall|t: int|
                0 <= t < w.len() implies #[trigger] w[t] != NIL && (w[t] as int) < self@.nodes.len()
                    && self.is_head(w[t] as int) by {
                let _m = self.lemma_pre_climb(r, t);
            }
            self.lemma_ids_no_dup(w);
            self.lemma_chains_data(w);
            assert forall|c: u32|
                #[trigger] self.walk_leaves().contains(c) <==> ((c as int) < self@.nodes.len()
                    && self@.nodes[c as int].is_leaf()) by {
                if self.walk_leaves().contains(c) {
                    let j = choose|j: int| 0 <= j < self.walk_leaves().len() && self.walk_leaves()[j] == c;
                    let (t, m) = self.lemma_ids_member(w, j);
                    let h = w[t];
                    self.lemma_quad(h as int);
                    if !self@.nodes[h as int].is_leaf() {
                        assert(self.chain_ids(h) == Seq::<u32>::empty());
                    }
                    self.lemma_chain_at(h, m);
                }
                if (c as int) < self@.nodes.len() && self@.nodes[c as int].is_leaf() {
                    let (h, m) = self.lemma_leaf_in_chain(c as int);
                    let mr = self.lemma_head_reaches_root(h as int);
                    self.lemma_climb_in_pre(h as int, mr, r);
                    let t = choose|t: int| 0 <= t < w.len() && w[t] == h;
                    self.lemma_ids_contains(w, t, m);
                }
            }
        }
    }
}


/// The leaf quads among the first `k` quads of the arena, by index.
pub open spec fn arena_leaves(nodes: Seq<Quad>, k: int) -> Seq<u32>
    decreases k,
{
    if k <= 0 {
        seq![]
    } else {
        arena_leaves(nodes, k - 1) + if nodes[k - 1].data != NIL {
            seq![(k - 1) as u32]
        } else {
            seq![]
        }
    }
}

/// The points held by the leaf quads among the first `k` quads, by index.
pub open spec fn arena_points(nodes: Seq<Quad>, k: int) -> Seq<u32>
    decreases k,
{
    if k <= 0 {
        seq![]
    } else {
        arena_points(nodes, k - 1) + if nodes[k - 1].data != NIL {
            seq![nodes[k - 1].data]
        } else {
            seq![]
        }
    }
}

/// `arena_leaves` lists each leaf index below `k` once, and nothing else;
/// `arena_points` lists their data.
proof fn lemma_arena_leaves(nodes: Seq<Quad>, k: int)
    requires
        0 <= k <= nodes.len(),
        nodes.len() < NIL,
    ensures
        arena_leaves(nodes, k).no_duplicates(),
        forall|c: u32|
            #[trigger] arena_leaves(nodes, k).contains(c) <==> ((c as int) < k && nodes[c as int].data
                != NIL),
        arena_points(nodes, k) == arena_leaves(nodes, k).map_values(|c: u32| nodes[c as int].data),
    decreases k,
{
    let f = |c: u32| nodes[c as int].data;
    if k > 0 {
        lemma_arena_leaves(nodes, k - 1);
        let a = arena_leaves(nodes, k - 1);
        let tail = if nodes[k - 1].data != NIL {
            seq![(k - 1) as u32]
        } else {
            seq![]
        };
        assert(arena_leaves(nodes, k) == a + tail);
        let all = a + tail;
        assert forall|u: int, w: int| 0 <= u < w < all.len() implies all[u] != all[w] by {
            if w >= a.len() {
                assert(all[w] == (k - 1) as u32);
                assert(a.contains(all[u]));
            }
        }
        assert forall|c: u32| #[trigger] all.contains(c) <==> ((c as int) < k && nodes[c as int].data != NIL) by {
            if all.contains(c) {
                let j = choose|j: int| 0 <= j < all.len() && all[j] == c;
                if j < a.len() {
                    assert(a.contains(c));
                }
            }
            if (c as int) < k && nodes[c as int].data != NIL {
                if (c as int) < k - 1 {
                    assert(a.contains(c));
                    let j = choose|j: int| 0 <= j < a.len() && a[j] == c;
                    assert(all[j] == c);
                } else {
                    assert(all[a.len() as int] == c);
                }
            }
        }
        assert(arena_points(nodes, k) =~= all.map_values(f));
    } else {
        assert(arena_points(nodes, k) =~= arena_leaves(nodes, k).map_values(f));
    }
}

/// Quads that keep their kind and data keep the arena's points.
proof fn lemma_arena_points_frame(a: Seq<Quad>, b: Seq<Quad>, k: int)
    requires
        0 <= k <= a.len(),
        k <= b.len(),
        forall|j: int| 0 <= j < k ==> #[trigger] b[j].data == a[j].data,
    ensures
        arena_points(b, k) == arena_points(a, k),
    decreases k,
{
    if k > 0 {
        lemma_arena_points_frame(a, b, k - 1);
    }
}

/// Internal quads add no points.
proof fn lemma_arena_points_internal(nodes: Seq<Quad>, k: int, m: int)
    requires
        0 <= k,
        0 <= m,
        k + m <= nodes.len(),
        forall|j: int| k <= j < k + m ==> #[trigger] nodes[j].data == NIL,
    ensures
        arena_points(nodes, k + m) == arena_points(nodes, k),
    decreases m,
{
    if m > 0 {
        lemma_arena_points_internal(nodes, k, m - 1);
        assert(arena_points(nodes, k + m) =~= arena_points(nodes, k + m - 1));
    }
}

/// Two sequences with the same elements, counted with multiplicity, keep
/// that under any map.
proof fn lemma_perm_map(a: Seq<u32>, b: Seq<u32>, f: spec_fn(u32) -> u32)
    requires
        a.to_multiset() == b.to_multiset(),
    ensures
        a.map_values(f).to_multiset() == b.map_values(f).to_multiset(),
    decreases a.len(),
{
    broadcast use vstd::seq_lib::to_multiset_build;
    broadcast use vstd::seq_lib::to_multiset_remove;
    broadcast use vstd::seq_lib::to_multiset_insert;
    broadcast use vstd::seq_lib::to_multiset_len;
    broadcast use vstd::seq_lib::to_multiset_contains;
    broadcast use vstd::multiset::group_multiset_axioms;

    if a.len() == 0 {
        assert(b.to_multiset().len() == 0);
        assert(b.len() == 0);
        assert(a.map_values(f) =~= Seq::<u32>::empty());
        assert(b.map_values(f) =~= Seq::<u32>::empty());
    } else {
        let x = a.last();
        let a1 = a.drop_last();
        assert(a == a1.push(x));
        assert(a.to_multiset() == a1.to_multiset().insert(x));
        assert(a.to_multiset().count(x) > 0);
        assert(b.contains(x));
        let i = choose|i: int| 0 <= i < b.len() && b[i] == x;
        let b1 = b.remove(i);
        assert(b1.to_multiset() == b.to_multiset().remove(x));
        assert(a1.to_multiset() =~= b1.to_multiset());
        lemma_perm_map(a1, b1, f);
        assert(a.map_values(f) =~= a1.map_values(f).push(f(x)));
        assert(b.map_values(f) =~= b1.map_values(f).insert(i, f(x)));
    }
}

impl Quadtree {
    /// The tree holds exactly the points of the arena's leaf quads, each
    /// as often as the arena does.
    pub proof fn lemma_points_are_arena_points(self)
        requires
            self.wf(),
        ensures
            self.points_spec().to_multiset() == arena_points(self@.nodes, self@.nodes.len() as int).to_multiset(),
            self.points_spec().len() == arena_points(self@.nodes, self@.nodes.len() as int).len(),
    {
        broadcast use vstd::seq_lib::to_multiset_len;
        broadcast use vstd::seq_lib::to_multiset_contains;
        broadcast use vstd::multiset::group_multiset_axioms;

        self.lemma_wf();
        let n = self@.nodes;
        let len = n.len() as int;
        self.lemma_walk_leaves();
        lemma_arena_leaves(n, len);
        let w = self.walk_leaves();
        let l = arena_leaves(n, len);
        w.lemma_multiset_has_no_duplicates();
        l.lemma_multiset_has_no_duplicates();
        assert forall|c: u32| w.to_multiset().count(c) == l.to_multiset().count(c) by {
            if w.contains(c) {
                assert(l.contains(c));
            } else if l.contains(c) {
                assert(w.contains(c));
            }
        }
        assert(w.to_multiset() =~= l.to_multiset());
        let f = |c: u32| n[c as int].data;
        lemma_perm_map(w, l, f);
        assert(self.points_spec().to_multiset().len() == arena_points(n, len).to_multiset().len());
    }
}


/// Quad `c` is not the `next` of any quad (it is not a chained leaf).
pub open spec fn unchained(nodes: Seq<Quad>, c: u32) -> bool {
    forall|p: int| 0 <= p < nodes.len() ==> #[trigger] nodes[p].next != c
}

impl Quadtree {
    /// The walk of a well-formed tree (the order of `visit`) reaches every
    /// quad of the arena except the leaves chained behind a coincident
    /// point, each exactly once.
    pub proof fn lemma_walk_visits_each_quad_once(self)
        requires
            self.wf(),
        ensures
            self.pre_of(self@.root).no_duplicates(),
            forall|c: u32|
                #[trigger] self.pre_of(self@.root).contains(c) <==> ((c as int) < self@.nodes.len()
                    && unchained(self@.nodes, c)),
    {
        self.lemma_wf();
        let r = self@.root;
        let w = self.pre_of(r);
        if r == NIL {
            assert(w == Seq::<u32>::empty());
        } else {
            self.lemma_pre_no_dup(r);
            assert forall|c: u32|
                #[trigger] w.contains(c) <==> ((c as int) < self@.nodes.len() && unchained(self@.nodes, c)) by {
                if w.contains(c) {
                    let j = choose|j: int| 0 <= j < w.len() && w[j] == c;
                    let _m = self.lemma_pre_climb(r, j);
                    assert forall|p: int| 0 <= p < self@.nodes.len() implies #[trigger] self@.nodes[p].next != c by {
                        if self@.nodes[p].next == c {
                            self.lemma_quad(p);
                            lemma_link_ok(self.nodes@, self.depth@, self.hi@, self.parent@, p, 4);
                            assert(link_of(self@.nodes[p], 4) == c);
                        }
                    }
                }
                if (c as int) < self@.nodes.len() && unchained(self@.nodes, c) {
                    if !self.is_head(c as int) {
                        self.lemma_back(c as int);
                        let p = self.parent@[c as int].0;
                        assert(self@.nodes[p].next != c);
                    }
                    let m = self.lemma_head_reaches_root(c as int);
                    self.lemma_climb_in_pre(c as int, m, r);
                }
            }
        }
    }
}

} // verus!
