//! Degree bookkeeping of the spring (link) force.
//!
//! Each link is a `(source, target)` pair of node indices. The force needs,
//! per node, how many links touch it (a self-loop counts twice); from those
//! counts it derives the per-link bias `count[s] / (count[s] + count[t])`
//! and the default strength `1 / min(count[s], count[t])`.

use vstd::prelude::*;

verus! {

/// What a link accessor sees: the link's index, its endpoints, and the
/// endpoints' link counts (degree within this force's link set).
#[derive(Clone, Copy, Debug)]
pub struct LinkRef {
    pub index: usize,
    pub source: usize,
    pub target: usize,
    pub source_count: usize,
    pub target_count: usize,
}

/// How many times node `v` is an endpoint of `links` (a self-loop counts twice).
pub open spec fn degree(links: Seq<(usize, usize)>, v: int) -> nat
    decreases links.len(),
{
    if links.len() == 0 {
        0
    } else {
        let l = links.last();
        degree(links.drop_last(), v) + (if l.0 == v { 1nat } else { 0nat }) + (if l.1 == v {
            1nat
        } else {
            0nat
        })
    }
}

/// Every endpoint of every link is a node index below `n`.
pub open spec fn links_in_range(links: Seq<(usize, usize)>, n: int) -> bool {
    forall|i: int| 0 <= i < links.len() ==> #[trigger] links[i].0 < n && links[i].1 < n
}

/// The sum of the degrees of nodes `0 .. n`.
pub open spec fn degree_sum(links: Seq<(usize, usize)>, n: nat) -> nat
    decreases n,
{
    if n == 0 {
        0
    } else {
        degree_sum(links, (n - 1) as nat) + degree(links, n - 1)
    }
}

/// The spring force's link set and the per-node link counts it derives.
pub struct Link {
    links: Vec<(usize, usize)>,
    count: Vec<usize>,
    iterations: usize,
    initialized: bool,
}

/// The abstract state of a [`Link`].
pub struct LinkView {
    pub links: Seq<(usize, usize)>,
    pub count: Seq<usize>,
    pub iterations: nat,
    pub initialized: bool,
}

impl View for Link {
    type V = LinkView;

    closed spec fn view(&self) -> LinkView {
        LinkView {
            links: self.links@,
            count: self.count@,
            iterations: self.iterations as nat,
            initialized: self.initialized,
        }
    }
}

/// The counts are those of `links` over `n = count.len()` nodes.
pub open spec fn counts_match(links: Seq<(usize, usize)>, count: Seq<usize>) -> bool {
    &&& links_in_range(links, count.len() as int)
    &&& links.len() <= usize::MAX / 4
    &&& forall|v: int| 0 <= v < count.len() ==> #[trigger] count[v] == degree(links, v)
}

impl Link {
    #[verifier::type_invariant]
    closed spec fn inv(self) -> bool {
        self.initialized ==> counts_match(self.links@, self.count@)
    }

    /// Links as `(source index, target index)` pairs; one iteration, not yet
    /// initialised.
    pub fn new(links: Vec<(usize, usize)>) -> (r: Link)
        ensures
            r@.links == links@,
            r@.count == Seq::<usize>::empty(),
            r@.iterations == 1,
            !r@.initialized,
    {
        Link { links, count: Vec::new(), iterations: 1, initialized: false }
    }

    /// Builder form of [`Link::set_iterations`].
    pub fn iterations(self, n: usize) -> (r: Link)
        ensures
            r@.links == self@.links,
            r@.count == self@.count,
            r@.initialized == self@.initialized,
            r@.iterations == n,
    {
        let mut s = self;
        s.set_iterations(n);
        s
    }

    /// How many relaxation passes one application makes.
    pub fn iteration_count(&self) -> (r: usize)
        ensures
            r == self@.iterations,
    {
        self.iterations
    }

    /// The link set.
    pub fn links(&self) -> (r: &[(usize, usize)])
        ensures
            r@ == self@.links,
    {
        self.links.as_slice()
    }

    /// Whether the counts are those of the current link set.
    pub fn is_initialized(&self) -> (r: bool)
        ensures
            r == self@.initialized,
    {
        self.initialized
    }

    /// The per-node link counts.
    pub fn counts(&self) -> (r: &[usize])
        ensures
            r@ == self@.count,
    {
        self.count.as_slice()
    }

    /// Replace the link set; the counts must be computed again.
    pub fn set_links(&mut self, links: Vec<(usize, usize)>)
        ensures
            final(self)@.links == links@,
            final(self)@.count == old(self)@.count,
            final(self)@.iterations == old(self)@.iterations,
            !final(self)@.initialized,
    {
        self.initialized = false;
        self.links = links;
    }

    pub fn set_iterations(&mut self, n: usize)
        ensures
            final(self)@.links == old(self)@.links,
            final(self)@.count == old(self)@.count,
            final(self)@.initialized == old(self)@.initialized,
            final(self)@.iterations == n,
    {
        proof {
            use_type_invariant(&*self);
        }
        self.iterations = n;
    }

    /// The index of the first link with an endpoint at or above `n`
    /// (the input that [`Link::initialize`] does not take), if any.
    pub fn first_out_of_range(&self, n: usize) -> (r: Option<usize>)
        ensures
            r is None <==> links_in_range(self@.links, n as int),
            r matches Some(i) ==> i < self@.links.len() && !(self@.links[i as int].0 < n
                && self@.links[i as int].1 < n),
            r matches Some(i) ==> links_in_range(self@.links.take(i as int), n as int),
    {
        let m = self.links.len();
        let mut i: usize = 0;
        while i < m
            invariant
                m == self@.links.len(),
                i <= m,
                forall|j: int| 0 <= j < i ==> #[trigger] self@.links[j].0 < n && self@.links[j].1 < n,
            decreases m - i,
        {
            let (s, t) = self.links[i];
            if !(s < n && t < n) {
                assert forall|j: int| 0 <= j < self@.links.take(i as int).len() implies #[trigger] self@.links.take(i as int)[j].0 < n
                    && self@.links.take(i as int)[j].1 < n by {
                    assert(self@.links.take(i as int)[j] == self@.links[j]);
                }
                assert(links_in_range(self@.links.take(i as int), n as int));
                return Some(i);
            }
            i = i + 1;
        }
        None
    }

    /// Count, for each of `n` nodes, the links that touch it.
    pub fn initialize(&mut self, n: usize)
        requires
            links_in_range(old(self)@.links, n as int),
            old(self)@.links.len() <= usize::MAX / 4,
        ensures
            final(self)@.links == old(self)@.links,
            final(self)@.iterations == old(self)@.iterations,
            final(self)@.initialized,
            final(self)@.count.len() == n,
            forall|v: int| 0 <= v < n ==> #[trigger] final(self)@.count[v] == degree(final(self)@.links, v),
    {
        self.initialized = false;
        let mut count: Vec<usize> = Vec::new();
        let mut v: usize = 0;
        while v < n
            invariant
                v <= n,
                count@.len() == v,
                forall|u: int| 0 <= u < v ==> #[trigger] count@[u] == 0,
            decreases n - v,
        {
            count.push(0);
            v = v + 1;
        }
        let m = self.links.len();
        let ghost links = self.links@;
        let mut i: usize = 0;
        while i < m
            invariant
                m == links.len(),
                links == self.links@,
                links_in_range(links, n as int),
                m <= usize::MAX / 4,
                i <= m,
                count@.len() == n,
                forall|u: int| 0 <= u < n ==> #[trigger] count@[u] == degree(links.take(i as int), u),
            decreases m - i,
        {
            let (s, t) = self.links[i];
            proof {
                assert(links[i as int].0 < n && links[i as int].1 < n);
                assert(links.take(i + 1).drop_last() =~= links.take(i as int));
                assert(links.take(i + 1).last() == links[i as int]);
                lemma_degree_bound(links.take(i as int), s as int);
                lemma_degree_bound(links.take(i as int), t as int);
            }
            count.set(s, count[s] + 1);
            count.set(t, count[t] + 1);
            i = i + 1;
        }
        assert(links.take(m as int) =~= links);
        self.count = count;
        self.initialized = true;
    }

    /// What an accessor sees for link `i`.
    pub fn link_ref(&self, i: usize) -> (r: LinkRef)
        requires
            self@.initialized,
            i < self@.links.len(),
        ensures
            r.index == i,
            r.source == self@.links[i as int].0,
            r.target == self@.links[i as int].1,
            r.source_count == degree(self@.links, r.source as int),
            r.target_count == degree(self@.links, r.target as int),
    {
        proof {
            use_type_invariant(self);
        }
        let (s, t) = self.links[i];
        LinkRef {
            index: i,
            source: s,
            target: t,
            source_count: self.count[s],
            target_count: self.count[t],
        }
    }

    /// The two integers whose quotient is link `i`'s bias:
    /// `count[source]` over `count[source] + count[target]`.
    pub fn bias_terms(&self, i: usize) -> (r: (usize, usize))
        requires
            self@.initialized,
            i < self@.links.len(),
        ensures
            r.0 == degree(self@.links, self@.links[i as int].0 as int),
            r.1 == r.0 + degree(self@.links, self@.links[i as int].1 as int),
            1 <= r.0 < r.1,
    {
        proof {
            use_type_invariant(self);
            lemma_degree_bound(self@.links, self@.links[i as int].0 as int);
            lemma_degree_bound(self@.links, self@.links[i as int].1 as int);
            lemma_endpoints_have_degree(self@.links, i as int);
        }
        let (s, t) = self.links[i];
        (self.count[s], self.count[s] + self.count[t])
    }

    /// The divisor of link `i`'s default strength:
    /// `min(count[source], count[target])`.
    pub fn default_strength_divisor(&self, i: usize) -> (r: usize)
        requires
            self@.initialized,
            i < self@.links.len(),
        ensures
            r == min_nat(
                degree(self@.links, self@.links[i as int].0 as int),
                degree(self@.links, self@.links[i as int].1 as int),
            ),
            r >= 1,
    {
        proof {
            use_type_invariant(self);
            lemma_endpoints_have_degree(self@.links, i as int);
        }
        let (s, t) = self.links[i];
        let (a, b) = (self.count[s], self.count[t]);
        if a < b {
            a
        } else {
            b
        }
    }
}

/// Pair up link endpoints given as two parallel index arrays; extra
/// entries of the longer array are ignored.
pub fn zip_links(sources: &[u32], targets: &[u32]) -> (r: Vec<(usize, usize)>)
    ensures
        r@.len() == min_nat(sources@.len(), targets@.len()),
        forall|i: int|
            0 <= i < r@.len() ==> #[trigger] r@[i] == (sources@[i] as usize, targets@[i] as usize),
{
    let n = if sources.len() < targets.len() {
        sources.len()
    } else {
        targets.len()
    };
    let mut r: Vec<(usize, usize)> = Vec::new();
    let mut i: usize = 0;
    while i < n
        invariant
            n == min_nat(sources@.len(), targets@.len()),
            i <= n,
            r@.len() == i,
            forall|j: int| 0 <= j < i ==> #[trigger] r@[j] == (sources@[j] as usize, targets@[j] as usize),
        decreases n - i,
    {
        r.push((sources[i] as usize, targets[i] as usize));
        i = i + 1;
    }
    r
}

/// The smaller of two naturals.
pub open spec fn min_nat(a: nat, b: nat) -> nat {
    if a < b {
        a
    } else {
        b
    }
}

/// Every link has two endpoints: over nodes whose indices cover all
/// endpoints, the link counts add up to twice the number of links.
pub proof fn lemma_handshake(links: Seq<(usize, usize)>, n: nat)
    requires
        links_in_range(links, n as int),
    ensures
        degree_sum(links, n) == 2 * links.len(),
    decreases links.len(),
{
    if links.len() > 0 {
        let dl = links.drop_last();
        assert(links_in_range(dl, n as int)) by {
            assert forall|i: int| 0 <= i < dl.len() implies #[trigger] dl[i].0 < n && dl[i].1 < n by {
                assert(dl[i] == links[i]);
            }
        }
        lemma_handshake(dl, n);
        lemma_degree_sum_last(links, n);
        assert(links[links.len() - 1].0 < n && links[links.len() - 1].1 < n);
    } else {
        lemma_degree_sum_no_links(links, n);
    }
}

/// Without links every count is zero.
proof fn lemma_degree_sum_no_links(links: Seq<(usize, usize)>, n: nat)
    requires
        links.len() == 0,
    ensures
        degree_sum(links, n) == 0,
    decreases n,
{
    if n > 0 {
        lemma_degree_sum_no_links(links, (n - 1) as nat);
    }
}

/// Removing the last link takes one from the count of each of its endpoints.
proof fn lemma_degree_sum_last(links: Seq<(usize, usize)>, n: nat)
    requires
        links.len() > 0,
    ensures
        degree_sum(links, n) == degree_sum(links.drop_last(), n) + (if links.last().0 < n {
            1nat
        } else {
            0nat
        }) + (if links.last().1 < n {
            1nat
        } else {
            0nat
        }),
    decreases n,
{
    if n > 0 {
        lemma_degree_sum_last(links, (n - 1) as nat);
    }
}

/// A node's degree is at most twice the number of links.
pub proof fn lemma_degree_bound(links: Seq<(usize, usize)>, v: int)
    ensures
        degree(links, v) <= 2 * links.len(),
    decreases links.len(),
{
    if links.len() > 0 {
        lemma_degree_bound(links.drop_last(), v);
    }
}

/// Both endpoints of a link have at least one link each.
pub proof fn lemma_endpoints_have_degree(links: Seq<(usize, usize)>, i: int)
    requires
        0 <= i < links.len(),
    ensures
        degree(links, links[i].0 as int) >= 1,
        degree(links, links[i].1 as int) >= 1,
    decreases links.len(),
{
    if i < links.len() - 1 {
        lemma_endpoints_have_degree(links.drop_last(), i);
        assert(links.drop_last()[i] == links[i]);
    }
}

} // verus!
