use vstd::prelude::*;

verus! {

/// One slot of the heap: a node of the combinator graph.
#[derive(Clone, Copy, Debug, PartialEq, Eq, Structural)]
pub enum Graph {
    /// An application `f x`.
    Apply(usize, usize),
    S,
    K,
    I,
    /// An indirection left behind by a contracted redex.
    Link(usize),
    /// The host successor: forces its argument to a number and adds one.
    Inc,
    Num(u16),
    /// The input that has not been read yet.
    Stdin,
    /// A slot that holds nothing and may be handed out again.
    Free,
}

/// The addresses of the primitives, which every heap holds from the start.
pub const S: usize = 0;

pub const K: usize = 1;

pub const I: usize = 2;

pub const INC: usize = 3;

pub const ZERO: usize = 4;

/// The first address past the interned primitives.
pub const PROGRAM_AREA_END: usize = 5;

/// `a` is an address of `h` whose slot is in use.
pub open spec fn live(h: Seq<Graph>, a: usize) -> bool {
    a < h.len() && h[a as int] != Graph::Free
}

/// Every address that `g` holds is live in `h`.
pub open spec fn node_closed(h: Seq<Graph>, g: Graph) -> bool {
    match g {
        Graph::Apply(l, r) => live(h, l) && live(h, r),
        Graph::Link(t) => live(h, t),
        _ => true,
    }
}

/// No node of `h` points outside `h` or at a free slot.
pub open spec fn closed(h: Seq<Graph>) -> bool {
    forall|a: int| 0 <= a < h.len() ==> node_closed(h, #[trigger] h[a])
}

/// The node `g`, stored at `a`, points only at addresses of smaller rank.
pub open spec fn node_ranked(rank: Seq<nat>, a: int, g: Graph) -> bool {
    match g {
        Graph::Apply(l, r) => rank[l as int] < rank[a] && rank[r as int] < rank[a],
        Graph::Link(t) => rank[t as int] < rank[a],
        _ => true,
    }
}

/// `rank` witnesses that `h` has no cycle: every edge goes down in rank.
pub open spec fn ranked(h: Seq<Graph>, rank: Seq<nat>) -> bool {
    &&& rank.len() == h.len()
    &&& forall|a: int| 0 <= a < h.len() ==> node_ranked(rank, a, #[trigger] h[a])
}

/// Some rank bears witness that `h` has no cycle.
pub open spec fn acyclic(h: Seq<Graph>) -> bool {
    exists|rank: Seq<nat>| ranked(h, rank)
}

/// The five primitives sit at their fixed addresses.
pub open spec fn interned(h: Seq<Graph>) -> bool {
    &&& h.len() >= PROGRAM_AREA_END
    &&& h[S as int] == Graph::S
    &&& h[K as int] == Graph::K
    &&& h[I as int] == Graph::I
    &&& h[INC as int] == Graph::Inc
    &&& h[ZERO as int] == Graph::Num(0)
}

/// The invariant of a heap: primitives in place, no dangling or free
/// target, no cycle.
pub open spec fn wf(h: Seq<Graph>) -> bool {
    &&& interned(h)
    &&& closed(h)
    &&& acyclic(h)
}

/// Some rank of `h`, fixed once for each acyclic heap.
pub closed spec fn rank_of(h: Seq<Graph>) -> Seq<nat> {
    choose|rank: Seq<nat>| ranked(h, rank)
}

/// The rank that is fixed for an acyclic heap is one of its ranks.
pub proof fn lemma_rank_of(h: Seq<Graph>)
    requires
        acyclic(h),
    ensures
        ranked(h, rank_of(h)),
{
}

/// The rank of `a` under `rank_of`.
pub open spec fn height(h: Seq<Graph>, a: usize) -> nat {
    rank_of(h)[a as int]
}

/// `b` is a target of the node at `a`.
pub open spec fn edge(h: Seq<Graph>, a: usize, b: usize) -> bool {
    a < h.len() && match h[a as int] {
        Graph::Apply(l, r) => b == l || b == r,
        Graph::Link(t) => b == t,
        _ => false,
    }
}

/// Every edge goes down in height.
pub proof fn lemma_height_edge(h: Seq<Graph>, a: usize, b: usize)
    requires
        acyclic(h),
        edge(h, a, b),
    ensures
        height(h, b) < height(h, a),
{
    assert(node_ranked(rank_of(h), a as int, h[a as int]));
}

/// The end of the chain of links that starts at `a`.
pub open spec fn deref(h: Seq<Graph>, a: usize) -> usize
    decreases height(h, a),
{
    if acyclic(h) && a < h.len() {
        match h[a as int] {
            Graph::Link(t) => {
                proof {
                    lemma_height_edge(h, a, t);
                }
                deref(h, t)
            },
            _ => a,
        }
    } else {
        a
    }
}

/// Following links from any address of the heap ends at an address of the
/// heap that holds no link.
pub proof fn lemma_deref_ends(h: Seq<Graph>, a: usize)
    requires
        closed(h),
        acyclic(h),
        a < h.len(),
    ensures
        deref(h, a) < h.len(),
        !(h[deref(h, a) as int] is Link),
        live(h, a) ==> live(h, deref(h, a)),
    decreases height(h, a),
{
    match h[a as int] {
        Graph::Link(t) => {
            lemma_height_edge(h, a, t);
            assert(node_closed(h, h[a as int]));
            lemma_deref_ends(h, t);
        },
        _ => {},
    }
}

/// Following links ends, at a live node that is no link, and never climbs.
pub proof fn lemma_deref(h: Seq<Graph>, a: usize)
    requires
        closed(h),
        acyclic(h),
        live(h, a),
    ensures
        live(h, deref(h, a)),
        !(h[deref(h, a) as int] is Link),
        height(h, deref(h, a)) <= height(h, a),
        deref(h, deref(h, a)) == deref(h, a),
    decreases height(h, a),
{
    match h[a as int] {
        Graph::Link(t) => {
            lemma_height_edge(h, a, t);
            lemma_deref(h, t);
        },
        _ => {},
    }
}

/// Following links never climbs, whatever the heap.
pub proof fn lemma_deref_height(h: Seq<Graph>, a: usize)
    ensures
        height(h, deref(h, a)) <= height(h, a),
    decreases height(h, a),
{
    if acyclic(h) && a < h.len() {
        match h[a as int] {
            Graph::Link(t) => {
                lemma_height_edge(h, a, t);
                lemma_deref_height(h, t);
            },
            _ => {},
        }
    }
}

/// The left spine below `a`: the node that `a` stands for, then the node
/// that its function part stands for, and so on down to the head.
pub open spec fn spine(h: Seq<Graph>, a: usize) -> Seq<usize>
    decreases height(h, a),
{
    let d = deref(h, a);
    if acyclic(h) && d < h.len() {
        match h[d as int] {
            Graph::Apply(l, _) => {
                proof {
                    lemma_deref_height(h, a);
                    lemma_height_edge(h, d, l);
                }
                seq![d] + spine(h, l)
            },
            _ => seq![d],
        }
    } else {
        seq![d]
    }
}

/// The function part of the application at `r`.
pub open spec fn lhs(h: Seq<Graph>, r: usize) -> usize {
    match h[r as int] {
        Graph::Apply(l, _) => l,
        _ => r,
    }
}

/// The argument of the application at `r`.
pub open spec fn rhs(h: Seq<Graph>, r: usize) -> usize {
    match h[r as int] {
        Graph::Apply(_, x) => x,
        _ => r,
    }
}

/// What the spine of a live address looks like: live nodes that are no
/// links, each but the last an application whose function part stands for
/// the next, heights falling, and every tail the spine of its first node.
pub proof fn lemma_spine(h: Seq<Graph>, a: usize)
    requires
        closed(h),
        acyclic(h),
        live(h, a),
    ensures
        ({
            let sp = spine(h, a);
            &&& sp.len() >= 1
            &&& sp[0] == deref(h, a)
            &&& forall|i: int|
                0 <= i < sp.len() ==> live(h, #[trigger] sp[i]) && height(h, sp[i]) <= height(
                    h,
                    a,
                ) && !(h[sp[i] as int] is Link)
            &&& forall|i: int|
                0 <= i < sp.len() - 1 ==> (h[#[trigger] sp[i] as int] is Apply) && deref(
                    h,
                    lhs(h, sp[i]),
                ) == sp[i + 1] && height(h, sp[i + 1]) < height(h, sp[i])
            &&& !(h[sp.last() as int] is Apply)
            &&& forall|i: int| 0 <= i < sp.len() ==> spine(h, #[trigger] sp[i]) == sp.skip(i)
        }),
    decreases height(h, a),
{
    let sp = spine(h, a);
    let d = deref(h, a);
    lemma_deref(h, a);
    assert(spine(h, d) == sp);
    match h[d as int] {
        Graph::Apply(l, _) => {
            lemma_height_edge(h, d, l);
            assert(node_closed(h, h[d as int]));
            lemma_spine(h, l);
            let tail = spine(h, l);
            assert(sp == seq![d] + tail);
            assert forall|i: int| 0 <= i < sp.len() implies live(h, #[trigger] sp[i]) && height(
                h,
                sp[i],
            ) <= height(h, a) && !(h[sp[i] as int] is Link) && spine(h, sp[i]) == sp.skip(i) by {
                if i > 0 {
                    assert(sp[i] == tail[i - 1]);
                    assert(sp.skip(i) =~= tail.skip(i - 1));
                } else {
                    assert(sp.skip(0) =~= sp);
                }
            }
            assert forall|i: int| 0 <= i < sp.len() - 1 implies (h[#[trigger] sp[i] as int] is Apply)
                && deref(h, lhs(h, sp[i])) == sp[i + 1] && height(h, sp[i + 1]) < height(
                h,
                sp[i],
            ) by {
                if i > 0 {
                    assert(sp[i] == tail[i - 1]);
                    assert(sp[i + 1] == tail[i]);
                } else {
                    assert(sp[1] == tail[0]);
                    lemma_deref_height(h, l);
                }
            }
            assert(sp.last() == tail.last());
        },
        _ => {
            assert(sp == seq![d]);
            assert(sp.skip(0) =~= sp);
        },
    }
}

/// Two spine entries at different places are different nodes.
pub proof fn lemma_spine_distinct(h: Seq<Graph>, a: usize, i: int, j: int)
    requires
        closed(h),
        acyclic(h),
        live(h, a),
        0 <= i < j < spine(h, a).len(),
    ensures
        height(h, spine(h, a)[j]) < height(h, spine(h, a)[i]),
        spine(h, a)[i] != spine(h, a)[j],
    decreases j - i,
{
    lemma_spine(h, a);
    if i + 1 < j {
        lemma_spine_distinct(h, a, i + 1, j);
    }
}

/// The spine of a live address, one node at a time: an application comes
/// before the spine of its function part, a link has the spine of its
/// target, and anything else is a spine by itself.
pub proof fn lemma_spine_at(h: Seq<Graph>, a: usize)
    requires
        closed(h),
        acyclic(h),
        live(h, a),
    ensures
        match h[a as int] {
            Graph::Apply(l, _) => spine(h, a) == seq![a] + spine(h, l),
            Graph::Link(t) => spine(h, a) == spine(h, t) && deref(h, a) == deref(h, t),
            _ => spine(h, a) == seq![a],
        },
        !(h[a as int] is Link) ==> deref(h, a) == a,
{
}

} // verus!
