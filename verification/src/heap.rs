use crate::graph::{
    acyclic, closed, deref, height, lemma_deref, lemma_height_edge, lemma_rank_of, lemma_spine,
    lemma_spine_distinct, live, node_closed, node_ranked, rank_of, ranked, spine, wf, Graph,
    PROGRAM_AREA_END,
};
use vstd::prelude::*;

verus! {

/// The first free slot of `h` at or after `from`, or the length of `h` when
/// there is none.
pub open spec fn first_free(h: Seq<Graph>, from: nat) -> nat
    decreases h.len() - from,
{
    if from >= h.len() {
        h.len()
    } else if h[from as int] == Graph::Free {
        from
    } else {
        first_free(h, from + 1)
    }
}

/// The heap after `g` was stored at the first free slot at or after
/// `from`, or appended where no such slot exists.
pub open spec fn placed(h: Seq<Graph>, from: nat, g: Graph) -> Seq<Graph> {
    let id = first_free(h, from);
    if id < h.len() {
        h.update(id as int, g)
    } else {
        h.push(g)
    }
}

/// `h2` is `h1` with the slot `r` and any unused slots rewritten, and
/// perhaps grown.
pub open spec fn frame(h1: Seq<Graph>, h2: Seq<Graph>, r: usize) -> bool {
    &&& h1.len() <= h2.len()
    &&& forall|a: usize| live(h1, a) && a != r ==> #[trigger] h2[a as int] == h1[a as int]
}

/// `h2` is `h1` with unused slots filled, and perhaps grown.
pub open spec fn extends(h1: Seq<Graph>, h2: Seq<Graph>) -> bool {
    &&& h1.len() <= h2.len()
    &&& forall|a: usize| live(h1, a) ==> #[trigger] h2[a as int] == h1[a as int]
}

/// The first free slot lies between the start of the search and the end
/// of the heap, is free if it lies in the heap, and no slot before it is.
pub proof fn lemma_first_free(h: Seq<Graph>, from: nat)
    requires
        from <= h.len(),
    ensures
        from <= first_free(h, from) <= h.len(),
        first_free(h, from) < h.len() ==> h[first_free(h, from) as int] == Graph::Free,
        forall|i: int| from <= i < first_free(h, from) ==> h[i] != Graph::Free,
    decreases h.len() - from,
{
    if from < h.len() && h[from as int] != Graph::Free {
        lemma_first_free(h, from + 1);
    }
}

/// Storing a node whose targets are live keeps a heap well formed, and
/// leaves every live node as it was.
pub proof fn lemma_placed(h: Seq<Graph>, from: nat, g: Graph)
    requires
        wf(h),
        from <= h.len(),
        node_closed(h, g),
    ensures
        wf(placed(h, from, g)),
        extends(h, placed(h, from, g)),
        forall|a: usize| #[trigger] live(h, a) ==> a != first_free(h, from),
        placed(h, from, g)[first_free(h, from) as int] == g,
        placed(h, from, g).len() == if first_free(h, from) < h.len() {
            h.len()
        } else {
            h.len() + 1
        },
{
    lemma_first_free(h, from);
    let id = first_free(h, from);
    let h2 = placed(h, from, g);
    let rank = choose|rank: Seq<nat>| ranked(h, rank);
    let top: nat = match g {
        Graph::Apply(l, r) => rank[l as int] + rank[r as int] + 1,
        Graph::Link(t) => rank[t as int] + 1,
        _ => 0,
    };
    let rank2 = if id < h.len() {
        rank.update(id as int, top)
    } else {
        rank.push(top)
    };
    assert forall|a: int| 0 <= a < h2.len() implies node_closed(h2, #[trigger] h2[a]) && node_ranked(
        rank2,
        a,
        h2[a],
    ) by {
        if a != id {
            assert(node_closed(h, h[a]));
            assert(node_ranked(rank, a, h[a]));
        }
    }
    assert(ranked(h2, rank2));
}

/// A rewritten slot that stays in use keeps every live address live.
pub proof fn lemma_frame_live(h1: Seq<Graph>, h2: Seq<Graph>, r: usize, a: usize)
    requires
        frame(h1, h2, r),
        live(h1, a),
        live(h2, r) || !live(h1, r),
    ensures
        live(h2, a),
{
    if a != r {
        assert(h2[a as int] == h1[a as int]);
    }
}

/// Where the slot `m` is rewritten and was no link, a chain of links ends
/// where it ended before, unless it ended at `m`.
pub proof fn lemma_deref_frame(h1: Seq<Graph>, h2: Seq<Graph>, a: usize, m: usize)
    requires
        closed(h1),
        acyclic(h1),
        acyclic(h2),
        live(h1, a),
        frame(h1, h2, m),
        m < h1.len() ==> !(h1[m as int] is Link),
    ensures
        deref(h2, a) == if deref(h1, a) == m {
            deref(h2, m)
        } else {
            deref(h1, a)
        },
    decreases height(h1, a),
{
    if a != m {
        assert(h2[a as int] == h1[a as int]);
        match h1[a as int] {
            Graph::Link(t) => {
                lemma_height_edge(h1, a, t);
                assert(node_closed(h1, h1[a as int]));
                lemma_deref_frame(h1, h2, t, m);
            },
            _ => {},
        }
    }
}

/// Where the rewritten slot `m` is the `k`-th node of a spine, the new
/// spine is the old one down to `m`, then the new spine of `m`.
pub proof fn lemma_spine_cut(h1: Seq<Graph>, h2: Seq<Graph>, a: usize, k: int)
    requires
        closed(h1),
        acyclic(h1),
        acyclic(h2),
        live(h1, a),
        0 <= k < spine(h1, a).len(),
        frame(h1, h2, spine(h1, a)[k]),
    ensures
        spine(h2, a) == spine(h1, a).take(k) + spine(h2, spine(h1, a)[k]),
    decreases k,
{
    let sp = spine(h1, a);
    let m = sp[k];
    let d = deref(h1, a);
    lemma_spine(h1, a);
    lemma_deref(h1, a);
    lemma_deref_frame(h1, h2, a, m);
    if k == 0 {
        assert(sp.take(0) + spine(h2, m) =~= spine(h2, m));
    } else {
        lemma_spine_distinct(h1, a, 0, k);
        assert(h2[d as int] == h1[d as int]);
        match h1[d as int] {
            Graph::Apply(l, _) => {
                assert(node_closed(h1, h1[d as int]));
                let tail = spine(h1, l);
                assert(sp == seq![d] + tail);
                assert(tail[k - 1] == m);
                lemma_spine_cut(h1, h2, l, k - 1);
                assert(spine(h2, a) == seq![d] + spine(h2, l));
                assert(sp.take(k) =~= seq![d] + tail.take(k - 1));
                assert(spine(h2, a) =~= sp.take(k) + spine(h2, m));
            },
            _ => {},
        }
    }
}

/// Where the rewritten slot `m` was no link and is not on a spine, the
/// spine stays as it was.
pub proof fn lemma_spine_same(h1: Seq<Graph>, h2: Seq<Graph>, a: usize, m: usize)
    requires
        closed(h1),
        acyclic(h1),
        acyclic(h2),
        live(h1, a),
        frame(h1, h2, m),
        m < h1.len() ==> !(h1[m as int] is Link),
        forall|i: int| 0 <= i < spine(h1, a).len() ==> spine(h1, a)[i] != m,
    ensures
        spine(h2, a) == spine(h1, a),
    decreases spine(h1, a).len(),
{
    let sp = spine(h1, a);
    let d = deref(h1, a);
    lemma_spine(h1, a);
    lemma_deref(h1, a);
    lemma_deref_frame(h1, h2, a, m);
    assert(sp[0] == d);
    assert(h2[d as int] == h1[d as int]);
    match h1[d as int] {
        Graph::Apply(l, _) => {
            assert(node_closed(h1, h1[d as int]));
            let tail = spine(h1, l);
            assert(sp == seq![d] + tail);
            assert forall|i: int| 0 <= i < tail.len() implies tail[i] != m by {
                assert(sp[i + 1] == tail[i]);
            }
            lemma_spine_same(h1, h2, l, m);
        },
        _ => {},
    }
}

/// Turning a live node past the primitives into a link to a lower live
/// node keeps a heap well formed.
pub proof fn lemma_set_link(h: Seq<Graph>, r: usize, x: usize)
    requires
        wf(h),
        live(h, r),
        r >= PROGRAM_AREA_END,
        live(h, x),
        height(h, x) < height(h, r),
    ensures
        wf(h.update(r as int, Graph::Link(x))),
        frame(h, h.update(r as int, Graph::Link(x)), r),
{
    let h2 = h.update(r as int, Graph::Link(x));
    lemma_rank_of(h);
    let rank = rank_of(h);
    assert forall|a: int| 0 <= a < h2.len() implies node_closed(h2, #[trigger] h2[a]) && node_ranked(
        rank,
        a,
        h2[a],
    ) by {
        if a != r {
            assert(node_closed(h, h[a]));
            assert(node_ranked(rank, a, h[a]));
        }
    }
    assert(ranked(h2, rank));
}

/// Turning a live node past the primitives into one that points nowhere
/// keeps a heap well formed.
pub proof fn lemma_set_leaf(h: Seq<Graph>, r: usize, g: Graph)
    requires
        wf(h),
        live(h, r),
        r >= PROGRAM_AREA_END,
        !(g is Apply),
        !(g is Link),
        g != Graph::Free,
    ensures
        wf(h.update(r as int, g)),
        frame(h, h.update(r as int, g), r),
{
    let h2 = h.update(r as int, g);
    lemma_rank_of(h);
    let rank = rank_of(h);
    assert forall|a: int| 0 <= a < h2.len() implies node_closed(h2, #[trigger] h2[a]) && node_ranked(
        rank,
        a,
        h2[a],
    ) by {
        if a != r {
            assert(node_closed(h, h[a]));
            assert(node_ranked(rank, a, h[a]));
        }
    }
    assert(ranked(h2, rank));
}

/// `t` is a primitive, or was not in use in `base`.
pub open spec fn fresh_in(base: Seq<Graph>, t: usize) -> bool {
    !live(base, t) || t < PROGRAM_AREA_END
}

/// Every address that `g` holds is fresh with respect to `base`.
pub open spec fn node_fresh(base: Seq<Graph>, g: Graph) -> bool {
    match g {
        Graph::Apply(l, r) => fresh_in(base, l) && fresh_in(base, r),
        Graph::Link(t) => fresh_in(base, t),
        _ => true,
    }
}

/// The nodes of `h` that were not in use in `base` point only at one
/// another and at the primitives.
pub open spec fn self_contained(base: Seq<Graph>, h: Seq<Graph>) -> bool {
    forall|a: int|
        0 <= a < h.len() && !live(base, a as usize) ==> node_fresh(base, #[trigger] h[a])
}

/// Linking a node that points nowhere to a node built after it, out of
/// nodes that point only at one another and at the primitives, makes no
/// cycle.
pub proof fn lemma_link_fresh(base: Seq<Graph>, h: Seq<Graph>, f: usize, c: usize)
    requires
        wf(base),
        wf(h),
        h.len() <= usize::MAX,
        extends(base, h),
        self_contained(base, h),
        live(base, f),
        f >= PROGRAM_AREA_END,
        !(base[f as int] is Apply),
        !(base[f as int] is Link),
        live(h, c),
        !live(base, c),
    ensures
        wf(h.update(f as int, Graph::Link(c))),
        frame(base, h.update(f as int, Graph::Link(c)), f),
{
    let h2 = h.update(f as int, Graph::Link(c));
    lemma_rank_of(h);
    let rank = rank_of(h);
    let lift = rank[c as int] + 1;
    let rank2 = Seq::new(
        h.len(),
        |i: int|
            if live(base, i as usize) && i >= PROGRAM_AREA_END {
                rank[i] + lift
            } else {
                rank[i]
            },
    );
    assert(h[f as int] == base[f as int]);
    assert forall|a: int| 0 <= a < h2.len() implies node_closed(h2, #[trigger] h2[a]) && node_ranked(
        rank2,
        a,
        h2[a],
    ) by {
        if a != f {
            assert(node_closed(h, h[a]));
            assert(node_ranked(rank, a, h[a]));
            if live(base, a as usize) {
                assert(h[a] == base[a as usize as int]);
                assert(node_closed(base, base[a]));
            } else {
                assert(node_fresh(base, h[a]));
            }
        }
    }
    assert(ranked(h2, rank2));
}

/// `h2` keeps every node of `h1` that is in use and no higher than
/// `bound`.
pub open spec fn agree_below(h1: Seq<Graph>, h2: Seq<Graph>, bound: nat) -> bool {
    &&& h1.len() <= h2.len()
    &&& forall|a: usize|
        live(h1, a) && height(h1, a) <= bound ==> #[trigger] h2[a as int] == h1[a as int]
}

/// A heap that only grew agrees with the old one at every height.
pub proof fn lemma_extends_below(h1: Seq<Graph>, h2: Seq<Graph>, bound: nat)
    requires
        extends(h1, h2),
    ensures
        agree_below(h1, h2, bound),
{
}

/// A chain of links ends where it ended while nothing at or below its
/// start changes.
pub proof fn lemma_deref_below(h1: Seq<Graph>, h2: Seq<Graph>, a: usize)
    requires
        closed(h1),
        acyclic(h1),
        acyclic(h2),
        live(h1, a),
        agree_below(h1, h2, height(h1, a)),
    ensures
        deref(h2, a) == deref(h1, a),
    decreases height(h1, a),
{
    assert(h2[a as int] == h1[a as int]);
    match h1[a as int] {
        Graph::Link(t) => {
            lemma_height_edge(h1, a, t);
            assert(node_closed(h1, h1[a as int]));
            lemma_deref_below(h1, h2, t);
        },
        _ => {},
    }
}

} // verus!
