use crate::graph::{
    edge, lemma_rank_of, live, node_closed, node_ranked, rank_of, ranked, wf, Graph,
    PROGRAM_AREA_END,
};
use crate::runner::Runner;
use std::collections::VecDeque;
use vstd::prelude::*;

verus! {

/// Each node of `p` points at the next.
pub open spec fn is_path(h: Seq<Graph>, p: Seq<usize>) -> bool {
    &&& p.len() >= 1
    &&& forall|i: int| 0 <= i < p.len() - 1 ==> edge(h, #[trigger] p[i], p[i + 1])
}

/// `a` can be reached from `root` along the edges of `h`.
pub open spec fn reaches(h: Seq<Graph>, root: usize, a: usize) -> bool {
    exists|p: Seq<usize>| is_path(h, p) && p[0] == root && #[trigger] p.last() == a
}

/// The heap after a sweep from `root`: the primitives and what `root`
/// reaches stay as they are, every other slot is free.
pub open spec fn swept(h: Seq<Graph>, root: usize) -> Seq<Graph> {
    Seq::new(
        h.len(),
        |a: int|
            if a < PROGRAM_AREA_END || reaches(h, root, a as usize) {
                h[a]
            } else {
                Graph::Free
            },
    )
}

/// Every address reaches itself.
pub proof fn lemma_reaches_self(h: Seq<Graph>, root: usize)
    ensures
        reaches(h, root, root),
{
    let p = seq![root];
    assert(is_path(h, p) && p[0] == root && p.last() == root);
}

/// What reaches a node reaches its targets.
pub proof fn lemma_reaches_edge(h: Seq<Graph>, root: usize, a: usize, b: usize)
    requires
        reaches(h, root, a),
        edge(h, a, b),
    ensures
        reaches(h, root, b),
{
    let p = choose|p: Seq<usize>| is_path(h, p) && p[0] == root && #[trigger] p.last() == a;
    let q = p.push(b);
    assert forall|i: int| 0 <= i < q.len() - 1 implies edge(h, #[trigger] q[i], q[i + 1]) by {
        if i < p.len() - 1 {
            assert(q[i] == p[i] && q[i + 1] == p[i + 1]);
        }
    }
    assert(is_path(h, q) && q[0] == root && q.last() == b);
}

/// A set of marks that holds `root` and is closed under the edges of `h`
/// holds everything that `root` reaches.
pub proof fn lemma_marks_cover(h: Seq<Graph>, root: usize, need: Seq<bool>, p: Seq<usize>, i: int)
    requires
        need.len() == h.len(),
        root < h.len(),
        need[root as int],
        forall|a: usize, b: usize|
            a < h.len() && need[a as int] && #[trigger] edge(h, a, b) ==> b < h.len() && need[b as int],
        is_path(h, p),
        p[0] == root,
        0 <= i < p.len(),
    ensures
        p[i] < h.len(),
        need[p[i] as int],
    decreases i,
{
    if i > 0 {
        lemma_marks_cover(h, root, need, p, i - 1);
        assert(edge(h, p[i - 1], p[i - 1 + 1]));
    }
}

/// A sweep keeps a heap well formed.
pub proof fn lemma_swept_wf(h: Seq<Graph>, root: usize)
    requires
        wf(h),
        h.len() <= usize::MAX,
    ensures
        wf(swept(h, root)),
{
    let h2 = swept(h, root);
    lemma_rank_of(h);
    let rank = rank_of(h);
    assert forall|a: int| 0 <= a < h2.len() implies node_closed(h2, #[trigger] h2[a]) && node_ranked(
        rank,
        a,
        h2[a],
    ) by {
        assert(node_closed(h, h[a]));
        assert(node_ranked(rank, a, h[a]));
        if a >= PROGRAM_AREA_END && reaches(h, root, a as usize) {
            match h[a] {
                Graph::Apply(l, r) => {
                    lemma_reaches_edge(h, root, a as usize, l);
                    lemma_reaches_edge(h, root, a as usize, r);
                },
                Graph::Link(t) => {
                    lemma_reaches_edge(h, root, a as usize, t);
                },
                _ => {},
            }
        }
    }
    assert(ranked(h2, rank));
}

/// What a sweep does to each slot: what `root` reaches stays as it is, and
/// if it is an application, neither of its parts is free afterwards; every
/// other slot past the primitives is free.
pub proof fn lemma_swept(h: Seq<Graph>, root: usize, a: usize)
    requires
        wf(h),
        h.len() <= usize::MAX,
        a < h.len(),
    ensures
        reaches(h, root, a) ==> swept(h, root)[a as int] == h[a as int],
        !reaches(h, root, a) && a >= PROGRAM_AREA_END ==> swept(h, root)[a as int] == Graph::Free,
        reaches(h, root, a) ==> (swept(h, root)[a as int] matches Graph::Apply(f, x) ==> live(
            swept(h, root),
            f,
        ) && live(swept(h, root), x)),
{
    lemma_swept_wf(h, root);
    assert(node_closed(swept(h, root), swept(h, root)[a as int]));
}

/// The number of entries of `need` that are not set.
pub open spec fn unmarked(need: Seq<bool>) -> nat
    decreases need.len(),
{
    if need.len() == 0 {
        0
    } else {
        unmarked(need.drop_last()) + if need.last() {
            0nat
        } else {
            1nat
        }
    }
}

proof fn lemma_mark(need: Seq<bool>, i: int)
    requires
        0 <= i < need.len(),
        !need[i],
    ensures
        unmarked(need.update(i, true)) + 1 == unmarked(need),
    decreases need.len(),
{
    let marked = need.update(i, true);
    if i == need.len() - 1 {
        assert(marked.drop_last() =~= need.drop_last());
    } else {
        assert(marked.drop_last() =~= need.drop_last().update(i, true));
        lemma_mark(need.drop_last(), i);
    }
}

impl Runner {
    /// Frees every slot past the primitives that `start` does not reach, and
    /// moves the cursor back to the first slot past the primitives.
    pub fn garbage_collect(&mut self, start: usize)
        requires
            old(self).wf(),
            start < old(self).heap().len(),
        ensures
            final(self).wf(),
            final(self).heap() == swept(old(self).heap(), start),
            final(self).fresh() == PROGRAM_AREA_END,
    {
        let ghost h = self.heap();
        let len = self.len();
        let mut need: Vec<bool> = Vec::new();
        while need.len() < len
            invariant
                need.len() <= len,
                forall|i: int| 0 <= i < need.len() ==> !need[i],
            decreases len - need.len(),
        {
            need.push(false);
        }
        let mut queue: VecDeque<usize> = VecDeque::new();
        queue.push_front(start);
        proof {
            lemma_reaches_self(h, start);
            assert(queue@[0] == start);
        }
        loop
            invariant
                self.wf(),
                self.heap() == h,
                len == h.len(),
                need.len() == len,
                start < len,
                forall|i: int| 0 <= i < queue@.len() ==> reaches(h, start, #[trigger] queue@[i]),
                forall|a: usize| a < len && #[trigger] need[a as int] ==> reaches(h, start, a),
                need[start as int] || queue@.contains(start),
                forall|a: usize, b: usize|
                    a < len && need[a as int] && #[trigger] edge(h, a, b) ==> b < len && (need[b as int]
                        || queue@.contains(b)),
            ensures
                queue@.len() == 0,
            decreases unmarked(need@), queue@.len(),
        {
            let ghost q0 = queue@;
            let ghost need0 = need@;
            let id = match queue.pop_back() {
                Some(id) => id,
                None => {
                    break ;
                },
            };
            proof {
                assert(reaches(h, start, q0[q0.len() - 1]));
                assert forall|b: usize| q0.contains(b) && b != id implies queue@.contains(b) by {
                    let i = choose|i: int| 0 <= i < q0.len() && q0[i] == b;
                    assert(queue@[i] == b);
                }
                lemma_reaches_in(h, start, id);
            }
            if need[id] {
                continue ;
            }
            need.set(id, true);
            proof {
                lemma_mark(need0, id as int);
            }
            let ghost q1 = queue@;
            match self.get(id) {
                Graph::Apply(l, r) => {
                    queue.push_front(l);
                    queue.push_front(r);
                    proof {
                        let q2 = seq![l] + q1;
                        assert(queue@ == seq![r] + q2);
                        lemma_reaches_edge(h, start, id, l);
                        lemma_reaches_edge(h, start, id, r);
                        assert(queue@[0] == r && queue@[1] == l);
                        assert forall|b: usize| q1.contains(b) implies queue@.contains(b) by {
                            let i = choose|i: int| 0 <= i < q1.len() && q1[i] == b;
                            assert(queue@[i + 2] == b);
                        }
                        assert forall|i: int| 0 <= i < queue@.len() implies reaches(
                            h,
                            start,
                            #[trigger] queue@[i],
                        ) by {
                            if i >= 2 {
                                assert(queue@[i] == q1[i - 2]);
                            }
                        }
                    }
                },
                Graph::Link(x) => {
                    queue.push_front(x);
                    proof {
                        lemma_reaches_edge(h, start, id, x);
                        assert(queue@[0] == x);
                        assert forall|b: usize| q1.contains(b) implies queue@.contains(b) by {
                            let i = choose|i: int| 0 <= i < q1.len() && q1[i] == b;
                            assert(queue@[i + 1] == b);
                        }
                        assert forall|i: int| 0 <= i < queue@.len() implies reaches(
                            h,
                            start,
                            #[trigger] queue@[i],
                        ) by {
                            if i >= 1 {
                                assert(queue@[i] == q1[i - 1]);
                            }
                        }
                    }
                },
                _ => {},
            }
        }
        proof {
            assert forall|a: usize| a < len implies (need[a as int] <==> reaches(h, start, a)) by {
                if reaches(h, start, a) {
                    let p = choose|p: Seq<usize>|
                        is_path(h, p) && p[0] == start && #[trigger] p.last() == a;
                    lemma_marks_cover(h, start, need@, p, p.len() - 1);
                }
            }
        }
        let mut i = PROGRAM_AREA_END;
        while i < len
            invariant
                PROGRAM_AREA_END <= i <= len,
                len == h.len(),
                need.len() == len,
                self.heap().len() == len,
                self.fresh() == old(self).fresh(),
                forall|a: usize| a < len ==> (need[a as int] <==> reaches(h, start, a)),
                forall|a: int| 0 <= a < i ==> self.heap()[a] == swept(h, start)[a],
                forall|a: int| i <= a < len ==> self.heap()[a] == h[a],
            decreases len - i,
        {
            if !need[i] {
                self.set(i, Graph::Free);
            }
            i += 1;
        }
        self.reset_cursor();
        proof {
            assert(self.heap() =~= swept(h, start));
            lemma_swept_wf(h, start);
        }
    }
}

/// Whatever `root` reaches in a closed heap is an address of the heap.
pub proof fn lemma_reaches_in(h: Seq<Graph>, root: usize, a: usize)
    requires
        wf(h),
        root < h.len(),
        reaches(h, root, a),
    ensures
        a < h.len(),
{
    let p = choose|p: Seq<usize>| is_path(h, p) && p[0] == root && #[trigger] p.last() == a;
    lemma_path_in(h, p, p.len() - 1);
}

proof fn lemma_path_in(h: Seq<Graph>, p: Seq<usize>, i: int)
    requires
        wf(h),
        is_path(h, p),
        p[0] < h.len(),
        0 <= i < p.len(),
    ensures
        p[i] < h.len(),
    decreases i,
{
    if i > 0 {
        lemma_path_in(h, p, i - 1);
        assert(edge(h, p[i - 1], p[i - 1 + 1]));
        assert(node_closed(h, h[p[i - 1] as int]));
    }
}

} // verus!
