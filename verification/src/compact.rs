//! The compactor: a reachability sweep from the trailer root that
//! discards every object not transitively reachable.

use vstd::prelude::*;

use crate::assoc::{assoc_has, assoc_lookup, assoc_unique};
use crate::graph::{DocView, PdfDocument, lemma_view_graph, view_graph};
use crate::objects::{Object, ObjectId, ObjView};
use crate::remap::{push_refs, refs_of, refs_of_entries};

verus! {

/// Whether `id` is reached from `root` in exactly `n` reference
/// steps through the graph.
pub open spec fn reaches(
    g: Seq<(ObjectId, ObjView)>,
    root: ObjectId,
    id: ObjectId,
    n: nat,
) -> bool
    decreases n,
{
    if n == 0 {
        id == root
    } else {
        exists|j: int|
            0 <= j < g.len() && reaches(g, root, #[trigger] g[j].0, (n - 1) as nat) && refs_of(
                g[j].1,
            ).contains(id)
    }
}

/// Whether `id` is transitively reachable from `root`.
pub open spec fn reachable(g: Seq<(ObjectId, ObjView)>, root: ObjectId, id: ObjectId) -> bool {
    exists|n: nat| reaches(g, root, id, n)
}

/// The graph restricted to its root-reachable entries, in order.
pub open spec fn spec_compact(g: Seq<(ObjectId, ObjView)>, root: ObjectId) -> Seq<
    (ObjectId, ObjView),
> {
    g.filter(|e: (ObjectId, ObjView)| reachable(g, root, e.0))
}

/// The identity the trailer's root entry points at, if any.
pub open spec fn doc_root(d: DocView) -> Option<ObjectId> {
    match assoc_lookup(d.trailer, "Root"@) {
        Some(v) => match v {
            ObjView::Reference(id) => Some(id),
            _ => None,
        },
        _ => None,
    }
}

/// How many entries of a mark table are set.
pub open spec fn count_true(s: Seq<bool>) -> int
    decreases s.len(),
{
    if s.len() == 0 {
        0
    } else {
        count_true(s.drop_last()) + if s.last() {
            1int
        } else {
            0int
        }
    }
}

proof fn lemma_count_true_le(s: Seq<bool>)
    ensures
        count_true(s) <= s.len(),
        count_true(s) >= 0,
    decreases s.len(),
{
    if s.len() > 0 {
        lemma_count_true_le(s.drop_last());
    }
}

proof fn lemma_count_true_update(s: Seq<bool>, j: int)
    requires
        0 <= j < s.len(),
        !s[j],
    ensures
        count_true(s.update(j, true)) == count_true(s) + 1,
    decreases s.len(),
{
    let u = s.update(j, true);
    if j == s.len() - 1 {
        assert(u.drop_last() =~= s.drop_last());
    } else {
        assert(u.drop_last() =~= s.drop_last().update(j, true));
        lemma_count_true_update(s.drop_last(), j);
        assert(u.last() == s.last());
    }
}

/// A mark table closed under references: every marked entry's
/// references lead only to marked entries.
pub open spec fn marks_closed(
    g: Seq<(ObjectId, ObjView)>,
    marked: Seq<bool>,
) -> bool {
    forall|j: int, ri: int, t: int|
        0 <= j < g.len() && marked[j] && 0 <= ri < refs_of(g[j].1).len() && 0 <= t < g.len()
            && g[t].0 == refs_of(g[j].1)[ri] ==> marked[t]
}

/// In a closed mark table whose root entries are marked, every
/// reachable key's entries are marked.
proof fn lemma_reachable_marked(
    g: Seq<(ObjectId, ObjView)>,
    root: ObjectId,
    marked: Seq<bool>,
    id: ObjectId,
    n: nat,
)
    requires
        marked.len() == g.len(),
        forall|j: int| 0 <= j < g.len() && g[j].0 == root ==> marked[j],
        marks_closed(g, marked),
        reaches(g, root, id, n),
    ensures
        forall|t: int| 0 <= t < g.len() && g[t].0 == id ==> marked[t],
    decreases n,
{
    if n == 0 {
    } else {
        let j = choose|j: int|
            0 <= j < g.len() && reaches(g, root, #[trigger] g[j].0, (n - 1) as nat) && refs_of(
                g[j].1,
            ).contains(id);
        lemma_reachable_marked(g, root, marked, g[j].0, (n - 1) as nat);
        assert(marked[j]);
        let ri = choose|ri: int| 0 <= ri < refs_of(g[j].1).len() && refs_of(g[j].1)[ri] == id;
        assert forall|t: int| 0 <= t < g.len() && g[t].0 == id implies marked[t] by {
            assert(refs_of(g[j].1)[ri] == id);
        }
    }
}

impl PdfDocument {
    /// Discards every object not transitively reachable from the
    /// trailer root: exactly the reachable entries survive, in their
    /// original order and with their original values.
    #[verifier::rlimit(60)]
    pub fn prune_unreachable(&mut self)
        requires
            doc_root(old(self)@) is Some,
        ensures
            final(self)@.objects == spec_compact(
                old(self)@.objects,
                doc_root(old(self)@)->Some_0,
            ),
            final(self)@.trailer == old(self)@.trailer,
            final(self)@.version == old(self)@.version,
    {
        proof {
            lemma_view_graph(self.objects@);
        }
        let ghost g = self@.objects;
        let root: ObjectId = match self.trailer.get("Root") {
            Some(Object::Reference(id)) => *id,
            _ => {
                proof {
                    assert(false);
                }
                ObjectId { num: 0, gen: 0 }
            },
        };
        proof {
            assert(root == doc_root(old(self)@)->Some_0);
        }
        let n = self.objects.len();
        let mut marked: Vec<bool> = Vec::new();
        let mut j0: usize = 0;
        while j0 < n
            invariant
                j0 <= n,
                n == self.objects@.len(),
                g == self@.objects,
                g.len() == self.objects@.len(),
                forall|j: int|
                    0 <= j < self.objects@.len() ==> g[j] == (
                        self.objects@[j].0,
                        self.objects@[j].1.ov(),
                    ),
                marked@.len() == j0,
                forall|j: int| 0 <= j < j0 ==> (marked@[j] <==> g[j].0 == root),
            decreases n - j0,
        {
            marked.push(self.objects[j0].0 == root);
            j0 += 1;
        }
        proof {
            assert forall|j: int| 0 <= j < g.len() && marked@[j] implies reachable(
                g,
                root,
                g[j].0,
            ) by {
                assert(reaches(g, root, g[j].0, 0));
            }
        }
        loop
            invariant
                n == self.objects@.len(),
                g == self@.objects,
                g.len() == self.objects@.len(),
                forall|j: int|
                    0 <= j < self.objects@.len() ==> g[j] == (
                        self.objects@[j].0,
                        self.objects@[j].1.ov(),
                    ),
                marked@.len() == n,
                forall|j: int| 0 <= j < n && g[j].0 == root ==> marked@[j],
                forall|j: int|
                    0 <= j < n && marked@[j] ==> reachable(g, root, #[trigger] g[j].0),
            ensures
                marked@.len() == n,
                forall|j: int| 0 <= j < n && g[j].0 == root ==> marked@[j],
                forall|j: int|
                    0 <= j < n && marked@[j] ==> reachable(g, root, #[trigger] g[j].0),
                marks_closed(g, marked@),
            decreases n - count_true(marked@),
        {
            let ghost pass_start = marked@;
            proof {
                lemma_count_true_le(pass_start);
            }
            let mut changed: bool = false;
            let mut j: usize = 0;
            while j < n
                invariant
                    j <= n,
                    n == self.objects@.len(),
                    g == self@.objects,
                    g.len() == self.objects@.len(),
                    forall|jj: int|
                        0 <= jj < self.objects@.len() ==> g[jj] == (
                            self.objects@[jj].0,
                            self.objects@[jj].1.ov(),
                        ),
                    marked@.len() == n,
                    forall|jj: int| 0 <= jj < n && g[jj].0 == root ==> marked@[jj],
                    forall|jj: int|
                        0 <= jj < n && marked@[jj] ==> reachable(g, root, #[trigger] g[jj].0),
                    forall|jj: int| 0 <= jj < n && pass_start[jj] ==> marked@[jj],
                    pass_start.len() == n,
                    changed ==> count_true(marked@) > count_true(pass_start),
                    !changed ==> marked@ == pass_start,
                    !changed ==> (forall|jj: int, ri: int, t: int|
                        0 <= jj < j && marked@[jj] && 0 <= ri < refs_of(g[jj].1).len() && 0 <= t
                            < n && g[t].0 == refs_of(g[jj].1)[ri] ==> marked@[t]),
                    count_true(marked@) >= count_true(pass_start),
                decreases n - j,
            {
                if marked[j] {
                    let mut refsv: Vec<ObjectId> = Vec::new();
                    push_refs(&self.objects[j].1, &mut refsv);
                    proof {
                        assert(refsv@ =~= refs_of(g[j as int].1));
                    }
                    let mut ri: usize = 0;
                    while ri < refsv.len()
                        invariant
                            ri <= refsv.len(),
                            refsv@ == refs_of(g[j as int].1),
                            j < n,
                            n == self.objects@.len(),
                            g == self@.objects,
                            g.len() == self.objects@.len(),
                                    forall|jj: int|
                                0 <= jj < self.objects@.len() ==> g[jj] == (
                                    self.objects@[jj].0,
                                    self.objects@[jj].1.ov(),
                                ),
                            marked@.len() == n,
                            marked@[j as int],
                            forall|jj: int| 0 <= jj < n && g[jj].0 == root ==> marked@[jj],
                            forall|jj: int|
                                0 <= jj < n && marked@[jj] ==> reachable(
                                    g,
                                    root,
                                    #[trigger] g[jj].0,
                                ),
                            forall|jj: int| 0 <= jj < n && pass_start[jj] ==> marked@[jj],
                            pass_start.len() == n,
                            changed ==> count_true(marked@) > count_true(pass_start),
                            !changed ==> marked@ == pass_start,
                            !changed ==> (forall|jj: int, ri2: int, t: int|
                                0 <= jj < j && marked@[jj] && 0 <= ri2 < refs_of(
                                    g[jj].1,
                                ).len() && 0 <= t < n && g[t].0 == refs_of(g[jj].1)[ri2]
                                    ==> marked@[t]),
                            !changed ==> (forall|ri2: int, t: int|
                                0 <= ri2 < ri && 0 <= t < n && g[t].0 == refs_of(
                                    g[j as int].1,
                                )[ri2] ==> marked@[t]),
                            count_true(marked@) >= count_true(pass_start),
                        decreases refsv.len() - ri,
                    {
                        let r = refsv[ri];
                        let mut t: usize = 0;
                        while t < n
                            invariant
                                t <= n,
                                ri < refsv.len(),
                                r == refsv@[ri as int],
                                refsv@ == refs_of(g[j as int].1),
                                j < n,
                                n == self.objects@.len(),
                                g == self@.objects,
                                g.len() == self.objects@.len(),
                                            forall|jj: int|
                                    0 <= jj < self.objects@.len() ==> g[jj] == (
                                        self.objects@[jj].0,
                                        self.objects@[jj].1.ov(),
                                    ),
                                marked@.len() == n,
                                marked@[j as int],
                                forall|jj: int| 0 <= jj < n && g[jj].0 == root ==> marked@[jj],
                                forall|jj: int|
                                    0 <= jj < n && marked@[jj] ==> reachable(
                                        g,
                                        root,
                                        #[trigger] g[jj].0,
                                    ),
                                forall|jj: int| 0 <= jj < n && pass_start[jj] ==> marked@[jj],
                                pass_start.len() == n,
                                changed ==> count_true(marked@) > count_true(pass_start),
                                !changed ==> marked@ == pass_start,
                                !changed ==> (forall|jj: int, ri2: int, t2: int|
                                    0 <= jj < j && marked@[jj] && 0 <= ri2 < refs_of(
                                        g[jj].1,
                                    ).len() && 0 <= t2 < n && g[t2].0 == refs_of(g[jj].1)[ri2]
                                        ==> marked@[t2]),
                                !changed ==> (forall|ri2: int, t2: int|
                                    0 <= ri2 < ri && 0 <= t2 < n && g[t2].0 == refs_of(
                                        g[j as int].1,
                                    )[ri2] ==> marked@[t2]),
                                !changed ==> (forall|t2: int|
                                    0 <= t2 < t && g[t2].0 == r ==> marked@[t2]),
                                count_true(marked@) >= count_true(pass_start),
                            decreases n - t,
                        {
                            if self.objects[t].0 == r && !marked[t] {
                                proof {
                                    lemma_count_true_update(marked@, t as int);
                                    let n0 = choose|n0: nat| reaches(g, root, g[j as int].0, n0);
                                    assert(refs_of(g[j as int].1).contains(r)) by {
                                        assert(refs_of(g[j as int].1)[ri as int] == r);
                                    }
                                    assert(reaches(g, root, r, n0 + 1)) by {
                                        assert(reaches(g, root, g[j as int].0, n0));
                                    }
                                    assert(reachable(g, root, g[t as int].0));
                                }
                                marked[t] = true;
                                changed = true;
                            }
                            t += 1;
                        }
                        ri += 1;
                    }
                    proof {
                        if !changed {
                            assert forall|jj: int, ri2: int, t: int|
                                0 <= jj < j + 1 && marked@[jj] && 0 <= ri2 < refs_of(
                                g[jj].1,
                            ).len() && 0 <= t < n && g[t].0 == refs_of(g[jj].1)[ri2]
                                implies marked@[t] by {}
                        }
                    }
                } else {
                }
                j += 1;
            }
            if !changed {
                proof {
                    assert(marks_closed(g, marked@));
                }
                break ;
            }
            proof {
                lemma_count_true_le(marked@);
            }
        }
        proof {
            assert forall|j: int|
                0 <= j < n implies (marked@[j] <==> reachable(g, root, #[trigger] g[j].0)) by {
                if reachable(g, root, g[j].0) {
                    let n0 = choose|n0: nat| reaches(g, root, g[j].0, n0);
                    lemma_reachable_marked(g, root, marked@, g[j].0, n0);
                }
            }
        }
        let ghost keepp = |e: (ObjectId, ObjView)| reachable(g, root, e.0);
        let mut out: Vec<(ObjectId, Object)> = Vec::new();
        let mut i: usize = 0;
        proof {
            assert(g.take(0) =~= Seq::<(ObjectId, ObjView)>::empty());
            reveal(Seq::filter);
        }
        while i < n
            invariant
                i <= n,
                n == self.objects@.len(),
                g == self@.objects,
                g.len() == self.objects@.len(),
                forall|j: int|
                    0 <= j < self.objects@.len() ==> g[j] == (
                        self.objects@[j].0,
                        self.objects@[j].1.ov(),
                    ),
                marked@.len() == n,
                forall|j: int| 0 <= j < n ==> (marked@[j] <==> reachable(g, root, #[trigger] g[j].0)),
                keepp == (|e: (ObjectId, ObjView)| reachable(g, root, e.0)),
                view_graph(out@).len() == out@.len(),
                forall|j: int|
                    0 <= j < out@.len() ==> view_graph(out@)[j] == (out@[j].0, out@[j].1.ov()),
                view_graph(out@) == g.take(i as int).filter(keepp),
            decreases n - i,
        {
            proof {
                reveal(Seq::filter);
                assert(g.take(i + 1).drop_last() =~= g.take(i as int));
                assert(g.take(i + 1).last() == g[i as int]);
            }
            if marked[i] {
                let ghost prev = out@;
                let id = self.objects[i].0;
                let obj = self.objects[i].1.clone();
                out.push((id, obj));
                proof {
                    lemma_view_graph(out@);
                    lemma_view_graph(prev);
                    assert forall|j: int|
                        0 <= j < prev.len() implies view_graph(out@)[j] == view_graph(prev)[j] by {
                        assert(out@[j] == prev[j]);
                    }
                    assert(view_graph(out@)[prev.len() as int] == g[i as int]);
                    assert(keepp(g[i as int]));
                    assert(g.take(i + 1).filter(keepp) == g.take(i as int).filter(keepp).push(
                        g[i as int],
                    ));
                    assert(view_graph(out@) =~= g.take(i + 1).filter(keepp));
                }
            } else {
                proof {
                    assert(!keepp(g[i as int]));
                    assert(g.take(i + 1).filter(keepp) == g.take(i as int).filter(keepp));
                }
            }
            i += 1;
        }
        self.objects = out;
        proof {
            assert(g.take(g.len() as int) =~= g);
        }
    }
}

/// Reachability closure: compacting a graph whose references all
/// resolve leaves a graph whose references all resolve — every
/// reference in a surviving object leads to a surviving object.
pub proof fn lemma_reachability_closure(g: Seq<(ObjectId, ObjView)>, root: ObjectId)
    requires
        forall|j: int, ri: int|
            0 <= j < g.len() && 0 <= ri < refs_of(g[j].1).len() ==> assoc_has(
                g,
                #[trigger] refs_of(g[j].1)[ri],
            ),
    ensures
        forall|j: int, ri: int|
            0 <= j < spec_compact(g, root).len() && 0 <= ri < refs_of(
                spec_compact(g, root)[j].1,
            ).len() ==> assoc_has(
                spec_compact(g, root),
                #[trigger] refs_of(spec_compact(g, root)[j].1)[ri],
            ),
{
    let out = spec_compact(g, root);
    let pred = |e: (ObjectId, ObjView)| reachable(g, root, e.0);
    assert forall|j: int, ri: int|
        0 <= j < out.len() && 0 <= ri < refs_of(out[j].1).len() implies assoc_has(
        out,
        #[trigger] refs_of(out[j].1)[ri],
    ) by {
        g.lemma_filter_pred(pred, j);
        assert(reachable(g, root, out[j].0));
        crate::assoc::lemma_filter_elem_member(g, pred, j);
        let w = choose|w: int| 0 <= w < g.len() && g[w] == out[j];
        let r = refs_of(out[j].1)[ri];
        assert(refs_of(g[w].1)[ri] == r);
        assert(assoc_has(g, r));
        let tw = choose|tw: int| 0 <= tw < g.len() && g[tw].0 == r;
        assert(reachable(g, root, r)) by {
            let n0 = choose|n0: nat| reaches(g, root, out[j].0, n0);
            assert(g[w].0 == out[j].0);
            assert(refs_of(g[w].1).contains(r)) by {
                assert(refs_of(g[w].1)[ri] == r);
            }
            assert(reaches(g, root, r, n0 + 1)) by {
                assert(reaches(g, root, g[w].0, n0));
            }
        }
        g.lemma_filter_contains(pred, tw);
        assert(out.contains(g[tw]));
        let ow = choose|ow: int| 0 <= ow < out.len() && out[ow] == g[tw];
        assert(out[ow].0 == r);
    }
}


/// A reference stored in a reachable dictionary object reaches its
/// target: one more step from the entry holding the dictionary.
pub proof fn lemma_reach_through_dict(
    g: Seq<(ObjectId, ObjView)>,
    root: ObjectId,
    prev: ObjectId,
    key: Seq<char>,
    x: ObjectId,
)
    requires
        reachable(g, root, prev),
        assoc_lookup(g, prev) matches Some(pv) && (match pv {
            ObjView::Dictionary(es) => refs_of_entries(es).contains(x),
            ObjView::Stream(es, _) => refs_of_entries(es).contains(x),
            _ => false,
        }),
    ensures
        reachable(g, root, x),
{
    let n0 = choose|n0: nat| reaches(g, root, prev, n0);
    crate::assoc::lemma_assoc_characterization(g, prev);
    if !assoc_has(g, prev) {
        assert(assoc_lookup(g, prev) is None);
    }
    let j = crate::assoc::assoc_first_index(g, prev);
    assert(g[j].0 == prev);
    assert(g[j].1 == assoc_lookup(g, prev)->Some_0);
    assert(refs_of(g[j].1).contains(x));
    assert(reaches(g, root, x, n0 + 1)) by {
        assert(reaches(g, root, g[j].0, n0));
    }
}

/// Compaction preserves the binding of every reachable identity.
pub proof fn lemma_compact_preserves_lookup(
    g: Seq<(ObjectId, ObjView)>,
    root: ObjectId,
    id: ObjectId,
)
    requires
        assoc_unique(g),
        reachable(g, root, id),
    ensures
        assoc_lookup(spec_compact(g, root), id) == assoc_lookup(g, id),
{
    let pred = |e: (ObjectId, ObjView)| reachable(g, root, e.0);
    let out = spec_compact(g, root);
    crate::assoc::lemma_assoc_characterization(g, id);
    crate::assoc::lemma_assoc_characterization(out, id);
    if assoc_has(g, id) {
        let w = crate::assoc::assoc_first_index(g, id);
        assert(g[w].0 == id);
        assert(pred(g[w]));
        g.lemma_filter_contains(pred, w);
        assert(out.contains(g[w]));
        let ow = choose|ow: int| 0 <= ow < out.len() && out[ow] == g[w];
        crate::assoc::lemma_filter_preserves_unique(g, pred);
        crate::assoc::lemma_assoc_unique_lookup(out, ow);
        crate::assoc::lemma_assoc_unique_lookup(g, w);
    } else {
        if assoc_has(out, id) {
            let ow = choose|ow: int| 0 <= ow < out.len() && out[ow].0 == id;
            crate::assoc::lemma_filter_elem_member(g, pred, ow);
            let w = choose|w: int| 0 <= w < g.len() && g[w] == out[ow];
        }
        assert(!assoc_has(out, id));
    }
}

} // verus!
