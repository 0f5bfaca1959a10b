//! Identity management: gap-free renumbering within one document, and
//! reconciliation of several documents into one collision-free
//! identity space.

use vstd::prelude::*;

use crate::graph::{DocView, PdfDocument, lemma_view_graph, view_graph};
use crate::objects::{Object, ObjectId, ObjView};
use crate::remap::{remap_dict, remap_object, remap_view, remap_view_entries};

verus! {

/// The identity at position `j` of a gap-free numbering: number
/// `j + 1`, generation zero.
pub open spec fn compact_id(j: int) -> ObjectId {
    ObjectId { num: (j + 1) as u32, gen: 0 }
}

/// A document is identity-compact when the entry at each position
/// carries the corresponding gap-free identity.
pub open spec fn doc_compact(d: DocView) -> bool {
    forall|j: int| 0 <= j < d.objects.len() ==> d.objects[j].0 == compact_id(j)
}

/// The table renumbering a graph's identities gap-free, in storage
/// order.
pub open spec fn renumber_table(s: Seq<(ObjectId, ObjView)>) -> Seq<(ObjectId, ObjectId)> {
    Seq::new(s.len(), |j: int| (s[j].0, compact_id(j)))
}

/// The graph renumbered gap-free: entry `j` gets identity `j + 1` and
/// its references are rewritten through the renumbering table.
pub open spec fn spec_renumber(s: Seq<(ObjectId, ObjView)>) -> Seq<(ObjectId, ObjView)> {
    Seq::new(s.len(), |j: int| (compact_id(j), remap_view(renumber_table(s), s[j].1)))
}

/// An identity moved up by `off`.
pub open spec fn shift_id(id: ObjectId, off: u32) -> ObjectId {
    ObjectId { num: (id.num + off) as u32, gen: id.gen }
}

/// The table moving every identity of a graph up by `off`.
pub open spec fn shift_table(s: Seq<(ObjectId, ObjView)>, off: u32) -> Seq<(ObjectId, ObjectId)> {
    Seq::new(s.len(), |j: int| (s[j].0, shift_id(s[j].0, off)))
}

/// The graph with every identity moved up by `off` and every
/// reference rewritten accordingly.
pub open spec fn spec_shift(s: Seq<(ObjectId, ObjView)>, off: u32) -> Seq<(ObjectId, ObjView)> {
    Seq::new(s.len(), |j: int| (shift_id(s[j].0, off), remap_view(shift_table(s, off), s[j].1)))
}

/// Replaces every entry's identity with the one at its position in
/// `new_ids` and rewrites all references, in the graph and in the
/// trailer, through `table`.
fn apply_id_assignment(doc: &mut PdfDocument, table: &Vec<(ObjectId, ObjectId)>, new_ids: &Vec<
    ObjectId,
>)
    requires
        new_ids@.len() == old(doc)@.objects.len(),
    ensures
        final(doc)@.objects.len() == old(doc)@.objects.len(),
        forall|j: int|
            0 <= j < old(doc)@.objects.len() ==> final(doc)@.objects[j] == (
                new_ids@[j],
                remap_view(table@, old(doc)@.objects[j].1),
            ),
        final(doc)@.trailer == remap_view_entries(table@, old(doc)@.trailer),
        final(doc)@.version == old(doc)@.version,
{
    proof {
        lemma_view_graph(doc.objects@);
    }
    let ghost gv = old(doc)@.objects;
    let mut out: Vec<(ObjectId, Object)> = Vec::new();
    let mut i: usize = 0;
    while i < doc.objects.len()
        invariant
            i <= doc.objects.len(),
            doc.objects@ == old(doc).objects@,
            doc.trailer == old(doc).trailer,
            doc.version == old(doc).version,
            gv == doc@.objects,
            gv.len() == doc.objects@.len(),
            new_ids@.len() == gv.len(),
            forall|j: int|
                0 <= j < doc.objects@.len() ==> gv[j] == (
                    doc.objects@[j].0,
                    doc.objects@[j].1.ov(),
                ),
            view_graph(out@).len() == out@.len(),
            out@.len() == i,
            forall|j: int|
                0 <= j < out@.len() ==> view_graph(out@)[j] == (out@[j].0, out@[j].1.ov()),
            forall|j: int|
                0 <= j < i ==> view_graph(out@)[j] == (
                    new_ids@[j],
                    remap_view(table@, gv[j].1),
                ),
        decreases doc.objects.len() - i,
    {
        let ghost prev = out@;
        let new_obj = remap_object(table, &doc.objects[i].1);
        out.push((new_ids[i], new_obj));
        proof {
            lemma_view_graph(out@);
            lemma_view_graph(prev);
            assert forall|j: int|
                0 <= j < prev.len() implies view_graph(out@)[j] == view_graph(prev)[j] by {
                assert(out@[j] == prev[j]);
            }
            assert(view_graph(out@)[prev.len() as int] == (
                new_ids@[i as int],
                remap_view(table@, gv[i as int].1),
            ));
            assert forall|j: int|
                0 <= j < i + 1 implies view_graph(out@)[j] == (
                new_ids@[j],
                remap_view(table@, gv[j].1),
            ) by {
                if j < prev.len() {
                    assert(view_graph(out@)[j] == view_graph(prev)[j]);
                }
            }
        }
        i += 1;
    }
    let new_trailer = remap_dict(table, &doc.trailer);
    doc.objects = out;
    doc.trailer = new_trailer;
}

impl PdfDocument {
    /// Renumbers the graph gap-free: the entry at each position gets
    /// the corresponding compact identity, and every reference, in
    /// the graph and in the trailer, is rewritten along.
    pub fn renumber_objects(&mut self)
        requires
            old(self)@.objects.len() < u32::MAX,
        ensures
            final(self)@.objects == spec_renumber(old(self)@.objects),
            final(self)@.trailer == remap_view_entries(
                renumber_table(old(self)@.objects),
                old(self)@.trailer,
            ),
            final(self)@.version == old(self)@.version,
            doc_compact(final(self)@),
            final(self)@.wf(),
    {
        proof {
            lemma_view_graph(self.objects@);
        }
        let ghost gv = self@.objects;
        let mut table: Vec<(ObjectId, ObjectId)> = Vec::new();
        let mut new_ids: Vec<ObjectId> = Vec::new();
        let mut i: usize = 0;
        while i < self.objects.len()
            invariant
                i <= self.objects.len(),
                self.objects@ == old(self).objects@,
                self.trailer == old(self).trailer,
                self.version == old(self).version,
                gv == self@.objects,
                gv.len() == self.objects@.len(),
                gv.len() < u32::MAX,
                forall|j: int|
                    0 <= j < self.objects@.len() ==> gv[j] == (
                        self.objects@[j].0,
                        self.objects@[j].1.ov(),
                    ),
                table@.len() == i,
                new_ids@.len() == i,
                forall|j: int| 0 <= j < i ==> table@[j] == (gv[j].0, compact_id(j)),
                forall|j: int| 0 <= j < i ==> new_ids@[j] == compact_id(j),
            decreases self.objects.len() - i,
        {
            let nid = ObjectId { num: (i as u32) + 1, gen: 0 };
            table.push((self.objects[i].0, nid));
            new_ids.push(nid);
            i += 1;
        }
        proof {
            assert(table@ =~= renumber_table(gv));
        }
        apply_id_assignment(self, &table, &new_ids);
        proof {
            assert(final(self)@.objects =~= spec_renumber(gv));
            assert forall|j: int|
                0 <= j < final(self)@.objects.len() implies final(self)@.objects[j].0
                == compact_id(j) by {}
            assert forall|j1: int, j2: int|
                0 <= j1 < j2 < final(self)@.objects.len() implies final(self)@.objects[j1].0
                != final(self)@.objects[j2].0 by {
                assert(final(self)@.objects[j1].0.num == j1 + 1);
                assert(final(self)@.objects[j2].0.num == j2 + 1);
            }
        }
    }

    /// Moves every identity in the graph up by `off`, rewriting all
    /// references along.
    pub fn shift_identities(&mut self, off: u32)
        requires
            forall|j: int|
                0 <= j < old(self)@.objects.len() ==> old(self)@.objects[j].0.num + off
                    <= u32::MAX,
        ensures
            final(self)@.objects == spec_shift(old(self)@.objects, off),
            final(self)@.trailer == remap_view_entries(
                shift_table(old(self)@.objects, off),
                old(self)@.trailer,
            ),
            final(self)@.version == old(self)@.version,
    {
        proof {
            lemma_view_graph(self.objects@);
        }
        let ghost gv = self@.objects;
        let mut table: Vec<(ObjectId, ObjectId)> = Vec::new();
        let mut new_ids: Vec<ObjectId> = Vec::new();
        let mut i: usize = 0;
        while i < self.objects.len()
            invariant
                i <= self.objects.len(),
                self.objects@ == old(self).objects@,
                self.trailer == old(self).trailer,
                self.version == old(self).version,
                gv == self@.objects,
                gv.len() == self.objects@.len(),
                forall|j: int| 0 <= j < gv.len() ==> gv[j].0.num + off <= u32::MAX,
                forall|j: int|
                    0 <= j < self.objects@.len() ==> gv[j] == (
                        self.objects@[j].0,
                        self.objects@[j].1.ov(),
                    ),
                table@.len() == i,
                new_ids@.len() == i,
                forall|j: int| 0 <= j < i ==> table@[j] == (gv[j].0, shift_id(gv[j].0, off)),
                forall|j: int| 0 <= j < i ==> new_ids@[j] == shift_id(gv[j].0, off),
            decreases self.objects.len() - i,
        {
            let id = self.objects[i].0;
            proof {
                assert(gv[i as int].0 == id);
                assert(id.num + off <= u32::MAX);
            }
            let nid = ObjectId { num: id.num + off, gen: id.gen };
            table.push((id, nid));
            new_ids.push(nid);
            i += 1;
        }
        proof {
            assert(table@ =~= shift_table(gv, off));
        }
        apply_id_assignment(self, &table, &new_ids);
        proof {
            assert(final(self)@.objects =~= spec_shift(gv, off));
        }
    }
}

/// The running next-free-identity counter when document `k` is about
/// to be reconciled: seeded at one, and advanced past each earlier
/// document's highest assigned identity.
pub open spec fn base_counter(lens: Seq<int>, k: int) -> int
    decreases k,
{
    if k <= 0 {
        1
    } else {
        base_counter(lens, k - 1) + lens[k - 1] + 1
    }
}

/// The counter never moves backwards over documents.
pub proof fn lemma_base_counter_monotone(lens: Seq<int>, k1: int, k2: int)
    requires
        0 <= k1 <= k2 <= lens.len(),
        forall|k: int| 0 <= k < lens.len() ==> lens[k] >= 0,
    ensures
        base_counter(lens, k1) <= base_counter(lens, k2),
    decreases k2 - k1,
{
    if k1 < k2 {
        lemma_base_counter_monotone(lens, k1, k2 - 1);
        assert(lens[k2 - 1] >= 0);
    }
}

/// The lengths of the documents' graphs.
pub open spec fn doc_lens(docs: Seq<DocView>) -> Seq<int> {
    Seq::new(docs.len(), |k: int| docs[k].objects.len() as int)
}

/// The views of a list of documents, in order.
pub open spec fn views_of(ds: Seq<PdfDocument>) -> Seq<DocView> {
    Seq::new(ds.len(), |k: int| ds[k]@)
}

/// Reconciles identity-compact documents into one identity space:
/// document `k` is shifted by the running counter, which starts at
/// one and advances to one past each document's highest assigned
/// identity; the next free identity is returned.
pub fn reconcile_documents(docs: &mut Vec<PdfDocument>) -> (next: u32)
    requires
        forall|k: int| 0 <= k < old(docs)@.len() ==> doc_compact(old(docs)@[k]@),
        base_counter(doc_lens(views_of(old(docs)@)), old(docs)@.len() as int) <= u32::MAX,
    ensures
        final(docs)@.len() == old(docs)@.len(),
        ({
            let lens = doc_lens(views_of(old(docs)@));
            &&& next == base_counter(lens, old(docs)@.len() as int)
            &&& forall|k: int|
                0 <= k < old(docs)@.len() ==> final(docs)@[k]@.objects == spec_shift(
                    old(docs)@[k]@.objects,
                    base_counter(lens, k) as u32,
                )
            &&& forall|k: int|
                0 <= k < old(docs)@.len() ==> final(docs)@[k]@.version == old(docs)@[k]@.version
            &&& forall|k: int, j: int|
                0 <= k < old(docs)@.len() && 0 <= j < final(docs)@[k]@.objects.len()
                    ==> final(docs)@[k]@.objects[j].0 == (ObjectId {
                    num: (base_counter(lens, k) + j + 1) as u32,
                    gen: 0,
                })
        }),
{
    let ghost odocs = views_of(old(docs)@);
    let ghost lens = doc_lens(odocs);
    proof {
        assert(odocs.len() == docs@.len());
        assert forall|k: int| 0 <= k < odocs.len() implies lens[k] >= 0 by {}
        lemma_base_counter_monotone(lens, 0, odocs.len() as int);
    }
    let mut counter: u32 = 1;
    let mut k: usize = 0;
    while k < docs.len()
        invariant
            k <= docs.len(),
            docs@.len() == odocs.len(),
            odocs == views_of(old(docs)@),
            lens == doc_lens(odocs),
            forall|k2: int| 0 <= k2 < odocs.len() ==> odocs[k2] == old(docs)@[k2]@,
            forall|k2: int| 0 <= k2 < odocs.len() ==> doc_compact(odocs[k2]),
            forall|k2: int| 0 <= k2 < odocs.len() ==> lens[k2] == odocs[k2].objects.len(),
            base_counter(lens, odocs.len() as int) <= u32::MAX,
            counter == base_counter(lens, k as int),
            forall|k2: int| k <= k2 < odocs.len() ==> docs@[k2]@ == odocs[k2],
            forall|k2: int|
                0 <= k2 < k ==> docs@[k2]@.objects == spec_shift(
                    odocs[k2].objects,
                    base_counter(lens, k2) as u32,
                ),
            forall|k2: int| 0 <= k2 < k ==> docs@[k2]@.version == odocs[k2].version,
        decreases docs.len() - k,
    {
        let ghost pre = docs@;
        let n: usize = docs[k].objects.len();
        proof {
            lemma_view_graph(docs@[k as int].objects@);
            assert(docs@[k as int]@ == odocs[k as int]);
            assert(lens[k as int] == n);
            lemma_base_counter_monotone(lens, k as int + 1, odocs.len() as int);
            assert(base_counter(lens, k as int + 1) == counter + n + 1);
            assert forall|j: int|
                0 <= j < docs@[k as int]@.objects.len() implies docs@[k as int]@.objects[j].0.num
                + counter <= u32::MAX by {
                assert(docs@[k as int]@.objects[j].0 == compact_id(j));
            }
        }
        proof {
            lemma_base_counter_monotone(lens, 0, k as int);
        }
        let doc_ref = &mut docs[k];
        doc_ref.shift_identities(counter);
        proof {
            assert(docs@ =~= pre.update(k as int, docs@[k as int]));
            assert forall|k2: int|
                k + 1 <= k2 < odocs.len() implies docs@[k2]@ == odocs[k2] by {
                assert(docs@[k2] == pre[k2]);
            }
            assert(docs@[k as int]@.objects == spec_shift(odocs[k as int].objects, counter));
            assert(docs@[k as int]@.version == odocs[k as int].version);
        }
        counter = counter + (n as u32) + 1;
        k += 1;
    }
    proof {
        assert forall|k2: int| 0 <= k2 < odocs.len() implies docs@[k2]@.version
            == old(docs)@[k2]@.version by {
            assert(docs@[k2]@.version == odocs[k2].version);
            assert(odocs[k2] == old(docs)@[k2]@);
        }
        assert forall|k2: int, j: int|
            0 <= k2 < odocs.len() && 0 <= j < docs@[k2]@.objects.len() implies docs@[k2]@.objects[j].0
            == (ObjectId { num: (base_counter(lens, k2) + j + 1) as u32, gen: 0 }) by {
            assert(docs@[k2]@.objects == spec_shift(odocs[k2].objects, base_counter(lens, k2) as u32));
            assert(odocs[k2].objects[j].0 == compact_id(j));
            lemma_base_counter_monotone(lens, k2, odocs.len() as int);
            lemma_base_counter_monotone(lens, 0, k2);
            assert(base_counter(lens, k2 + 1) == base_counter(lens, k2) + lens[k2] + 1);
            lemma_base_counter_monotone(lens, k2 + 1, odocs.len() as int);
        }
    }
    counter
}

/// Identity uniqueness: after reconciliation no two objects, from the
/// same document or from different ones, share an identity, because
/// document `k` occupies exactly the numbers between its base counter
/// and the next document's.
pub proof fn lemma_identity_uniqueness(docs: Seq<DocView>, lens: Seq<int>)
    requires
        lens.len() == docs.len(),
        forall|k: int| 0 <= k < docs.len() ==> lens[k] == docs[k].objects.len(),
        forall|k: int, j: int|
            0 <= k < docs.len() && 0 <= j < docs[k].objects.len() ==> docs[k].objects[j].0.num
                as int == base_counter(lens, k) + j + 1,
    ensures
        forall|k1: int, j1: int, k2: int, j2: int|
            0 <= k1 < docs.len() && 0 <= j1 < docs[k1].objects.len() && 0 <= k2 < docs.len() && 0
                <= j2 < docs[k2].objects.len() && (k1 != k2 || j1 != j2)
                ==> docs[k1].objects[j1].0 != docs[k2].objects[j2].0,
{
    assert forall|k: int| 0 <= k < docs.len() implies lens[k] >= 0 by {}
    assert forall|k1: int, j1: int, k2: int, j2: int|
        0 <= k1 < docs.len() && 0 <= j1 < docs[k1].objects.len() && 0 <= k2 < docs.len() && 0 <= j2
        < docs[k2].objects.len() && (k1 != k2 || j1 != j2) implies docs[k1].objects[j1].0
        != docs[k2].objects[j2].0 by {
        if k1 == k2 {
            assert(docs[k1].objects[j1].0.num != docs[k2].objects[j2].0.num);
        } else if k1 < k2 {
            lemma_base_counter_monotone(lens, k1 + 1, k2);
            assert(docs[k1].objects[j1].0.num as int <= base_counter(lens, k1) + lens[k1]);
            assert(base_counter(lens, k1 + 1) == base_counter(lens, k1) + lens[k1] + 1);
            assert(docs[k2].objects[j2].0.num as int >= base_counter(lens, k2) + 1);
        } else {
            lemma_base_counter_monotone(lens, k2 + 1, k1);
            assert(docs[k2].objects[j2].0.num as int <= base_counter(lens, k2) + lens[k2]);
            assert(base_counter(lens, k2 + 1) == base_counter(lens, k2) + lens[k2] + 1);
            assert(docs[k1].objects[j1].0.num as int >= base_counter(lens, k1) + 1);
        }
    }
}

} // verus!
