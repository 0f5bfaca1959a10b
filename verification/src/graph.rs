//! A document as an addressable object graph: an ordered list of
//! (identity, object) entries, a trailer dictionary and a version tag.

use vstd::prelude::*;

use crate::assoc::{assoc_first_index, assoc_has, assoc_lookup, assoc_set, assoc_unique,
    lemma_assoc_characterization};
use crate::objects::{Dict, NodeKind, Object, ObjectId, ObjView, spec_kind, view_entries};

verus! {

/// One document's object graph, with its trailer record and version tag.
pub struct PdfDocument {
    pub objects: Vec<(ObjectId, Object)>,
    pub trailer: Dict,
    pub version: String,
}

/// The mathematical value of a document.
#[verifier::ext_equal]
pub struct DocView {
    pub objects: Seq<(ObjectId, ObjView)>,
    pub trailer: Seq<(Seq<char>, ObjView)>,
    pub version: Seq<char>,
}

/// The views of a sequence of graph entries, in order.
pub open spec fn view_graph(s: Seq<(ObjectId, Object)>) -> Seq<(ObjectId, ObjView)>
    decreases s,
{
    if s.len() == 0 {
        Seq::empty()
    } else {
        view_graph(s.drop_last()).push((s.last().0, s.last().1.ov()))
    }
}

/// `view_graph` maps the sequence pointwise.
pub proof fn lemma_view_graph(s: Seq<(ObjectId, Object)>)
    ensures
        view_graph(s).len() == s.len(),
        forall|j: int| 0 <= j < s.len() ==> view_graph(s)[j] == (s[j].0, s[j].1.ov()),
    decreases s.len(),
{
    if s.len() > 0 {
        lemma_view_graph(s.drop_last());
    }
}

impl View for PdfDocument {
    type V = DocView;

    open spec fn view(&self) -> DocView {
        DocView {
            objects: view_graph(self.objects@),
            trailer: view_entries(self.trailer.entries@),
            version: self.version@,
        }
    }
}

impl DocView {
    /// A graph is well formed when no identity addresses two objects.
    pub open spec fn wf(self) -> bool {
        assoc_unique(self.objects)
    }

    /// The object addressed by `id`, if any.
    pub open spec fn lookup(self, id: ObjectId) -> Option<ObjView> {
        assoc_lookup(self.objects, id)
    }

    /// Whether `id` addresses an object.
    pub open spec fn has(self, id: ObjectId) -> bool {
        assoc_has(self.objects, id)
    }

    /// The identities of the page leaves, in storage order: the
    /// document's page order.
    pub open spec fn page_ids(self) -> Seq<ObjectId> {
        page_ids_of(self.objects)
    }
}

/// The identities of page-classified entries, in order.
pub open spec fn page_ids_of(s: Seq<(ObjectId, ObjView)>) -> Seq<ObjectId> {
    s.filter(|e: (ObjectId, ObjView)| spec_kind(e.1) == NodeKind::Page).map_values(
        |e: (ObjectId, ObjView)| e.0,
    )
}

impl PdfDocument {
    /// An empty document with the given version tag.
    pub fn with_version(version: &str) -> (r: PdfDocument)
        ensures
            r@.objects =~= Seq::<(ObjectId, ObjView)>::empty(),
            r@.trailer =~= Seq::<(Seq<char>, ObjView)>::empty(),
            r@.version == version@,
    {
        PdfDocument { objects: Vec::new(), trailer: Dict::empty(), version: version.to_owned() }
    }

    /// A reference to the object addressed by `id`, if any: the first
    /// matching entry wins.
    pub fn get_object(&self, id: ObjectId) -> (r: Option<&Object>)
        ensures
            match r {
                Some(v) => self@.lookup(id) == Some(v@) && self@.has(id),
                None => self@.lookup(id) is None && !self@.has(id),
            },
    {
        proof {
            lemma_view_graph(self.objects@);
        }
        let mut i: usize = 0;
        while i < self.objects.len()
            invariant
                i <= self.objects.len(),
                forall|j: int| 0 <= j < i ==> self@.objects[j].0 != id,
                self@.objects == view_graph(self.objects@),
                view_graph(self.objects@).len() == self.objects@.len(),
                forall|j: int|
                    0 <= j < self.objects@.len() ==> view_graph(self.objects@)[j] == (
                        self.objects@[j].0,
                        self.objects@[j].1.ov(),
                    ),
            decreases self.objects.len() - i,
        {
            if self.objects[i].0 == id {
                proof {
                    lemma_assoc_characterization(self@.objects, id);
                    assert(self@.objects[i as int].0 == id);
                    assert(assoc_has(self@.objects, id));
                    assert(assoc_first_index(self@.objects, id) == i);
                }
                return Some(&self.objects[i].1);
            }
            i += 1;
        }
        proof {
            if assoc_has(self@.objects, id) {
                let w = choose|w: int|
                    0 <= w < self@.objects.len() && self@.objects[w].0 == id;
            }
            lemma_assoc_characterization(self@.objects, id);
        }
        None
    }

    /// Binds `id` to `obj`: the first entry for `id` is replaced, or,
    /// with no such entry, a new entry is appended.
    pub fn insert_object(&mut self, id: ObjectId, obj: Object)
        ensures
            final(self)@.objects == assoc_set(old(self)@.objects, id, obj@),
            final(self)@.trailer == old(self)@.trailer,
            final(self)@.version == old(self)@.version,
    {
        proof {
            lemma_view_graph(self.objects@);
        }
        let ghost old_view = view_graph(self.objects@);
        let mut i: usize = 0;
        while i < self.objects.len()
            invariant
                i <= self.objects.len(),
                self.objects@ == old(self).objects@,
                self.trailer == old(self).trailer,
                self.version == old(self).version,
                view_graph(self.objects@) == old_view,
                forall|j: int| 0 <= j < i ==> old_view[j].0 != id,
                old_view.len() == self.objects@.len(),
                forall|j: int|
                    0 <= j < self.objects@.len() ==> old_view[j] == (
                        self.objects@[j].0,
                        self.objects@[j].1.ov(),
                    ),
            decreases self.objects.len() - i,
        {
            if self.objects[i].0 == id {
                proof {
                    assert(old_view[i as int].0 == id);
                    assert(assoc_has(old_view, id));
                    lemma_assoc_characterization(old_view, id);
                    assert(assoc_first_index(old_view, id) == i);
                }
                let ghost pre = self.objects@;
                self.objects[i] = (id, obj);
                proof {
                    lemma_view_graph(self.objects@);
                    assert(self.objects@ == pre.update(i as int, (id, obj)));
                    assert(assoc_set(old_view, id, obj@) == old_view.update(
                        i as int,
                        (id, obj@),
                    ));
                    assert forall|j: int|
                        0 <= j < old_view.len() implies view_graph(self.objects@)[j] == assoc_set(
                        old_view,
                        id,
                        obj@,
                    )[j] by {
                        if j != i {
                            assert(self.objects@[j] == pre[j]);
                        }
                    }
                    assert(view_graph(self.objects@) =~= assoc_set(old_view, id, obj@));
                }
                return ;
            }
            i += 1;
        }
        proof {
            if assoc_has(old_view, id) {
                let w = choose|w: int| 0 <= w < old_view.len() && old_view[w].0 == id;
            }
            assert(!assoc_has(old_view, id));
        }
        self.objects.push((id, obj));
        proof {
            lemma_view_graph(self.objects@);
            assert(view_graph(self.objects@) =~= assoc_set(old_view, id, obj@));
        }
    }

    /// The largest identity number in the graph, or zero for an empty
    /// graph.
    pub fn max_num(&self) -> (r: u32)
        ensures
            forall|j: int| 0 <= j < self@.objects.len() ==> self@.objects[j].0.num <= r,
            r != 0 ==> exists|j: int|
                0 <= j < self@.objects.len() && self@.objects[j].0.num == r,
    {
        proof {
            lemma_view_graph(self.objects@);
        }
        let mut r: u32 = 0;
        let mut i: usize = 0;
        while i < self.objects.len()
            invariant
                i <= self.objects.len(),
                self@.objects.len() == self.objects@.len(),
                forall|j: int|
                    0 <= j < self.objects@.len() ==> self@.objects[j] == (
                        self.objects@[j].0,
                        self.objects@[j].1.ov(),
                    ),
                forall|j: int| 0 <= j < i ==> self@.objects[j].0.num <= r,
                r != 0 ==> exists|j: int|
                    0 <= j < i && self@.objects[j].0.num == r,
            decreases self.objects.len() - i,
        {
            if self.objects[i].0.num > r {
                r = self.objects[i].0.num;
                proof {
                    assert(self@.objects[i as int].0.num == r);
                    assert(exists|j: int| 0 <= j < i + 1 && self@.objects[j].0.num == r);
                }
            } else {
                proof {
                    if r != 0 {
                        let w = choose|j: int| 0 <= j < i && self@.objects[j].0.num == r;
                        assert(exists|j: int| 0 <= j < i + 1 && self@.objects[j].0.num == r);
                    }
                }
            }
            i += 1;
        }
        r
    }

    /// The identities of the page leaves, in the document's page
    /// order.
    pub fn page_list(&self) -> (r: Vec<ObjectId>)
        ensures
            r@ == self@.page_ids(),
    {
        proof {
            lemma_view_graph(self.objects@);
        }
        let ghost gv = self@.objects;
        let ghost pred = |e: (ObjectId, ObjView)| spec_kind(e.1) == NodeKind::Page;
        let mut r: Vec<ObjectId> = Vec::new();
        let mut i: usize = 0;
        while i < self.objects.len()
            invariant
                i <= self.objects.len(),
                gv == self@.objects,
                gv.len() == self.objects@.len(),
                forall|j: int|
                    0 <= j < self.objects@.len() ==> gv[j] == (
                        self.objects@[j].0,
                        self.objects@[j].1.ov(),
                    ),
                pred == (|e: (ObjectId, ObjView)| spec_kind(e.1) == NodeKind::Page),
                r@ == gv.subrange(0, i as int).filter(pred).map_values(
                    |e: (ObjectId, ObjView)| e.0,
                ),
            decreases self.objects.len() - i,
        {
            proof {
                reveal(Seq::filter);
                assert(gv.subrange(0, i + 1).drop_last() =~= gv.subrange(0, i as int));
                assert(gv.subrange(0, i + 1).last() == gv[i as int]);
            }
            let k = self.objects[i].1.kind();
            if matches!(k, NodeKind::Page) {
                r.push(self.objects[i].0);
                proof {
                    let pre = gv.subrange(0, i as int).filter(pred);
                    assert(gv.subrange(0, i + 1).filter(pred) == pre.push(gv[i as int]));
                    assert(r@ =~= pre.push(gv[i as int]).map_values(
                        |e: (ObjectId, ObjView)| e.0,
                    ));
                }
            } else {
                proof {
                    assert(gv.subrange(0, i + 1).filter(pred) == gv.subrange(0, i as int).filter(
                        pred,
                    ));
                }
            }
            i += 1;
        }
        proof {
            assert(gv.subrange(0, gv.len() as int) =~= gv);
        }
        r
    }
}

} // verus!
