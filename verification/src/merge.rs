//! The tree merger: combines reconciled documents into one catalog,
//! one pages root holding every surviving page in input order, and a
//! synthesized navigation outline with one entry per contributing
//! document.

use vstd::prelude::*;

use crate::assoc::{assoc_has, assoc_lookup, assoc_remove, assoc_set, assoc_unique,
    lemma_assoc_set, lemma_filter_elem_member};
use crate::errors::MergeError;
use crate::graph::{DocView, PdfDocument, lemma_view_graph, page_ids_of, view_graph};
use crate::objects::{Dict, NodeKind, Object, ObjectId, ObjView, lemma_view_entries, spec_kind};
use crate::reconcile::views_of;

verus! {

/// The graphs of all documents, in input order, as one entry list.
pub open spec fn concat_objects(ds: Seq<DocView>) -> Seq<(ObjectId, ObjView)>
    decreases ds.len(),
{
    if ds.len() == 0 {
        Seq::empty()
    } else {
        concat_objects(ds.drop_last()) + ds.last().objects
    }
}

/// Every document's page identities, in per-document page order and
/// overall input order.
pub open spec fn all_pages(ds: Seq<DocView>) -> Seq<ObjectId>
    decreases ds.len(),
{
    if ds.len() == 0 {
        Seq::empty()
    } else {
        all_pages(ds.drop_last()) + ds.last().page_ids()
    }
}

/// The views of a list of names, in order.
pub open spec fn name_views(ns: Seq<String>) -> Seq<Seq<char>> {
    Seq::new(ns.len(), |k: int| ns[k]@)
}

/// One navigation entry per document that contributes at least one
/// page: its name, and its first surviving page, in input order.
pub open spec fn spec_bookmarks(ds: Seq<DocView>, ns: Seq<Seq<char>>) -> Seq<
    (Seq<char>, ObjectId),
>
    decreases ds.len(),
{
    if ds.len() == 0 || ns.len() != ds.len() {
        Seq::empty()
    } else if ds.last().page_ids().len() > 0 {
        spec_bookmarks(ds.drop_last(), ns.drop_last()).push(
            (ns.last(), ds.last().page_ids()[0]),
        )
    } else {
        spec_bookmarks(ds.drop_last(), ns.drop_last())
    }
}

/// Whether an entry is a dictionary object of the given structural
/// role.
pub open spec fn is_dict_of_kind(v: ObjView, k: NodeKind) -> bool {
    v matches ObjView::Dictionary(es) && spec_kind(v) == k
}

/// The position of the first dictionary of the given role, if any.
pub open spec fn first_kind_index(s: Seq<(ObjectId, ObjView)>, k: NodeKind) -> int
    decreases s.len(),
{
    if s.len() == 0 {
        0
    } else if is_dict_of_kind(s[0].1, k) {
        0
    } else {
        1 + first_kind_index(s.skip(1), k)
    }
}

/// Whether some entry is a dictionary of the given role.
pub open spec fn has_kind(s: Seq<(ObjectId, ObjView)>, k: NodeKind) -> bool {
    exists|j: int| 0 <= j < s.len() && is_dict_of_kind(s[j].1, k)
}


/// When some entry has the role, the first-index scan stops at one
/// that has it.
pub proof fn lemma_first_kind_found(s: Seq<(ObjectId, ObjView)>, k: NodeKind)
    requires
        has_kind(s, k),
    ensures
        0 <= first_kind_index(s, k) < s.len(),
        is_dict_of_kind(s[first_kind_index(s, k)].1, k),
    decreases s.len(),
{
    if s.len() > 0 {
        if is_dict_of_kind(s[0].1, k) {
        } else {
            assert(forall|l: int| 0 <= l < s.skip(1).len() ==> s.skip(1)[l] == s[l + 1]);
            let w = choose|w: int| 0 <= w < s.len() && is_dict_of_kind(s[w].1, k);
            assert(is_dict_of_kind(s.skip(1)[w - 1].1, k));
            assert(has_kind(s.skip(1), k));
            lemma_first_kind_found(s.skip(1), k);
        }
    }
}

/// Entries of `later` folded into `base`, later keys overriding on
/// collision.
pub open spec fn dict_extend(
    base: Seq<(Seq<char>, ObjView)>,
    later: Seq<(Seq<char>, ObjView)>,
) -> Seq<(Seq<char>, ObjView)>
    decreases later.len(),
{
    if later.len() == 0 {
        base
    } else {
        dict_extend(assoc_set(base, later[0].0, later[0].1), later.skip(1))
    }
}

/// All dictionaries of role `k` in the entry list folded into `acc`,
/// in order, later documents' attributes overriding on key collision.
pub open spec fn fold_kind_from(
    s: Seq<(ObjectId, ObjView)>,
    k: NodeKind,
    acc: Seq<(Seq<char>, ObjView)>,
) -> Seq<(Seq<char>, ObjView)>
    decreases s.len(),
{
    if s.len() == 0 {
        acc
    } else {
        match s[0].1 {
            ObjView::Dictionary(es) => if spec_kind(s[0].1) == k {
                fold_kind_from(s.skip(1), k, dict_extend(acc, es))
            } else {
                fold_kind_from(s.skip(1), k, acc)
            },
            _ => fold_kind_from(s.skip(1), k, acc),
        }
    }
}

/// An object with its parent back-reference set to `pid`; only
/// dictionaries and streams carry one.
pub open spec fn set_parent_view(v: ObjView, pid: ObjectId) -> ObjView {
    match v {
        ObjView::Dictionary(es) => ObjView::Dictionary(
            assoc_set(es, "Parent"@, ObjView::Reference(pid)),
        ),
        ObjView::Stream(es, b) => ObjView::Stream(
            assoc_set(es, "Parent"@, ObjView::Reference(pid)),
            b,
        ),
        _ => v,
    }
}

/// A sequence of identities as a sequence of reference objects.
pub open spec fn refs_seq(ids: Seq<ObjectId>) -> Seq<ObjView> {
    Seq::new(ids.len(), |j: int| ObjView::Reference(ids[j]))
}

/// The largest identity number in an entry list, or zero.
pub open spec fn max_num_of(s: Seq<(ObjectId, ObjView)>) -> int
    decreases s.len(),
{
    if s.len() == 0 {
        0
    } else if s.last().0.num >= max_num_of(s.drop_last()) {
        s.last().0.num as int
    } else {
        max_num_of(s.drop_last())
    }
}

/// Folds `later`'s entries into `base`, later keys overriding.
fn extend_dict(base: &mut Dict, later: &Dict)
    ensures
        final(base)@ == dict_extend(old(base)@, later@),
{
    proof {
        lemma_view_entries(later.entries@);
        assert(later@.skip(0) =~= later@);
    }
    let mut i: usize = 0;
    while i < later.entries.len()
        invariant
            i <= later.entries.len(),
            later@.len() == later.entries@.len(),
            forall|j: int|
                0 <= j < later.entries@.len() ==> later@[j] == (
                    later.entries@[j].0@,
                    later.entries@[j].1.ov(),
                ),
            dict_extend(base@, later@.skip(i as int)) == dict_extend(old(base)@, later@),
        decreases later.entries.len() - i,
    {
        let key_i = later.entries[i].0.clone();
        let val_i = later.entries[i].1.clone();
        proof {
            assert(later@.skip(i as int)[0] == later@[i as int]);
            assert(later@.skip(i as int).skip(1) =~= later@.skip(i + 1));
        }
        base.insert(key_i.as_str(), val_i);
        i += 1;
    }
    proof {
        assert(later@.skip(later@.len() as int).len() == 0);
    }
}

/// Scans the combined graph once and adopts the survivors: the first
/// catalog and the first pages root, each with every later dictionary
/// of its role folded in.
fn scan_survivors(doc: &PdfDocument, k: NodeKind) -> (r: Option<(ObjectId, Dict)>)
    ensures
        match r {
            Some((id, d)) => {
                &&& has_kind(doc@.objects, k)
                &&& ({
                    let j = first_kind_index(doc@.objects, k);
                    &&& 0 <= j < doc@.objects.len()
                    &&& doc@.objects[j].0 == id
                    &&& is_dict_of_kind(doc@.objects[j].1, k)
                })
                &&& d@ == fold_kind_from(doc@.objects, k, Seq::empty())
            },
            None => !has_kind(doc@.objects, k),
        },
{
    proof {
        lemma_view_graph(doc.objects@);
        assert(doc@.objects.skip(0) =~= doc@.objects);
    }
    let ghost gv = doc@.objects;
    let mut found: Option<ObjectId> = None;
    let mut acc: Dict = Dict::empty();
    let mut i: usize = 0;
    while i < doc.objects.len()
        invariant
            i <= doc.objects.len(),
            gv == doc@.objects,
            gv.len() == doc.objects@.len(),
            forall|j: int|
                0 <= j < doc.objects@.len() ==> gv[j] == (
                    doc.objects@[j].0,
                    doc.objects@[j].1.ov(),
                ),
            fold_kind_from(gv.skip(i as int), k, acc@) == fold_kind_from(gv, k, Seq::empty()),
            match found {
                Some(id) => {
                    &&& has_kind(gv.take(i as int), k)
                    &&& ({
                        let j = first_kind_index(gv, k);
                        &&& 0 <= j < i
                        &&& gv[j].0 == id
                        &&& is_dict_of_kind(gv[j].1, k)
                    })
                },
                None => forall|j: int| 0 <= j < i ==> !is_dict_of_kind(gv[j].1, k),
            },
        decreases doc.objects.len() - i,
    {
        proof {
            assert(gv.skip(i as int)[0] == gv[i as int]);
            assert(gv.skip(i as int).skip(1) =~= gv.skip(i + 1));
        }
        let obj: &Object = &doc.objects[i].1;
        let is_match: bool = match obj {
            Object::Dictionary(_) => {
                let ko = obj.kind();
                match (ko, k) {
                    (NodeKind::Catalog, NodeKind::Catalog) => true,
                    (NodeKind::Pages, NodeKind::Pages) => true,
                    (NodeKind::Page, NodeKind::Page) => true,
                    (NodeKind::Outline, NodeKind::Outline) => true,
                    (NodeKind::Other, NodeKind::Other) => true,
                    _ => false,
                }
            },
            _ => false,
        };
        if is_match {
            proof {
                assert(is_dict_of_kind(gv[i as int].1, k));
            }
            if let Object::Dictionary(d) = obj {
                extend_dict(&mut acc, d);
            }
            if found.is_none() {
                found = Some(doc.objects[i].0);
                proof {
                    crate::assoc::lemma_assoc_characterization(gv, doc.objects@[i as int].0);
                    assert(forall|j: int| 0 <= j < i ==> !is_dict_of_kind(gv[j].1, k));
                    lemma_first_kind_index(gv, k, i as int);
                    assert(has_kind(gv.take(i + 1), k)) by {
                        assert(gv.take(i + 1)[i as int] == gv[i as int]);
                    }
                }
            } else {
                proof {
                    assert(has_kind(gv.take(i + 1), k)) by {
                        let w = choose|w: int|
                            0 <= w < i && is_dict_of_kind(gv.take(i as int)[w].1, k);
                        assert(gv.take(i + 1)[w] == gv[w]);
                        assert(gv.take(i as int)[w] == gv[w]);
                    }
                }
            }
        }
        i += 1;
    }
    proof {
        assert(gv.skip(gv.len() as int).len() == 0);
        assert(gv.take(gv.len() as int) =~= gv);
        if found is None {
            if has_kind(gv, k) {
                let w = choose|w: int| 0 <= w < gv.len() && is_dict_of_kind(gv[w].1, k);
            }
        }
    }
    match found {
        Some(id) => Some((id, acc)),
        None => None,
    }
}

/// When everything before `j` is of another role and `j` matches, `j`
/// is the first index of that role.
proof fn lemma_first_kind_index(s: Seq<(ObjectId, ObjView)>, k: NodeKind, j: int)
    requires
        0 <= j < s.len(),
        is_dict_of_kind(s[j].1, k),
        forall|l: int| 0 <= l < j ==> !is_dict_of_kind(s[l].1, k),
    ensures
        first_kind_index(s, k) == j,
        has_kind(s, k),
    decreases j,
{
    if j == 0 {
    } else {
        assert(forall|l: int| 0 <= l < s.skip(1).len() ==> s.skip(1)[l] == s[l + 1]);
        lemma_first_kind_index(s.skip(1), k, j - 1);
    }
}


/// Whether an object's parent back-reference points at `pid`.
pub open spec fn parent_points(v: ObjView, pid: ObjectId) -> bool {
    match v {
        ObjView::Dictionary(es) => assoc_lookup(es, "Parent"@) == Some(
            ObjView::Reference(pid),
        ),
        ObjView::Stream(es, _) => assoc_lookup(es, "Parent"@) == Some(ObjView::Reference(pid)),
        _ => false,
    }
}

/// The identity of the `i`-th synthesized navigation entry under an
/// outline root.
pub open spec fn outline_entry_id(root: ObjectId, i: int) -> ObjectId {
    ObjectId { num: (root.num + 1 + i) as u32, gen: 0 }
}

/// The fixed accent color of a navigation entry: three real
/// components carrying the 32-bit float patterns of zero, zero, one.
pub open spec fn accent_color_view() -> ObjView {
    ObjView::Array(seq![ObjView::Real(0), ObjView::Real(0), ObjView::Real(0x3F800000)])
}

/// The `i`-th navigation entry: its title is the document's name, its
/// parent the outline root, its destination the document's first
/// surviving page, and entries are chained in input order.
pub open spec fn outline_entry_view(
    bms: Seq<(Seq<char>, ObjectId)>,
    root: ObjectId,
    i: int,
) -> Seq<(Seq<char>, ObjView)> {
    let base = seq![
        ("Title"@, ObjView::Text(bms[i].0)),
        ("Parent"@, ObjView::Reference(root)),
        ("Dest"@, ObjView::Array(seq![ObjView::Reference(bms[i].1)])),
        ("C"@, accent_color_view()),
    ];
    if i + 1 < bms.len() {
        base.push(("Next"@, ObjView::Reference(outline_entry_id(root, i + 1))))
    } else {
        base
    }
}

/// The outline root: typed as an outline node, pointing at the first
/// and last entries and counting them.
pub open spec fn outline_root_view(bms: Seq<(Seq<char>, ObjectId)>, root: ObjectId) -> Seq<
    (Seq<char>, ObjView),
> {
    seq![
        ("Type"@, ObjView::Name("Outlines"@)),
        ("First"@, ObjView::Reference(outline_entry_id(root, 0))),
        ("Last"@, ObjView::Reference(outline_entry_id(root, bms.len() - 1))),
        ("Count"@, ObjView::Integer(bms.len() as i64)),
    ]
}

/// There are never more navigation entries than documents.
pub proof fn lemma_bookmarks_len(ds: Seq<DocView>, ns: Seq<Seq<char>>)
    ensures
        spec_bookmarks(ds, ns).len() <= ds.len(),
    decreases ds.len(),
{
    if ds.len() > 0 && ns.len() == ds.len() {
        lemma_bookmarks_len(ds.drop_last(), ns.drop_last());
    }
}

/// There are never more page leaves than objects.
pub proof fn lemma_all_pages_len(ds: Seq<DocView>)
    ensures
        all_pages(ds).len() <= concat_objects(ds).len(),
    decreases ds.len(),
{
    if ds.len() > 0 {
        lemma_all_pages_len(ds.drop_last());
        let d = ds.last();
        d.objects.lemma_filter_len(|e: (ObjectId, ObjView)| spec_kind(e.1) == NodeKind::Page);
    }
}


/// What a carried-over entry's object reads as after the merge: a
/// page gains the surviving parent back-reference, everything else is
/// unchanged.
pub open spec fn carried_object(e: (ObjectId, ObjView), pid: ObjectId) -> ObjView {
    if spec_kind(e.1) == NodeKind::Page {
        set_parent_view(e.1, pid)
    } else {
        e.1
    }
}

/// The merged document's tree, as one predicate: the first catalog
/// and first pages root of the combined graph survive, with later
/// siblings' attributes folded in; the pages root holds every
/// surviving page in per-document page order and overall input
/// order, and counts exactly them; every page's parent points at the
/// surviving pages root; one navigation entry per contributing
/// document, labeled with its name and targeting its first surviving
/// page, is chained in input order under a fresh outline root; and
/// the trailer's root names the surviving catalog.
pub open spec fn merged_tree(ds: Seq<DocView>, nvs: Seq<Seq<char>>, d: DocView) -> bool {
    let all = concat_objects(ds);
    let pv = all_pages(ds);
    let bms = spec_bookmarks(ds, nvs);
    let pid = all[first_kind_index(all, NodeKind::Pages)].0;
    let cid = all[first_kind_index(all, NodeKind::Catalog)].0;
    &&& has_kind(all, NodeKind::Catalog)
    &&& has_kind(all, NodeKind::Pages)
    &&& d.lookup(pid) == Some(
        ObjView::Dictionary(
            assoc_set(
                assoc_set(
                    fold_kind_from(all, NodeKind::Pages, Seq::empty()),
                    "Count"@,
                    ObjView::Integer(pv.len() as i64),
                ),
                "Kids"@,
                ObjView::Array(refs_seq(pv)),
            ),
        ),
    )
    &&& forall|i: int|
        0 <= i < pv.len() ==> (#[trigger] d.lookup(pv[i]) matches Some(v) && parent_points(
            v,
            pid,
        ))
    &&& ({
        let catrm = assoc_remove(
            fold_kind_from(all, NodeKind::Catalog, Seq::empty()),
            "Outlines"@,
        );
        &&& (bms.len() == 0 ==> d.lookup(cid) == Some(
            ObjView::Dictionary(assoc_set(catrm, "Pages"@, ObjView::Reference(pid))),
        ))
        &&& (bms.len() > 0 ==> (exists|root: ObjectId|
        {
            &&& d.lookup(cid) == Some(
                ObjView::Dictionary(
                    assoc_set(
                        assoc_set(catrm, "Pages"@, ObjView::Reference(pid)),
                        "Outlines"@,
                        ObjView::Reference(root),
                    ),
                ),
            )
            &&& #[trigger] outline_entry_id(root, 0) == outline_entry_id(root, 0)
            &&& d.lookup(root) == Some(ObjView::Dictionary(outline_root_view(bms, root)))
            &&& forall|i: int|
                0 <= i < bms.len() ==> #[trigger] d.lookup(outline_entry_id(root, i)) == Some(
                    ObjView::Dictionary(outline_entry_view(bms, root, i)),
                )
            &&& forall|l: int|
                0 <= l < bms.len() ==> #[trigger] d.objects[all.len() + l].0
                    == outline_entry_id(root, l)
            &&& d.objects[all.len() + bms.len() as int].0 == root
        }))
    })
    &&& forall|j: int|
        0 <= j < all.len() && all[j].0 != pid && all[j].0 != cid ==> #[trigger] d.lookup(
            all[j].0,
        ) == Some(carried_object(all[j], pid))
    &&& (bms.len() == 0 ==> d.objects.len() == all.len())
    &&& (bms.len() > 0 ==> d.objects.len() == all.len() + bms.len() + 1)
    &&& forall|j: int| 0 <= j < all.len() ==> #[trigger] d.objects[j].0 == all[j].0
    &&& d.wf()
    &&& assoc_lookup(d.trailer, "Root"@) == Some(ObjView::Reference(cid))
    &&& d.version == "1.7"@
}

/// A copy of `obj` whose parent back-reference is set to `pid`.
fn set_parent_object(obj: &Object, pid: ObjectId) -> (r: Object)
    ensures
        r@ == set_parent_view(obj@, pid),
{
    match obj {
        Object::Dictionary(d) => {
            let mut d2 = d.clone();
            d2.insert("Parent", Object::Reference(pid));
            Object::Dictionary(d2)
        },
        Object::Stream(d, bytes) => {
            let mut d2 = d.clone();
            d2.insert("Parent", Object::Reference(pid));
            let mut payload: Vec<u8> = Vec::new();
            let mut i: usize = 0;
            while i < bytes.len()
                invariant
                    i <= bytes.len(),
                    payload@ =~= bytes@.subrange(0, i as int),
                decreases bytes.len() - i,
            {
                payload.push(bytes[i]);
                i += 1;
            }
            assert(payload@ =~= bytes@);
            Object::Stream(d2, payload)
        },
        _ => obj.clone(),
    }
}


/// Preparation for the merge proper: the two survivors carry
/// distinct identities, and the combined page list repeats no
/// identity, names only page-classified entries, and avoids both
/// survivors.
pub proof fn lemma_merge_preparation(ds: Seq<DocView>, catalog_id: ObjectId, pages_id: ObjectId)
    requires
        assoc_unique(concat_objects(ds)),
        concat_objects(ds).len() <= u32::MAX,
        0 <= first_kind_index(concat_objects(ds), NodeKind::Catalog) < concat_objects(ds).len(),
        is_dict_of_kind(
            concat_objects(ds)[first_kind_index(concat_objects(ds), NodeKind::Catalog)].1,
            NodeKind::Catalog,
        ),
        concat_objects(ds)[first_kind_index(concat_objects(ds), NodeKind::Catalog)].0
            == catalog_id,
        0 <= first_kind_index(concat_objects(ds), NodeKind::Pages) < concat_objects(ds).len(),
        is_dict_of_kind(
            concat_objects(ds)[first_kind_index(concat_objects(ds), NodeKind::Pages)].1,
            NodeKind::Pages,
        ),
        concat_objects(ds)[first_kind_index(concat_objects(ds), NodeKind::Pages)].0 == pages_id,
    ensures
        catalog_id != pages_id,
        all_pages(ds) == page_ids_of(concat_objects(ds)),
        all_pages(ds).len() <= u32::MAX,
        forall|i1: int, i2: int|
            0 <= i1 < i2 < all_pages(ds).len() ==> all_pages(ds)[i1] != all_pages(ds)[i2],
        forall|i2: int|
            0 <= i2 < all_pages(ds).len() ==> (assoc_lookup(
                concat_objects(ds),
                #[trigger] all_pages(ds)[i2],
            ) matches Some(v) && spec_kind(v) == NodeKind::Page && all_pages(ds)[i2] != pages_id
                && all_pages(ds)[i2] != catalog_id),
{
    let all = concat_objects(ds);
    let pv = all_pages(ds);
    let jc = first_kind_index(all, NodeKind::Catalog);
    let jp = first_kind_index(all, NodeKind::Pages);
    assert(jc != jp);
    lemma_no_key_collision(all, jc, jp);
    lemma_all_pages_len(ds);
    lemma_all_pages_is_page_ids(ds);
    lemma_page_ids_of_unique(all);
    assert forall|i2: int|
        0 <= i2 < pv.len() implies (assoc_lookup(all, #[trigger] pv[i2]) matches Some(v)
        && spec_kind(v) == NodeKind::Page && pv[i2] != pages_id && pv[i2]
        != catalog_id) by {
        assert(assoc_lookup(all, page_ids_of(all)[i2]) matches Some(v) && spec_kind(v)
            == NodeKind::Page);
        crate::assoc::lemma_assoc_characterization(all, pv[i2]);
        if !assoc_has(all, pv[i2]) {
        }
        let w = crate::assoc::assoc_first_index(all, pv[i2]);
        assert(all[w].0 == pv[i2]);
        assert(spec_kind(all[w].1) == NodeKind::Page);
        if w != jp {
            lemma_no_key_collision(all, w, jp);
        }
        if w != jc {
            lemma_no_key_collision(all, w, jc);
        }
    }
}

/// After the parent rewrite, every carried-over entry other than the
/// two survivors reads as its input object (pages with their new
/// parent back-reference), and every page's parent points at the
/// surviving pages root.
pub proof fn lemma_carryover_after_parenting(
    all: Seq<(ObjectId, ObjView)>,
    pv_spec: Seq<ObjectId>,
    pages_id: ObjectId,
    catalog_id: ObjectId,
    d: DocView,
)
    requires
        assoc_unique(all),
        pv_spec == page_ids_of(all),
        forall|l: int|
            0 <= l < pv_spec.len() ==> #[trigger] d.lookup(pv_spec[l]) == Some(
                set_parent_view(assoc_lookup(all, pv_spec[l])->Some_0, pages_id),
            ),
        forall|id: ObjectId| !pv_spec.contains(id) ==> d.lookup(id) == assoc_lookup(all, id),
        forall|i2: int|
            0 <= i2 < pv_spec.len() ==> (assoc_lookup(all, #[trigger] pv_spec[i2]) matches Some(
                v,
            ) && spec_kind(v) == NodeKind::Page),
    ensures
        forall|l: int|
            0 <= l < pv_spec.len() ==> (#[trigger] d.lookup(pv_spec[l]) matches Some(v)
                && parent_points(v, pages_id)),
        forall|j: int|
            0 <= j < all.len() && all[j].0 != pages_id && all[j].0 != catalog_id
                ==> #[trigger] d.lookup(all[j].0) == Some(carried_object(all[j], pages_id)),
{
    lemma_page_ids_of_unique(all);
    assert forall|l: int|
        0 <= l < pv_spec.len() implies (#[trigger] d.lookup(pv_spec[l]) matches Some(v)
        && parent_points(v, pages_id)) by {
        let v0 = assoc_lookup(all, pv_spec[l])->Some_0;
        assert(d.lookup(pv_spec[l]) == Some(set_parent_view(v0, pages_id)));
        match v0 {
            ObjView::Dictionary(es) => {
                lemma_assoc_set(es, "Parent"@, ObjView::Reference(pages_id));
            },
            ObjView::Stream(es, _) => {
                lemma_assoc_set(es, "Parent"@, ObjView::Reference(pages_id));
            },
            _ => {},
        }
    }
    assert forall|j: int|
        0 <= j < all.len() && all[j].0 != pages_id && all[j].0 != catalog_id
        implies #[trigger] d.lookup(all[j].0) == Some(carried_object(all[j], pages_id)) by {
        crate::assoc::lemma_assoc_unique_lookup(all, j);
        assert(assoc_lookup(all, all[j].0) == Some(all[j].1));
        if spec_kind(all[j].1) == NodeKind::Page {
            assert(page_ids_of(all).contains(all[j].0));
            let ii = choose|ii: int| 0 <= ii < pv_spec.len() && pv_spec[ii] == all[j].0;
            assert(d.lookup(pv_spec[ii]) == Some(
                set_parent_view(assoc_lookup(all, pv_spec[ii])->Some_0, pages_id),
            ));
        } else {
            assert(!pv_spec.contains(all[j].0)) by {
                if pv_spec.contains(all[j].0) {
                    let ii = choose|ii: int|
                        0 <= ii < pv_spec.len() && pv_spec[ii] == all[j].0;
                    assert(assoc_lookup(all, page_ids_of(all)[ii]) matches Some(v) && spec_kind(
                        v,
                    ) == NodeKind::Page);
                }
            }
            assert(d.lookup(all[j].0) == assoc_lookup(all, all[j].0));
        }
    }
}

/// Attaches the navigation outline (one chained entry per
/// contributing document under a fresh root), installs the folded
/// catalog with its pages and outline references, and sets the
/// trailer root.
#[verifier::rlimit(100)]
fn attach_navigation(
    out: &mut PdfDocument,
    mut catalog_dict: Dict,
    catalog_id: ObjectId,
    pages_id: ObjectId,
    marks_names: Vec<(String, ObjectId)>,
    maxn: u32,
    Ghost(all): Ghost<Seq<(ObjectId, ObjView)>>,
    Ghost(pv_spec): Ghost<Seq<ObjectId>>,
    Ghost(bms): Ghost<Seq<(Seq<char>, ObjectId)>>,
    Ghost(pages_final): Ghost<Seq<(Seq<char>, ObjView)>>,
)
    requires
        bms == Seq::new(marks_names@.len(), |i: int| (marks_names@[i].0@, marks_names@[i].1)),
        maxn + marks_names@.len() + 2 <= u32::MAX,
        assoc_unique(all),
        forall|j: int| 0 <= j < all.len() ==> all[j].0.num <= maxn,
        old(out)@.objects.len() == all.len(),
        forall|j: int| 0 <= j < all.len() ==> old(out)@.objects[j].0 == all[j].0,
        old(out)@.lookup(pages_id) == Some(ObjView::Dictionary(pages_final)),
        forall|l: int|
            0 <= l < pv_spec.len() ==> (#[trigger] old(out)@.lookup(pv_spec[l]) matches Some(v)
                && parent_points(v, pages_id)),
        forall|j: int|
            0 <= j < all.len() && all[j].0 != pages_id && all[j].0 != catalog_id
                ==> #[trigger] old(out)@.lookup(all[j].0) == Some(
                carried_object(all[j], pages_id),
            ),
        forall|l: int|
            0 <= l < pv_spec.len() ==> #[trigger] pv_spec[l] != catalog_id && pv_spec[l]
                != pages_id,
        catalog_dict@ == fold_kind_from(all, NodeKind::Catalog, Seq::empty()),
        0 <= first_kind_index(all, NodeKind::Catalog) < all.len(),
        all[first_kind_index(all, NodeKind::Catalog)].0 == catalog_id,
        catalog_id != pages_id,
        old(out)@.trailer =~= Seq::<(Seq<char>, ObjView)>::empty(),
        old(out)@.version == "1.7"@,
    ensures
        final(out)@.lookup(pages_id) == Some(ObjView::Dictionary(pages_final)),
        forall|l: int|
            0 <= l < pv_spec.len() ==> (#[trigger] final(out)@.lookup(pv_spec[l]) matches Some(
                v,
            ) && parent_points(v, pages_id)),
        forall|j: int|
            0 <= j < all.len() && all[j].0 != pages_id && all[j].0 != catalog_id
                ==> #[trigger] final(out)@.lookup(all[j].0) == Some(
                carried_object(all[j], pages_id),
            ),
        ({
            let catrm = assoc_remove(
                fold_kind_from(all, NodeKind::Catalog, Seq::empty()),
                "Outlines"@,
            );
            &&& (bms.len() == 0 ==> final(out)@.lookup(catalog_id) == Some(
                ObjView::Dictionary(assoc_set(catrm, "Pages"@, ObjView::Reference(pages_id))),
            ))
            &&& (bms.len() > 0 ==> (exists|root: ObjectId|
            {
                &&& final(out)@.lookup(catalog_id) == Some(
                    ObjView::Dictionary(
                        assoc_set(
                            assoc_set(catrm, "Pages"@, ObjView::Reference(pages_id)),
                            "Outlines"@,
                            ObjView::Reference(root),
                        ),
                    ),
                )
                &&& #[trigger] outline_entry_id(root, 0) == outline_entry_id(root, 0)
                &&& final(out)@.lookup(root) == Some(
                    ObjView::Dictionary(outline_root_view(bms, root)),
                )
                &&& forall|i: int|
                    0 <= i < bms.len() ==> #[trigger] final(out)@.lookup(
                        outline_entry_id(root, i),
                    ) == Some(ObjView::Dictionary(outline_entry_view(bms, root, i)))
                &&& forall|l: int|
                    0 <= l < bms.len() ==> #[trigger] final(out)@.objects[all.len() + l].0
                        == outline_entry_id(root, l)
                &&& final(out)@.objects[all.len() + bms.len() as int].0 == root
            }))
        }),
        final(out)@.wf(),
        bms.len() == 0 ==> final(out)@.objects.len() == all.len(),
        bms.len() > 0 ==> final(out)@.objects.len() == all.len() + bms.len() + 1,
        forall|j: int| 0 <= j < all.len() ==> #[trigger] final(out)@.objects[j].0 == all[j].0,
        assoc_lookup(final(out)@.trailer, "Root"@) == Some(ObjView::Reference(catalog_id)),
        final(out)@.version == "1.7"@,
{
    let m = marks_names.len();
    proof {
        assert(m == bms.len());
    }
    if m > 0 {
        let root = ObjectId { num: maxn + 1, gen: 0 };
        let mut ei: usize = 0;
        while ei < m
            invariant
                ei <= m,
                m == marks_names@.len(),
                m == bms.len(),
                bms == Seq::new(
                    marks_names@.len(),
                    |i: int| (marks_names@[i].0@, marks_names@[i].1),
                ),
                root.num == maxn + 1,
                root.gen == 0,
                maxn + m + 2 <= u32::MAX,
                forall|j: int| 0 <= j < all.len() ==> all[j].0.num <= maxn,
                out@.objects.len() == all.len() + ei,
                forall|j: int| 0 <= j < all.len() ==> out@.objects[j].0 == all[j].0,
                forall|l: int|
                    0 <= l < ei ==> #[trigger] out@.objects[all.len() + l].0
                        == outline_entry_id(root, l),
                out@.lookup(pages_id) == Some(ObjView::Dictionary(pages_final)),
                forall|l: int|
                    0 <= l < pv_spec.len() ==> (#[trigger] out@.lookup(pv_spec[l]) matches Some(
                        v,
                    ) && parent_points(v, pages_id)),
                forall|l: int|
                    0 <= l < ei ==> #[trigger] out@.lookup(outline_entry_id(root, l)) == Some(
                        ObjView::Dictionary(outline_entry_view(bms, root, l)),
                    ),
                forall|j: int|
                    0 <= j < all.len() && all[j].0 != pages_id && all[j].0 != catalog_id
                        ==> #[trigger] out@.lookup(all[j].0) == Some(
                        carried_object(all[j], pages_id),
                    ),
                out@.trailer =~= Seq::<(Seq<char>, ObjView)>::empty(),
                out@.version == "1.7"@,
            decreases m - ei,
        {
            let eid = ObjectId { num: maxn + 2 + (ei as u32), gen: 0 };
            proof {
                assert(eid == outline_entry_id(root, ei as int));
            }
            let mut ent: Vec<(String, Object)> = Vec::new();
            ent.push(("Title".to_owned(), Object::Text(marks_names[ei].0.clone())));
            ent.push(("Parent".to_owned(), Object::Reference(root)));
            let mut dest: Vec<Object> = Vec::new();
            dest.push(Object::Reference(marks_names[ei].1));
            let ghost destv = dest@;
            ent.push(("Dest".to_owned(), Object::Array(dest)));
            let mut col: Vec<Object> = Vec::new();
            col.push(Object::Real(0));
            col.push(Object::Real(0));
            col.push(Object::Real(0x3F800000));
            let ghost colv = col@;
            ent.push(("C".to_owned(), Object::Array(col)));
            if ei + 1 < m {
                ent.push(
                    (
                        "Next".to_owned(),
                        Object::Reference(ObjectId { num: maxn + 3 + (ei as u32), gen: 0 }),
                    ),
                );
            }
            let ed = Dict { entries: ent };
            proof {
                lemma_view_entries(ed.entries@);
                crate::objects::lemma_view_obj_seq(destv);
                crate::objects::lemma_view_obj_seq(colv);
                assert(crate::objects::view_obj_seq(destv) =~= seq![
                    ObjView::Reference(marks_names@[ei as int].1),
                ]);
                assert(crate::objects::view_obj_seq(colv) =~= seq![
                    ObjView::Real(0),
                    ObjView::Real(0),
                    ObjView::Real(0x3F800000),
                ]);
                assert(bms[ei as int] == (marks_names@[ei as int].0@, marks_names@[ei as int].1));
                assert(ed@ =~= outline_entry_view(bms, root, ei as int));
            }
            let ghost cur = out@.objects;
            proof {
                assert forall|l: int|
                    0 <= l < pv_spec.len() implies (assoc_lookup(cur, #[trigger] pv_spec[l])
                    matches Some(v) && parent_points(v, pages_id)) by {
                    assert(out@.lookup(pv_spec[l]) matches Some(v) && parent_points(
                        v,
                        pages_id,
                    ));
                }
                assert forall|l: int|
                    0 <= l < ei implies assoc_lookup(cur, #[trigger] outline_entry_id(root, l))
                    == Some(ObjView::Dictionary(outline_entry_view(bms, root, l))) by {
                    assert(out@.lookup(outline_entry_id(root, l)) == Some(
                        ObjView::Dictionary(outline_entry_view(bms, root, l)),
                    ));
                }
                assert(assoc_lookup(cur, pages_id) == Some(ObjView::Dictionary(pages_final)));
                assert forall|j: int|
                    0 <= j < all.len() && all[j].0 != pages_id && all[j].0 != catalog_id
                    implies assoc_lookup(cur, #[trigger] all[j].0) == Some(
                    carried_object(all[j], pages_id),
                ) by {
                    assert(out@.lookup(all[j].0) == Some(carried_object(all[j], pages_id)));
                }
            }
            out.insert_object(eid, Object::Dictionary(ed));
            proof {
                assert(!assoc_has(cur, eid)) by {
                    if assoc_has(cur, eid) {
                        let w = choose|w: int| 0 <= w < cur.len() && cur[w].0 == eid;
                        if w < all.len() {
                            assert(cur[w].0 == all[w].0);
                            assert(all[w].0.num <= maxn);
                        } else {
                            assert(cur[all.len() + (w - all.len())].0 == outline_entry_id(
                                root,
                                w - all.len(),
                            ));
                            assert(cur[w].0 == outline_entry_id(root, w - all.len()));
                        }
                    }
                }
                lemma_assoc_set(cur, eid, ObjView::Dictionary(outline_entry_view(bms, root, ei as int)));
                assert(out@.objects == cur.push(
                    (eid, ObjView::Dictionary(outline_entry_view(bms, root, ei as int))),
                ));
                assert forall|j: int| 0 <= j < all.len() implies out@.objects[j].0 == all[j].0 by {
                    assert(out@.objects[j] == cur[j]);
                }
                assert forall|l: int|
                    0 <= l < ei + 1 implies #[trigger] out@.objects[all.len() + l].0
                    == outline_entry_id(root, l) by {
                    if l < ei {
                        assert(out@.objects[all.len() + l] == cur[all.len() + l]);
                    }
                }
                crate::assoc::lemma_assoc_characterization(cur, eid);
                assert(assoc_lookup(cur, eid) is None);
                assert(pages_id != eid);
                assert forall|l: int|
                    0 <= l < pv_spec.len() implies (#[trigger] out@.lookup(pv_spec[l]) matches Some(
                    v,
                ) && parent_points(v, pages_id)) by {
                    assert(assoc_lookup(cur, pv_spec[l]) matches Some(v) && parent_points(
                        v,
                        pages_id,
                    ));
                    assert(pv_spec[l] != eid);
                    assert(out@.lookup(pv_spec[l]) == assoc_lookup(cur, pv_spec[l]));
                }
                assert forall|l: int|
                    0 <= l < ei + 1 implies #[trigger] out@.lookup(outline_entry_id(root, l))
                    == Some(ObjView::Dictionary(outline_entry_view(bms, root, l))) by {
                    if l < ei {
                        assert(assoc_lookup(cur, outline_entry_id(root, l)) == Some(
                            ObjView::Dictionary(outline_entry_view(bms, root, l)),
                        ));
                        assert(outline_entry_id(root, l) != eid);
                        assert(out@.lookup(outline_entry_id(root, l)) == assoc_lookup(
                            cur,
                            outline_entry_id(root, l),
                        ));
                    } else {
                        assert(out@.lookup(eid) == Some(
                            ObjView::Dictionary(outline_entry_view(bms, root, ei as int)),
                        ));
                    }
                }
                assert forall|j: int|
                    0 <= j < all.len() && all[j].0 != pages_id && all[j].0 != catalog_id
                    implies #[trigger] out@.lookup(all[j].0) == Some(
                    carried_object(all[j], pages_id),
                ) by {
                    assert(all[j].0.num <= maxn);
                    assert(all[j].0 != eid);
                    assert(out@.lookup(all[j].0) == assoc_lookup(cur, all[j].0));
                }
            }
            ei += 1;
        }
        let mut rent: Vec<(String, Object)> = Vec::new();
        rent.push(("Type".to_owned(), Object::Name("Outlines".to_owned())));
        rent.push(("First".to_owned(), Object::Reference(ObjectId { num: maxn + 2, gen: 0 })));
        rent.push(
            (
                "Last".to_owned(),
                Object::Reference(ObjectId { num: maxn + 1 + (m as u32), gen: 0 }),
            ),
        );
        rent.push(("Count".to_owned(), Object::Integer(m as i64)));
        let rd = Dict { entries: rent };
        proof {
            lemma_view_entries(rd.entries@);
            assert(outline_entry_id(root, 0).num == maxn + 2);
            assert(outline_entry_id(root, m - 1).num == maxn + 1 + m);
            assert(rd@ =~= outline_root_view(bms, root));
        }
        let ghost cur_r = out@.objects;
        proof {
            assert forall|l: int|
                0 <= l < pv_spec.len() implies (assoc_lookup(cur_r, #[trigger] pv_spec[l])
                matches Some(v) && parent_points(v, pages_id)) by {
                assert(out@.lookup(pv_spec[l]) matches Some(v) && parent_points(v, pages_id));
            }
            assert forall|l: int|
                0 <= l < m implies assoc_lookup(cur_r, #[trigger] outline_entry_id(root, l))
                == Some(ObjView::Dictionary(outline_entry_view(bms, root, l))) by {
                assert(out@.lookup(outline_entry_id(root, l)) == Some(
                    ObjView::Dictionary(outline_entry_view(bms, root, l)),
                ));
            }
            assert(assoc_lookup(cur_r, pages_id) == Some(ObjView::Dictionary(pages_final)));
            assert forall|j: int|
                0 <= j < all.len() && all[j].0 != pages_id && all[j].0 != catalog_id
                implies assoc_lookup(cur_r, #[trigger] all[j].0) == Some(
                carried_object(all[j], pages_id),
            ) by {
                assert(out@.lookup(all[j].0) == Some(carried_object(all[j], pages_id)));
            }
        }
        out.insert_object(root, Object::Dictionary(rd));
        proof {
            assert(!assoc_has(cur_r, root)) by {
                if assoc_has(cur_r, root) {
                    let w = choose|w: int| 0 <= w < cur_r.len() && cur_r[w].0 == root;
                    if w < all.len() {
                        assert(cur_r[w].0 == all[w].0);
                        assert(all[w].0.num <= maxn);
                    } else {
                        assert(cur_r[all.len() + (w - all.len())].0 == outline_entry_id(
                            root,
                            w - all.len(),
                        ));
                        assert(cur_r[w].0 == outline_entry_id(root, w - all.len()));
                    }
                }
            }
            lemma_assoc_set(cur_r, root, ObjView::Dictionary(outline_root_view(bms, root)));
            assert(out@.lookup(root) == Some(ObjView::Dictionary(outline_root_view(bms, root))));
            assert(pages_id != root && (forall|l: int|
                0 <= l < pv_spec.len() ==> pv_spec[l] != root) && (forall|l: int|
                0 <= l < m ==> outline_entry_id(root, l) != root)) by {
                crate::assoc::lemma_assoc_characterization(cur_r, root);
                assert forall|l: int| 0 <= l < pv_spec.len() implies pv_spec[l] != root by {
                    assert(out@.lookup(pv_spec[l]) is Some || assoc_lookup(cur_r, pv_spec[l])
                        is Some);
                    if pv_spec[l] == root {
                        assert(assoc_lookup(cur_r, root) is None);
                    }
                }
                assert forall|l: int| 0 <= l < m implies outline_entry_id(root, l) != root by {
                    assert(outline_entry_id(root, l).num == maxn + 2 + l);
                }
            }
            assert forall|l: int|
                0 <= l < pv_spec.len() implies (#[trigger] out@.lookup(pv_spec[l]) matches Some(
                v,
            ) && parent_points(v, pages_id)) by {
                assert(out@.lookup(pv_spec[l]) == assoc_lookup(cur_r, pv_spec[l]));
            }
            assert forall|l: int|
                0 <= l < m implies #[trigger] out@.lookup(outline_entry_id(root, l)) == Some(
                ObjView::Dictionary(outline_entry_view(bms, root, l)),
            ) by {
                assert(out@.lookup(outline_entry_id(root, l)) == assoc_lookup(
                    cur_r,
                    outline_entry_id(root, l),
                ));
            }
            assert forall|j: int|
                0 <= j < all.len() && all[j].0 != pages_id && all[j].0 != catalog_id
                implies #[trigger] out@.lookup(all[j].0) == Some(
                carried_object(all[j], pages_id),
            ) by {
                assert(all[j].0.num <= maxn);
                assert(all[j].0 != root);
                assert(out@.lookup(all[j].0) == assoc_lookup(cur_r, all[j].0));
            }
            assert(out@.objects == cur_r.push(
                (root, ObjView::Dictionary(outline_root_view(bms, root))),
            ));
            assert forall|j: int| 0 <= j < all.len() implies out@.objects[j].0 == all[j].0 by {
                assert(out@.objects[j] == cur_r[j]);
            }
            assert forall|l: int|
                0 <= l < m implies #[trigger] out@.objects[all.len() + l].0 == outline_entry_id(
                root,
                l,
            ) by {
                assert(out@.objects[all.len() + l] == cur_r[all.len() + l]);
            }
            assert(out@.objects[all.len() + m].0 == root);
            assert(out@.objects.len() == all.len() + m + 1);
        }
        proof {
            reveal_strlit("Pages");
            reveal_strlit("Outlines");
            assert("Pages"@.len() == 5);
            assert("Outlines"@.len() == 8);
        }
        let ghost cdpre = catalog_dict@;
        proof {
            assert(cdpre == fold_kind_from(all, NodeKind::Catalog, Seq::empty()));
        }
        catalog_dict.remove("Outlines");
        let ghost cd0 = catalog_dict@;
        proof {
            assert(cd0 == assoc_remove(cdpre, "Outlines"@));
        }
        catalog_dict.insert("Pages", Object::Reference(pages_id));
        let ghost cd1 = catalog_dict@;
        proof {
            lemma_assoc_set(cd0, "Pages"@, ObjView::Reference(pages_id));
        }
        catalog_dict.insert("Outlines", Object::Reference(root));
        let ghost cdv = catalog_dict@;
        proof {
            lemma_assoc_set(cd1, "Outlines"@, ObjView::Reference(root));
            assert(assoc_lookup(cdv, "Outlines"@) == Some(ObjView::Reference(root)));
            assert(assoc_lookup(cdv, "Pages"@) == Some(ObjView::Reference(pages_id)));
            assert(cdv == assoc_set(
                assoc_set(assoc_remove(cdpre, "Outlines"@), "Pages"@, ObjView::Reference(pages_id)),
                "Outlines"@,
                ObjView::Reference(root),
            ));
        }
        let ghost cur_c = out@.objects;
        proof {
            assert forall|j: int|
                0 <= j < all.len() && all[j].0 != pages_id && all[j].0 != catalog_id
                implies assoc_lookup(cur_c, #[trigger] all[j].0) == Some(
                carried_object(all[j], pages_id),
            ) by {
                assert(out@.lookup(all[j].0) == Some(carried_object(all[j], pages_id)));
            }
            assert forall|l: int|
                0 <= l < pv_spec.len() implies (assoc_lookup(cur_c, #[trigger] pv_spec[l])
                matches Some(v) && parent_points(v, pages_id)) by {
                assert(out@.lookup(pv_spec[l]) matches Some(v) && parent_points(v, pages_id));
            }
            assert forall|l: int|
                0 <= l < m implies assoc_lookup(cur_c, #[trigger] outline_entry_id(root, l))
                == Some(ObjView::Dictionary(outline_entry_view(bms, root, l))) by {
                assert(out@.lookup(outline_entry_id(root, l)) == Some(
                    ObjView::Dictionary(outline_entry_view(bms, root, l)),
                ));
            }
            assert(assoc_lookup(cur_c, pages_id) == Some(ObjView::Dictionary(pages_final)));
            assert(assoc_lookup(cur_c, root) == Some(
                ObjView::Dictionary(outline_root_view(bms, root)),
            ));
            assert(forall|j: int| 0 <= j < all.len() ==> cur_c[j].0 == all[j].0);
            assert(forall|l: int|
                0 <= l < m ==> #[trigger] cur_c[all.len() + l].0 == outline_entry_id(root, l));
            assert(cur_c[all.len() + m].0 == root);
            assert(cur_c.len() == all.len() + m + 1);
        }
        out.insert_object(catalog_id, Object::Dictionary(catalog_dict));
        proof {
            lemma_assoc_set(cur_c, catalog_id, ObjView::Dictionary(cdv));
            assert(out@.lookup(catalog_id) == Some(ObjView::Dictionary(cdv)));
            assert(catalog_id != pages_id);
            assert(catalog_id != root && (forall|l: int|
                0 <= l < m ==> outline_entry_id(root, l) != catalog_id)) by {
                let jc = first_kind_index(all, NodeKind::Catalog);
                assert(all[jc].0 == catalog_id);
                assert(catalog_id.num <= maxn);
                assert forall|l: int| 0 <= l < m implies outline_entry_id(root, l)
                    != catalog_id by {
                    assert(outline_entry_id(root, l).num == maxn + 2 + l);
                }
            }
            assert(out@.lookup(pages_id) == assoc_lookup(cur_c, pages_id));
            assert(out@.lookup(root) == assoc_lookup(cur_c, root));
            assert forall|l: int|
                0 <= l < pv_spec.len() implies (#[trigger] out@.lookup(pv_spec[l]) matches Some(
                v,
            ) && parent_points(v, pages_id)) by {
                assert(pv_spec[l] != catalog_id);
                assert(out@.lookup(pv_spec[l]) == assoc_lookup(cur_c, pv_spec[l]));
            }
            assert forall|l: int|
                0 <= l < m implies #[trigger] out@.lookup(outline_entry_id(root, l)) == Some(
                ObjView::Dictionary(outline_entry_view(bms, root, l)),
            ) by {
                assert(out@.lookup(outline_entry_id(root, l)) == assoc_lookup(
                    cur_c,
                    outline_entry_id(root, l),
                ));
            }
            assert forall|j: int|
                0 <= j < all.len() && all[j].0 != pages_id && all[j].0 != catalog_id
                implies #[trigger] out@.lookup(all[j].0) == Some(
                carried_object(all[j], pages_id),
            ) by {
                assert(out@.lookup(all[j].0) == assoc_lookup(cur_c, all[j].0));
            }
            let jc = first_kind_index(all, NodeKind::Catalog);
            assert(cur_c[jc].0 == catalog_id);
            assert(assoc_has(cur_c, catalog_id));
            crate::assoc::lemma_assoc_characterization(cur_c, catalog_id);
            let fki_c = crate::assoc::assoc_first_index(cur_c, catalog_id);
            assert(out@.objects == cur_c.update(fki_c, (catalog_id, ObjView::Dictionary(cdv))));
            assert forall|x: int|
                0 <= x < out@.objects.len() implies #[trigger] out@.objects[x].0
                == cur_c[x].0 by {
                if x != fki_c {
                    assert(out@.objects[x] == cur_c[x]);
                } else {
                    assert(cur_c[fki_c].0 == catalog_id);
                }
            }
            assert forall|x1: int, x2: int|
                0 <= x1 < x2 < out@.objects.len() implies out@.objects[x1].0
                != out@.objects[x2].0 by {
                if x2 < all.len() {
                    lemma_no_key_collision(all, x1, x2);
                } else if x1 < all.len() {
                    assert(cur_c[x1].0.num <= maxn);
                    if x2 < all.len() + m {
                        assert(cur_c[all.len() + (x2 - all.len())].0 == outline_entry_id(
                            root,
                            x2 - all.len(),
                        ));
                        assert(cur_c[x2].0 == outline_entry_id(root, x2 - all.len()));
                    } else {
                        assert(cur_c[x2].0 == root);
                    }
                } else {
                    assert(cur_c[all.len() + (x1 - all.len())].0 == outline_entry_id(
                        root,
                        x1 - all.len(),
                    ));
                    assert(cur_c[x1].0 == outline_entry_id(root, x1 - all.len()));
                    if x2 < all.len() + m {
                        assert(cur_c[all.len() + (x2 - all.len())].0 == outline_entry_id(
                            root,
                            x2 - all.len(),
                        ));
                        assert(cur_c[x2].0 == outline_entry_id(root, x2 - all.len()));
                    } else {
                        assert(cur_c[x2].0 == root);
                    }
                }
            }
            assert(out@.wf());
        }
        let ghost cur_t = out@.objects;
        proof {
            assert(assoc_lookup(cur_t, pages_id) == Some(ObjView::Dictionary(pages_final)));
            assert forall|l: int|
                0 <= l < pv_spec.len() implies (assoc_lookup(cur_t, #[trigger] pv_spec[l])
                matches Some(v) && parent_points(v, pages_id)) by {
                assert(out@.lookup(pv_spec[l]) matches Some(v) && parent_points(v, pages_id));
            }
            assert forall|j: int|
                0 <= j < all.len() && all[j].0 != pages_id && all[j].0 != catalog_id
                implies assoc_lookup(cur_t, #[trigger] all[j].0) == Some(
                carried_object(all[j], pages_id),
            ) by {
                assert(out@.lookup(all[j].0) == Some(carried_object(all[j], pages_id)));
            }
            assert(assoc_lookup(cur_t, catalog_id) == Some(ObjView::Dictionary(cdv)));
            assert(assoc_lookup(cur_t, root) == Some(
                ObjView::Dictionary(outline_root_view(bms, root)),
            ));
            assert forall|l: int|
                0 <= l < m implies assoc_lookup(cur_t, #[trigger] outline_entry_id(root, l))
                == Some(ObjView::Dictionary(outline_entry_view(bms, root, l))) by {
                assert(out@.lookup(outline_entry_id(root, l)) == Some(
                    ObjView::Dictionary(outline_entry_view(bms, root, l)),
                ));
            }
        }
        out.trailer.insert("Root", Object::Reference(catalog_id));
        proof {
            assert(out@.objects == cur_t);
            assert(out@.lookup(pages_id) == Some(ObjView::Dictionary(pages_final)));
            assert(out@.lookup(catalog_id) == Some(ObjView::Dictionary(cdv)));
            assert(out@.lookup(root) == Some(ObjView::Dictionary(outline_root_view(bms, root))));
            assert forall|l: int|
                0 <= l < pv_spec.len() implies (#[trigger] out@.lookup(pv_spec[l]) matches Some(
                v,
            ) && parent_points(v, pages_id)) by {
                assert(out@.lookup(pv_spec[l]) == assoc_lookup(cur_t, pv_spec[l]));
            }
            assert forall|j: int|
                0 <= j < all.len() && all[j].0 != pages_id && all[j].0 != catalog_id
                implies #[trigger] out@.lookup(all[j].0) == Some(
                carried_object(all[j], pages_id),
            ) by {
                assert(out@.lookup(all[j].0) == assoc_lookup(cur_t, all[j].0));
            }
            assert forall|l: int|
                0 <= l < m implies #[trigger] out@.lookup(outline_entry_id(root, l)) == Some(
                ObjView::Dictionary(outline_entry_view(bms, root, l)),
            ) by {
                assert(out@.lookup(outline_entry_id(root, l)) == assoc_lookup(
                    cur_t,
                    outline_entry_id(root, l),
                ));
            }
            assert(assoc_lookup(out@.trailer, "Root"@) == Some(ObjView::Reference(catalog_id)));
            assert(outline_entry_id(root, 0) == outline_entry_id(root, 0));
        }
    } else {
        proof {
            reveal_strlit("Pages");
            reveal_strlit("Outlines");
            assert("Pages"@.len() == 5);
            assert("Outlines"@.len() == 8);
        }
        let ghost cdpre = catalog_dict@;
        proof {
            assert(cdpre == fold_kind_from(all, NodeKind::Catalog, Seq::empty()));
        }
        catalog_dict.remove("Outlines");
        let ghost cd0 = catalog_dict@;
        catalog_dict.insert("Pages", Object::Reference(pages_id));
        let ghost cdv = catalog_dict@;
        proof {
            assert(cd0 == assoc_remove(cdpre, "Outlines"@));
            lemma_assoc_set(cd0, "Pages"@, ObjView::Reference(pages_id));
            assert(assoc_lookup(cdv, "Pages"@) == Some(ObjView::Reference(pages_id)));
            assert(!assoc_has(cdv, "Outlines"@));
            assert(cdv == assoc_set(
                assoc_remove(cdpre, "Outlines"@),
                "Pages"@,
                ObjView::Reference(pages_id),
            ));
        }
        let ghost cur_c = out@.objects;
        proof {
            assert forall|j: int|
                0 <= j < all.len() && all[j].0 != pages_id && all[j].0 != catalog_id
                implies assoc_lookup(cur_c, #[trigger] all[j].0) == Some(
                carried_object(all[j], pages_id),
            ) by {
                assert(out@.lookup(all[j].0) == Some(carried_object(all[j], pages_id)));
            }
            assert forall|l: int|
                0 <= l < pv_spec.len() implies (assoc_lookup(cur_c, #[trigger] pv_spec[l])
                matches Some(v) && parent_points(v, pages_id)) by {
                assert(out@.lookup(pv_spec[l]) matches Some(v) && parent_points(v, pages_id));
            }
            assert(assoc_lookup(cur_c, pages_id) == Some(ObjView::Dictionary(pages_final)));
            assert(forall|j: int| 0 <= j < all.len() ==> cur_c[j].0 == all[j].0);
            assert(cur_c.len() == all.len());
        }
        out.insert_object(catalog_id, Object::Dictionary(catalog_dict));
        proof {
            lemma_assoc_set(cur_c, catalog_id, ObjView::Dictionary(cdv));
            assert(out@.lookup(catalog_id) == Some(ObjView::Dictionary(cdv)));
            assert(out@.lookup(pages_id) == assoc_lookup(cur_c, pages_id));
            assert forall|l: int|
                0 <= l < pv_spec.len() implies (#[trigger] out@.lookup(pv_spec[l]) matches Some(
                v,
            ) && parent_points(v, pages_id)) by {
                assert(pv_spec[l] != catalog_id);
                assert(out@.lookup(pv_spec[l]) == assoc_lookup(cur_c, pv_spec[l]));
            }
            assert forall|j: int|
                0 <= j < all.len() && all[j].0 != pages_id && all[j].0 != catalog_id
                implies #[trigger] out@.lookup(all[j].0) == Some(
                carried_object(all[j], pages_id),
            ) by {
                assert(out@.lookup(all[j].0) == assoc_lookup(cur_c, all[j].0));
            }
            let jc = first_kind_index(all, NodeKind::Catalog);
            assert(cur_c[jc].0 == catalog_id);
            assert(assoc_has(cur_c, catalog_id));
            crate::assoc::lemma_assoc_characterization(cur_c, catalog_id);
            let fki_c = crate::assoc::assoc_first_index(cur_c, catalog_id);
            assert(out@.objects == cur_c.update(fki_c, (catalog_id, ObjView::Dictionary(cdv))));
            assert forall|x: int|
                0 <= x < out@.objects.len() implies #[trigger] out@.objects[x].0
                == cur_c[x].0 by {
                if x != fki_c {
                    assert(out@.objects[x] == cur_c[x]);
                } else {
                    assert(cur_c[fki_c].0 == catalog_id);
                }
            }
            assert forall|x1: int, x2: int|
                0 <= x1 < x2 < out@.objects.len() implies out@.objects[x1].0
                != out@.objects[x2].0 by {
                lemma_no_key_collision(all, x1, x2);
            }
            assert(out@.wf());
        }
        let ghost cur_t = out@.objects;
        proof {
            assert(assoc_lookup(cur_t, pages_id) == Some(ObjView::Dictionary(pages_final)));
            assert forall|l: int|
                0 <= l < pv_spec.len() implies (assoc_lookup(cur_t, #[trigger] pv_spec[l])
                matches Some(v) && parent_points(v, pages_id)) by {
                assert(out@.lookup(pv_spec[l]) matches Some(v) && parent_points(v, pages_id));
            }
            assert forall|j: int|
                0 <= j < all.len() && all[j].0 != pages_id && all[j].0 != catalog_id
                implies assoc_lookup(cur_t, #[trigger] all[j].0) == Some(
                carried_object(all[j], pages_id),
            ) by {
                assert(out@.lookup(all[j].0) == Some(carried_object(all[j], pages_id)));
            }
            assert(assoc_lookup(cur_t, catalog_id) == Some(ObjView::Dictionary(cdv)));
        }
        out.trailer.insert("Root", Object::Reference(catalog_id));
        proof {
            assert(out@.objects == cur_t);
            assert(out@.lookup(pages_id) == Some(ObjView::Dictionary(pages_final)));
            assert(out@.lookup(catalog_id) == Some(ObjView::Dictionary(cdv)));
            assert forall|l: int|
                0 <= l < pv_spec.len() implies (#[trigger] out@.lookup(pv_spec[l]) matches Some(
                v,
            ) && parent_points(v, pages_id)) by {
                assert(out@.lookup(pv_spec[l]) == assoc_lookup(cur_t, pv_spec[l]));
            }
            assert forall|j: int|
                0 <= j < all.len() && all[j].0 != pages_id && all[j].0 != catalog_id
                implies #[trigger] out@.lookup(all[j].0) == Some(
                carried_object(all[j], pages_id),
            ) by {
                assert(out@.lookup(all[j].0) == assoc_lookup(cur_t, all[j].0));
            }
            assert(assoc_lookup(out@.trailer, "Root"@) == Some(ObjView::Reference(catalog_id)));
        }
    }
}

/// Merges reconciled documents into one tree: every object is carried
/// over; the first catalog and first pages root survive with later
/// siblings' attributes folded in; the pages root holds every
/// surviving page of every document, in per-document page order and
/// overall input order, and counts exactly them; every page's parent
/// back-reference is rewritten to the surviving pages root; one
/// navigation entry per contributing document, labeled with its name
/// and targeting its first surviving page, is chained under a fresh
/// outline root replacing all original outlines; and the trailer's
/// root names the surviving catalog.
pub fn merge_into_tree(docs: &Vec<PdfDocument>, names: &Vec<String>) -> (r: Result<
    PdfDocument,
    MergeError,
>)
    requires
        names@.len() == docs@.len(),
        docs@.len() + 2 <= u32::MAX,
        assoc_unique(concat_objects(views_of(docs@))),
        concat_objects(views_of(docs@)).len() <= u32::MAX,
        forall|j: int|
            0 <= j < concat_objects(views_of(docs@)).len()
                ==> #[trigger] concat_objects(views_of(docs@))[j].0.num + docs@.len() + 2
                <= u32::MAX,
    ensures
        ({
            let ds = views_of(docs@);
            let all = concat_objects(ds);
            let pv = all_pages(ds);
            let bms = spec_bookmarks(ds, name_views(names@));
            match r {
                Ok(out) => merged_tree(ds, name_views(names@), out@),
                Err(e) => {
                    ||| (e == MergeError::MissingCatalog && !has_kind(all, NodeKind::Catalog))
                    ||| (e == MergeError::MissingPages && has_kind(all, NodeKind::Catalog)
                        && !has_kind(all, NodeKind::Pages))
                },
            }
        }),
{
    let ghost ds = views_of(docs@);
    let ghost all = concat_objects(ds);
    let ghost pv_spec = all_pages(ds);
    let ghost nvs = name_views(names@);
    let ghost bms = spec_bookmarks(ds, nvs);

    let mut out = PdfDocument::with_version("1.7");
    let mut page_vec: Vec<ObjectId> = Vec::new();
    let mut marks_names: Vec<(String, ObjectId)> = Vec::new();
    proof {
        assert(concat_objects(ds.take(0)) =~= Seq::<(ObjectId, ObjView)>::empty());
        assert(all_pages(ds.take(0)) =~= Seq::<ObjectId>::empty());
        assert(spec_bookmarks(ds.take(0), nvs.take(0)) =~= Seq::<(Seq<char>, ObjectId)>::empty());
        assert(view_graph(out.objects@) =~= Seq::<(ObjectId, ObjView)>::empty());
        lemma_bookmarks_len(ds, nvs);
        lemma_all_pages_len(ds);
    }
    let mut k: usize = 0;
    while k < docs.len()
        invariant
            k <= docs.len(),
            ds == views_of(docs@),
            nvs == name_views(names@),
            ds.len() == docs@.len(),
            names@.len() == docs@.len(),
            forall|k2: int| 0 <= k2 < ds.len() ==> ds[k2] == docs@[k2]@,
            view_graph(out.objects@) == concat_objects(ds.take(k as int)),
            view_graph(out.objects@).len() == out.objects@.len(),
            forall|j: int|
                0 <= j < out.objects@.len() ==> view_graph(out.objects@)[j] == (
                    out.objects@[j].0,
                    out.objects@[j].1.ov(),
                ),
            page_vec@ == all_pages(ds.take(k as int)),
            spec_bookmarks(ds.take(k as int), nvs.take(k as int)) == Seq::new(
                marks_names@.len(),
                |i: int| (marks_names@[i].0@, marks_names@[i].1),
            ),
            out@.trailer =~= Seq::<(Seq<char>, ObjView)>::empty(),
            out@.version == "1.7"@,
        decreases docs.len() - k,
    {
        proof {
            assert(ds.take(k + 1).drop_last() =~= ds.take(k as int));
            assert(ds.take(k + 1).last() == ds[k as int]);
            assert(nvs.take(k + 1).drop_last() =~= nvs.take(k as int));
            assert(nvs.take(k + 1).last() == nvs[k as int]);
        }
        let mut pl = docs[k].page_list();
        if pl.len() > 0 {
            let ghost prev_mn = marks_names@;
            marks_names.push((names[k].clone(), pl[0]));
            proof {
                assert(spec_bookmarks(ds.take(k + 1), nvs.take(k + 1)) =~= Seq::new(
                    marks_names@.len(),
                    |i: int| (marks_names@[i].0@, marks_names@[i].1),
                ));
            }
        } else {
            proof {
                assert(spec_bookmarks(ds.take(k + 1), nvs.take(k + 1)) == spec_bookmarks(
                    ds.take(k as int),
                    nvs.take(k as int),
                ));
            }
        }
        page_vec.append(&mut pl);
        proof {
            assert(page_vec@ =~= all_pages(ds.take(k + 1)));
        }
        let ghost pre_entries = out.objects@;
        proof {
            lemma_view_graph(docs@[k as int].objects@);
        }
        let mut i: usize = 0;
        while i < docs[k].objects.len()
            invariant
                i <= docs[k as int].objects.len(),
                k < docs@.len(),
                ds.len() == docs@.len(),
                forall|k2: int| 0 <= k2 < ds.len() ==> ds[k2] == docs@[k2]@,
                ds[k as int].objects.len() == docs@[k as int].objects@.len(),
                forall|j: int|
                    0 <= j < docs@[k as int].objects@.len() ==> ds[k as int].objects[j] == (
                        docs@[k as int].objects@[j].0,
                        docs@[k as int].objects@[j].1.ov(),
                    ),
                view_graph(out.objects@).len() == out.objects@.len(),
                forall|j: int|
                    0 <= j < out.objects@.len() ==> view_graph(out.objects@)[j] == (
                        out.objects@[j].0,
                        out.objects@[j].1.ov(),
                    ),
                view_graph(out.objects@) == concat_objects(ds.take(k as int)) + ds[k as int].objects.take(i as int),
                out@.trailer =~= Seq::<(Seq<char>, ObjView)>::empty(),
                out@.version == "1.7"@,
            decreases docs[k as int].objects.len() - i,
        {
            let ghost prev = out.objects@;
            let id = docs[k].objects[i].0;
            let ov = docs[k].objects[i].1.clone();
            out.objects.push((id, ov));
            proof {
                lemma_view_graph(out.objects@);
                lemma_view_graph(prev);
                assert forall|j: int|
                    0 <= j < prev.len() implies view_graph(out.objects@)[j] == view_graph(
                    prev,
                )[j] by {
                    assert(out.objects@[j] == prev[j]);
                }
                assert(view_graph(out.objects@)[prev.len() as int] == (
                    out.objects@[prev.len() as int].0,
                    out.objects@[prev.len() as int].1.ov(),
                ));
                assert(view_graph(out.objects@)[prev.len() as int] == ds[k as int].objects[i as int]);
                let clen = concat_objects(ds.take(k as int)).len();
                assert forall|j: int|
                    0 <= j < view_graph(out.objects@).len() implies view_graph(out.objects@)[j]
                    == (concat_objects(ds.take(k as int)) + ds[k as int].objects.take(i + 1))[j] by {
                    if j < prev.len() {
                        assert(view_graph(out.objects@)[j] == view_graph(prev)[j]);
                        assert(view_graph(prev)[j] == (concat_objects(ds.take(k as int)) + ds[
                            k as int
                        ].objects.take(i as int))[j]);
                        if j >= clen {
                            assert(ds[k as int].objects.take(i as int)[j - clen] == ds[
                                k as int
                            ].objects[j - clen]);
                            assert(ds[k as int].objects.take(i + 1)[j - clen] == ds[
                                k as int
                            ].objects[j - clen]);
                        }
                    } else {
                        assert(j == clen + i);
                        assert(ds[k as int].objects.take(i + 1)[i as int] == ds[
                            k as int
                        ].objects[i as int]);
                    }
                }
                assert(view_graph(out.objects@) =~= concat_objects(ds.take(k as int)) + ds[
                    k as int
                ].objects.take(i + 1));
            }
            i += 1;
        }
        proof {
            assert(ds[k as int].objects.take(ds[k as int].objects.len() as int) =~= ds[
                k as int
            ].objects);
            assert(view_graph(out.objects@) == concat_objects(ds.take(k + 1))) by {
                assert(concat_objects(ds.take(k + 1)) == concat_objects(ds.take(k as int)) + ds[
                    k as int
                ].objects);
            }
        }
        k += 1;
    }
    proof {
        assert(ds.take(ds.len() as int) =~= ds);
        assert(nvs.take(nvs.len() as int) =~= nvs);
        assert(view_graph(out.objects@) == all);
        assert(page_vec@ == pv_spec);
        assert(out@.objects == all);
    }

    let catalog = scan_survivors(&out, NodeKind::Catalog);
    let (catalog_id, catalog_dict_base) = match catalog {
        Some(x) => x,
        None => {
            return Err(MergeError::MissingCatalog);
        },
    };
    let mut catalog_dict = catalog_dict_base;
    let pages = scan_survivors(&out, NodeKind::Pages);
    let (pages_id, pages_dict_base) = match pages {
        Some(x) => x,
        None => {
            return Err(MergeError::MissingPages);
        },
    };
    let mut pages_dict = pages_dict_base;
    proof {
        lemma_merge_preparation(ds, catalog_id, pages_id);
        assert(pv_spec == page_ids_of(all));
    }

    let mut i: usize = 0;
    while i < page_vec.len()
        invariant
            i <= page_vec.len(),
            page_vec@ == pv_spec,
            pv_spec.len() <= u32::MAX,
            forall|i2: int|
                0 <= i2 < pv_spec.len() ==> (assoc_lookup(all, #[trigger] pv_spec[i2]) matches Some(
                    v,
                ) && spec_kind(v) == NodeKind::Page && pv_spec[i2] != pages_id && pv_spec[i2]
                    != catalog_id),
            out@.objects.len() == all.len(),
            forall|j: int| 0 <= j < all.len() ==> out@.objects[j].0 == all[j].0,
            forall|id: ObjectId|
                !pv_spec.take(i as int).contains(id) ==> out@.lookup(id) == assoc_lookup(
                    all,
                    id,
                ),
            forall|i1: int, i2: int|
                0 <= i1 < i2 < pv_spec.len() ==> pv_spec[i1] != pv_spec[i2],
            forall|l: int|
                0 <= l < i ==> #[trigger] out@.lookup(pv_spec[l]) == Some(
                    set_parent_view(assoc_lookup(all, pv_spec[l])->Some_0, pages_id),
                ),
            out@.trailer =~= Seq::<(Seq<char>, ObjView)>::empty(),
            out@.version == "1.7"@,
        decreases page_vec.len() - i,
    {
        let pid_i = page_vec[i];
        let ghost pre_objs = out@.objects;
        proof {
            assert(!pv_spec.take(i as int).contains(pid_i)) by {
                if pv_spec.take(i as int).contains(pid_i) {
                    let l = choose|l: int| 0 <= l < i && pv_spec.take(i as int)[l] == pid_i;
                    assert(pv_spec[l] == pv_spec[i as int]);
                }
            }
            assert(out@.lookup(pid_i) == assoc_lookup(all, pid_i));
            assert(assoc_lookup(all, pid_i) matches Some(v) && spec_kind(v) == NodeKind::Page);
        }
        let rebuilt: Object = match out.get_object(pid_i) {
            Some(obj) => set_parent_object(obj, pages_id),
            None => {
                proof {
                    assert(false);
                }
                Object::Null
            },
        };
        proof {
            assert(rebuilt@ == set_parent_view(assoc_lookup(all, pid_i)->Some_0, pages_id));
        }
        out.insert_object(pid_i, rebuilt);
        proof {
            lemma_assoc_set(pre_objs, pid_i, rebuilt@);
            crate::assoc::lemma_assoc_characterization(pre_objs, pid_i);
            assert(assoc_lookup(pre_objs, pid_i) is Some);
            assert(assoc_has(pre_objs, pid_i)) by {
                if !assoc_has(pre_objs, pid_i) {
                }
            }
            let fki = crate::assoc::assoc_first_index(pre_objs, pid_i);
            assert(out@.objects == pre_objs.update(fki, (pid_i, rebuilt@)));
            assert(pre_objs[fki].0 == pid_i);
            assert forall|j: int| 0 <= j < all.len() implies out@.objects[j].0 == all[j].0 by {
                if j != fki {
                    assert(out@.objects[j] == pre_objs[j]);
                }
            }
            assert(pv_spec.take(i + 1).drop_last() =~= pv_spec.take(i as int));
            assert forall|id: ObjectId|
                !pv_spec.take(i + 1).contains(id) implies out@.lookup(id) == assoc_lookup(
                all,
                id,
            ) by {
                assert(!pv_spec.take(i as int).contains(id));
                assert(id != pid_i) by {
                    assert(pv_spec.take(i + 1)[i as int] == pv_spec[i as int]);
                }
            }
            assert forall|l: int|
                0 <= l < i + 1 implies #[trigger] out@.lookup(pv_spec[l]) == Some(
                set_parent_view(assoc_lookup(all, pv_spec[l])->Some_0, pages_id),
            ) by {
                if l == i {
                    assert(out@.lookup(pid_i) == Some(rebuilt@));
                } else {
                    assert(pv_spec[l] != pid_i);
                    assert(out@.lookup(pv_spec[l]) == assoc_lookup(pre_objs, pv_spec[l]));
                }
            }
        }
        i += 1;
    }
    proof {
        assert(pv_spec.take(pv_spec.len() as int) =~= pv_spec);
        assert forall|id: ObjectId| !pv_spec.contains(id) implies out@.lookup(id)
            == assoc_lookup(all, id) by {
            assert(!pv_spec.take(pv_spec.len() as int).contains(id));
        }
        lemma_carryover_after_parenting(all, pv_spec, pages_id, catalog_id, out@);
    }

    let n_pages = page_vec.len();
    pages_dict.insert("Count", Object::Integer(n_pages as i64));
    let mut kids: Vec<Object> = Vec::new();
    let mut ki: usize = 0;
    while ki < page_vec.len()
        invariant
            ki <= page_vec.len(),
            page_vec@ == pv_spec,
            kids@.len() == ki,
            forall|j: int| 0 <= j < ki ==> kids@[j] == Object::Reference(pv_spec[j]),
        decreases page_vec.len() - ki,
    {
        kids.push(Object::Reference(page_vec[ki]));
        ki += 1;
    }
    proof {
        crate::objects::lemma_view_obj_seq(kids@);
        assert forall|j: int|
            0 <= j < kids@.len() implies crate::objects::view_obj_seq(kids@)[j] == refs_seq(
            pv_spec,
        )[j] by {
            assert(kids@[j] == Object::Reference(pv_spec[j]));
        }
        assert(crate::objects::view_obj_seq(kids@) =~= refs_seq(pv_spec));
    }
    pages_dict.insert("Kids", Object::Array(kids));
    let ghost pages_final = assoc_set(
        assoc_set(
            fold_kind_from(all, NodeKind::Pages, Seq::empty()),
            "Count"@,
            ObjView::Integer(pv_spec.len() as i64),
        ),
        "Kids"@,
        ObjView::Array(refs_seq(pv_spec)),
    );
    proof {
        assert(pages_dict@ == pages_final);
    }
    let ghost pre_objs4 = out@.objects;
    proof {
        assert forall|l: int|
            0 <= l < pv_spec.len() implies (assoc_lookup(pre_objs4, #[trigger] pv_spec[l])
            matches Some(v) && parent_points(v, pages_id)) by {
            assert(out@.lookup(pv_spec[l]) matches Some(v) && parent_points(v, pages_id));
        }
        assert forall|j: int|
            0 <= j < all.len() && all[j].0 != pages_id && all[j].0 != catalog_id
            implies assoc_lookup(pre_objs4, #[trigger] all[j].0) == Some(
            carried_object(all[j], pages_id),
        ) by {
            assert(out@.lookup(all[j].0) == Some(carried_object(all[j], pages_id)));
        }
    }
    out.insert_object(pages_id, Object::Dictionary(pages_dict));
    proof {
        lemma_assoc_set(pre_objs4, pages_id, ObjView::Dictionary(pages_final));
        let jp = first_kind_index(all, NodeKind::Pages);
        assert(pre_objs4[jp].0 == all[jp].0);
        assert(assoc_has(pre_objs4, pages_id));
        crate::assoc::lemma_assoc_characterization(pre_objs4, pages_id);
        let fki = crate::assoc::assoc_first_index(pre_objs4, pages_id);
        assert(out@.objects == pre_objs4.update(fki, (pages_id, ObjView::Dictionary(pages_final))));
        assert forall|j: int| 0 <= j < all.len() implies out@.objects[j].0 == all[j].0 by {
            if j != fki {
                assert(out@.objects[j] == pre_objs4[j]);
            }
        }
        assert(out@.lookup(pages_id) == Some(ObjView::Dictionary(pages_final)));
        assert forall|l: int|
            0 <= l < pv_spec.len() implies (#[trigger] out@.lookup(pv_spec[l]) matches Some(v)
            && parent_points(v, pages_id)) by {
            assert(pv_spec[l] != pages_id);
            assert(out@.lookup(pv_spec[l]) == assoc_lookup(pre_objs4, pv_spec[l]));
        }
        assert(out@.lookup(catalog_id) == assoc_lookup(pre_objs4, catalog_id)) by {
            assert(catalog_id != pages_id);
        }
        assert forall|j: int|
            0 <= j < all.len() && all[j].0 != pages_id && all[j].0 != catalog_id
            implies #[trigger] out@.lookup(all[j].0) == Some(
            carried_object(all[j], pages_id),
        ) by {
            assert(out@.lookup(all[j].0) == assoc_lookup(pre_objs4, all[j].0));
        }
    }
    let m = marks_names.len();
    proof {
        assert(m == bms.len());
        lemma_bookmarks_len(ds, nvs);
        assert(m <= docs@.len());
    }
    let maxn = out.max_num();
    proof {
        if maxn != 0 {
            let w = choose|w: int|
                0 <= w < out@.objects.len() && out@.objects[w].0.num == maxn;
            assert(out@.objects[w].0 == all[w].0);
            assert(all[w].0.num + docs@.len() + 2 <= u32::MAX);
        }
        assert(maxn + m + 2 <= u32::MAX);
        assert forall|j: int| 0 <= j < all.len() implies all[j].0.num <= maxn by {
            assert(out@.objects[j].0 == all[j].0);
        }
    }
    attach_navigation(
        &mut out,
        catalog_dict,
        catalog_id,
        pages_id,
        marks_names,
        maxn,
        Ghost(all),
        Ghost(pv_spec),
        Ghost(bms),
        Ghost(pages_final),
    );
    proof {
        assert(merged_tree(ds, name_views(names@), out@));
    }
    Ok(out)

}

/// Count invariant: in a merged document the pages root's count
/// equals the length of its kids array, and both equal the number of
/// surviving page leaves across all documents.
pub proof fn lemma_count_invariant(ds: Seq<DocView>, nvs: Seq<Seq<char>>, d: DocView)
    requires
        merged_tree(ds, nvs, d),
    ensures
        ({
            let all = concat_objects(ds);
            let pid = all[first_kind_index(all, NodeKind::Pages)].0;
            d.lookup(pid) matches Some(pv_obj) && pv_obj matches ObjView::Dictionary(pd)
                && (assoc_lookup(pd, "Kids"@) matches Some(kv) && kv matches ObjView::Array(kids)
                && assoc_lookup(pd, "Count"@) == Some(
                ObjView::Integer(kids.len() as i64),
            ) && kids.len() == all_pages(ds).len())
        }),
{
    let all = concat_objects(ds);
    let pv = all_pages(ds);
    let folded = fold_kind_from(all, NodeKind::Pages, Seq::empty());
    let with_count = assoc_set(folded, "Count"@, ObjView::Integer(pv.len() as i64));
    let with_kids = assoc_set(with_count, "Kids"@, ObjView::Array(refs_seq(pv)));
    reveal_strlit("Kids");
    reveal_strlit("Count");
    assert("Kids"@.len() == 4);
    assert("Count"@.len() == 5);
    lemma_assoc_set(with_count, "Kids"@, ObjView::Array(refs_seq(pv)));
    lemma_assoc_set(folded, "Count"@, ObjView::Integer(pv.len() as i64));
    assert(assoc_lookup(with_kids, "Kids"@) == Some(ObjView::Array(refs_seq(pv))));
    assert(assoc_lookup(with_kids, "Count"@) == Some(ObjView::Integer(pv.len() as i64)));
    assert(refs_seq(pv).len() == pv.len());
}

/// Under unique keys, two distinct entry positions carry distinct
/// identities.
pub proof fn lemma_no_key_collision(s: Seq<(ObjectId, ObjView)>, j1: int, j2: int)
    requires
        assoc_unique(s),
        0 <= j1 < s.len(),
        0 <= j2 < s.len(),
        j1 != j2,
    ensures
        s[j1].0 != s[j2].0,
{
}


/// Where document `k`'s entries start inside the combined list.
pub open spec fn concat_offset(ds: Seq<DocView>, k: int) -> int {
    concat_objects(ds.take(k)).len() as int
}

/// Every position of the combined list reads the corresponding entry
/// of one document.
pub proof fn lemma_concat_position(ds: Seq<DocView>, x: int)
    requires
        0 <= x < concat_objects(ds).len(),
    ensures
        exists|k: int|
            0 <= k < ds.len() && concat_offset(ds, k) <= x < concat_offset(ds, k)
                + ds[k].objects.len() && #[trigger] concat_objects(ds)[x] == ds[k].objects[x
                - concat_offset(ds, k)],
    decreases ds.len(),
{
    if ds.len() > 0 {
        let prefix = concat_objects(ds.drop_last());
        if x < prefix.len() {
            lemma_concat_position(ds.drop_last(), x);
            let k = choose|k: int|
                0 <= k < ds.drop_last().len() && concat_offset(ds.drop_last(), k) <= x
                    < concat_offset(ds.drop_last(), k) + ds.drop_last()[k].objects.len()
                    && #[trigger] concat_objects(ds.drop_last())[x] == ds.drop_last()[k].objects[x
                    - concat_offset(ds.drop_last(), k)];
            assert(ds.drop_last().take(k) =~= ds.take(k));
            assert(ds.drop_last()[k] == ds[k]);
            assert(concat_objects(ds)[x] == prefix[x]);
            assert(concat_offset(ds, k) == concat_offset(ds.drop_last(), k));
            assert(concat_objects(ds)[x] == ds[k].objects[x - concat_offset(ds, k)]);
        } else {
            let k = ds.len() - 1;
            assert(ds.take(k) =~= ds.drop_last());
            assert(concat_objects(ds)[x] == ds.last().objects[x - prefix.len()]);
            assert(ds[k] == ds.last());
            assert(concat_offset(ds, k) == prefix.len());
            assert(concat_objects(ds)[x] == ds[k].objects[x - concat_offset(ds, k)]);
        }
    }
}

/// When no two entries of any documents share an identity, the
/// combined list has unique keys.
pub proof fn lemma_concat_unique(ds: Seq<DocView>)
    requires
        forall|k1: int, j1: int, k2: int, j2: int|
            0 <= k1 < ds.len() && 0 <= j1 < ds[k1].objects.len() && 0 <= k2 < ds.len() && 0 <= j2
                < ds[k2].objects.len() && (k1 != k2 || j1 != j2) ==> ds[k1].objects[j1].0
                != ds[k2].objects[j2].0,
    ensures
        assoc_unique(concat_objects(ds)),
{
    let all = concat_objects(ds);
    assert forall|x1: int, x2: int| 0 <= x1 < x2 < all.len() implies all[x1].0 != all[x2].0 by {
        lemma_concat_position(ds, x1);
        lemma_concat_position(ds, x2);
        let k1 = choose|k: int|
            0 <= k < ds.len() && concat_offset(ds, k) <= x1 < concat_offset(ds, k)
                + ds[k].objects.len() && #[trigger] concat_objects(ds)[x1] == ds[k].objects[x1
                - concat_offset(ds, k)];
        let k2 = choose|k: int|
            0 <= k < ds.len() && concat_offset(ds, k) <= x2 < concat_offset(ds, k)
                + ds[k].objects.len() && #[trigger] concat_objects(ds)[x2] == ds[k].objects[x2
                - concat_offset(ds, k)];
        if k1 == k2 {
            assert(x1 - concat_offset(ds, k1) != x2 - concat_offset(ds, k2));
        }
    }
}

/// The combined length, counted through the running counter: the
/// counter after `k` documents exceeds their combined length by
/// `k + 1`.
pub proof fn lemma_base_counter_concat(ds: Seq<DocView>, k: int)
    requires
        0 <= k <= ds.len(),
    ensures
        crate::reconcile::base_counter(crate::reconcile::doc_lens(ds), k) == 1 + k
            + concat_objects(ds.take(k)).len(),
    decreases k,
{
    if k > 0 {
        lemma_base_counter_concat(ds, k - 1);
        assert(ds.take(k).drop_last() =~= ds.take(k - 1));
        assert(ds.take(k).last() == ds[k - 1]);
        assert(crate::reconcile::doc_lens(ds)[k - 1] == ds[k - 1].objects.len());
    }
}


/// The combined page list is the page-classified entries of the
/// combined graph, in order.
pub proof fn lemma_all_pages_is_page_ids(ds: Seq<DocView>)
    ensures
        all_pages(ds) == page_ids_of(concat_objects(ds)),
    decreases ds.len(),
{
    reveal(Seq::filter);
    if ds.len() == 0 {
        assert(concat_objects(ds).filter(
            |e: (ObjectId, ObjView)| spec_kind(e.1) == NodeKind::Page,
        ) =~= Seq::<(ObjectId, ObjView)>::empty());
        assert(all_pages(ds) =~= page_ids_of(concat_objects(ds)));
    } else {
        lemma_all_pages_is_page_ids(ds.drop_last());
        let pred = |e: (ObjectId, ObjView)| spec_kind(e.1) == NodeKind::Page;
        let a = concat_objects(ds.drop_last());
        let b = ds.last().objects;
        Seq::filter_distributes_over_add(a, b, pred);
        assert(concat_objects(ds) == a + b);
        let fa = a.filter(pred);
        let fb = b.filter(pred);
        assert((a + b).filter(pred) == fa + fb);
        assert((fa + fb).map_values(|e: (ObjectId, ObjView)| e.0) =~= fa.map_values(
            |e: (ObjectId, ObjView)| e.0,
        ) + fb.map_values(|e: (ObjectId, ObjView)| e.0)) by {
            assert(forall|j: int| 0 <= j < fa.len() ==> (fa + fb)[j] == fa[j]);
            assert(forall|j: int|
                fa.len() <= j < (fa + fb).len() ==> (fa + fb)[j] == fb[j - fa.len()]);
        }
        assert(all_pages(ds) == all_pages(ds.drop_last()) + ds.last().page_ids());
        assert(page_ids_of(concat_objects(ds)) == all_pages(ds));
    }
}

/// In a graph with unique identities, the page list repeats none, and
/// each page identity is the key of exactly its own page entry.
pub proof fn lemma_page_ids_of_unique(g: Seq<(ObjectId, ObjView)>)
    requires
        assoc_unique(g),
    ensures
        forall|i1: int, i2: int|
            0 <= i1 < i2 < page_ids_of(g).len() ==> page_ids_of(g)[i1] != page_ids_of(g)[i2],
        forall|i: int|
            0 <= i < page_ids_of(g).len() ==> (#[trigger] assoc_lookup(g, page_ids_of(g)[i])
                matches Some(v) && spec_kind(v) == NodeKind::Page),
        forall|j: int|
            0 <= j < g.len() && spec_kind(#[trigger] g[j].1) == NodeKind::Page
                ==> page_ids_of(g).contains(g[j].0),
{
    let pred = |e: (ObjectId, ObjView)| spec_kind(e.1) == NodeKind::Page;
    let fl = g.filter(pred);
    crate::assoc::lemma_filter_preserves_unique(g, pred);
    assert(page_ids_of(g) == fl.map_values(|e: (ObjectId, ObjView)| e.0));
    assert forall|i1: int, i2: int|
        0 <= i1 < i2 < page_ids_of(g).len() implies page_ids_of(g)[i1] != page_ids_of(
        g,
    )[i2] by {
        assert(fl[i1].0 != fl[i2].0);
    }
    assert forall|i: int|
        0 <= i < page_ids_of(g).len() implies (#[trigger] assoc_lookup(g, page_ids_of(g)[i])
        matches Some(v) && spec_kind(v) == NodeKind::Page) by {
        crate::assoc::lemma_filter_elem_member(g, pred, i);
        let w = choose|w: int| 0 <= w < g.len() && g[w] == fl[i];
        g.lemma_filter_pred(pred, i);
        assert(g[w].0 == page_ids_of(g)[i] && spec_kind(g[w].1) == NodeKind::Page);
        crate::assoc::lemma_assoc_unique_lookup(g, w);
    }
    assert forall|j: int|
        0 <= j < g.len() && spec_kind(#[trigger] g[j].1) == NodeKind::Page implies page_ids_of(
        g,
    ).contains(g[j].0) by {
        g.lemma_filter_contains(pred, j);
        assert(fl.contains(g[j]));
        let i = choose|i: int| 0 <= i < fl.len() && fl[i] == g[j];
        assert(page_ids_of(g)[i] == g[j].0);
    }
}

} // verus!
