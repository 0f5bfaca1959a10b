//! The merge orchestrator's decision core: the per-document
//! normalization pipeline, the sequential merge of the collected
//! documents, and the state machine that drives one merge operation
//! from invocation to its single terminal signal.

use vstd::prelude::*;

use crate::assoc::{assoc_has, assoc_lookup, assoc_remove, assoc_set, lemma_assoc_set};
use crate::compact::{doc_root, lemma_compact_preserves_lookup, lemma_reach_through_dict,
    reachable, reaches, spec_compact};
use crate::errors::MergeError;
use crate::graph::{DocView, PdfDocument, page_ids_of};
use crate::merge::{all_pages, carried_object, concat_objects, concat_offset, first_kind_index,
    fold_kind_from, has_kind, lemma_base_counter_concat, lemma_concat_position,
    lemma_concat_unique, lemma_first_kind_found, lemma_merge_preparation, merge_into_tree,
    merged_tree, name_views, outline_entry_id, outline_entry_view, outline_root_view, refs_seq,
    set_parent_view, spec_bookmarks};
use crate::normalize::{backfill_geometry, delete_pages, extract_page_texts, marked_ids,
    plan_duplicate_removals, select_marked, sim_marks, spec_backfill, spec_delete_pages};
use crate::objects::{NodeKind, ObjView, ObjectId, spec_kind};
use crate::reconcile::{base_counter, doc_compact, doc_lens, reconcile_documents, renumber_table,
    lemma_identity_uniqueness, spec_renumber, views_of};
use crate::remap::{lemma_entry_ref_member, remap_view_entries};

verus! {

/// Where one merge operation stands.
#[derive(Clone, Copy, PartialEq, Eq, Structural, Debug)]
pub enum MergeStatus {
    Idle,
    Loading { pending: usize },
    Merging,
    Done,
    Failed(MergeError),
}

/// What the collaborator reports to the decision core.
#[derive(Clone, Copy, PartialEq, Eq, Structural, Debug)]
pub enum MergeEvent {
    Begin { inputs: usize },
    LoadFinished,
    LoadFailed(MergeError),
    MergeFinished,
    MergeFailed(MergeError),
}

/// What the collaborator is told to do next.
#[derive(Clone, Copy, PartialEq, Eq, Structural, Debug)]
pub enum MergeAction {
    Nothing,
    StartLoads,
    StartMerge,
    ReportDone,
    ReportFailure,
}

/// The orchestrator's transition relation: loading starts on a
/// non-empty invocation; the merge starts only once every load has
/// finished; the first failure is terminal; terminal states absorb
/// every further event and emit nothing more.
pub open spec fn spec_advance(s: MergeStatus, e: MergeEvent) -> (MergeStatus, MergeAction) {
    match (s, e) {
        (MergeStatus::Idle, MergeEvent::Begin { inputs }) => if inputs == 0 {
            (MergeStatus::Idle, MergeAction::Nothing)
        } else {
            (MergeStatus::Loading { pending: inputs }, MergeAction::StartLoads)
        },
        (MergeStatus::Loading { pending }, MergeEvent::LoadFinished) => if pending <= 1 {
            (MergeStatus::Merging, MergeAction::StartMerge)
        } else {
            (MergeStatus::Loading { pending: (pending - 1) as usize }, MergeAction::Nothing)
        },
        (MergeStatus::Loading { .. }, MergeEvent::LoadFailed(err)) => (
            MergeStatus::Failed(err),
            MergeAction::ReportFailure,
        ),
        (MergeStatus::Merging, MergeEvent::MergeFinished) => (
            MergeStatus::Done,
            MergeAction::ReportDone,
        ),
        (MergeStatus::Merging, MergeEvent::MergeFailed(err)) => (
            MergeStatus::Failed(err),
            MergeAction::ReportFailure,
        ),
        (MergeStatus::Done, _) => (MergeStatus::Done, MergeAction::Nothing),
        (MergeStatus::Failed(err), _) => (MergeStatus::Failed(err), MergeAction::Nothing),
        _ => (s, MergeAction::Nothing),
    }
}

/// One step of the orchestrator.
pub fn advance(s: MergeStatus, e: MergeEvent) -> (r: (MergeStatus, MergeAction))
    ensures
        r == spec_advance(s, e),
{
    match (s, e) {
        (MergeStatus::Idle, MergeEvent::Begin { inputs }) => if inputs == 0 {
            (MergeStatus::Idle, MergeAction::Nothing)
        } else {
            (MergeStatus::Loading { pending: inputs }, MergeAction::StartLoads)
        },
        (MergeStatus::Loading { pending }, MergeEvent::LoadFinished) => if pending <= 1 {
            (MergeStatus::Merging, MergeAction::StartMerge)
        } else {
            (MergeStatus::Loading { pending: pending - 1 }, MergeAction::Nothing)
        },
        (MergeStatus::Loading { .. }, MergeEvent::LoadFailed(err)) => (
            MergeStatus::Failed(err),
            MergeAction::ReportFailure,
        ),
        (MergeStatus::Merging, MergeEvent::MergeFinished) => (
            MergeStatus::Done,
            MergeAction::ReportDone,
        ),
        (MergeStatus::Merging, MergeEvent::MergeFailed(err)) => (
            MergeStatus::Failed(err),
            MergeAction::ReportFailure,
        ),
        (MergeStatus::Done, _) => (MergeStatus::Done, MergeAction::Nothing),
        (MergeStatus::Failed(err), _) => (MergeStatus::Failed(err), MergeAction::Nothing),
        _ => (s, MergeAction::Nothing),
    }
}

/// Failure propagation: a failed load anywhere during loading makes
/// the whole operation terminate with that failure; the failed state
/// absorbs every later event, never starts the merge, and never
/// reports completion — so no output is ever written.
pub proof fn lemma_failure_propagation(pending: usize, err: MergeError)
    ensures
        spec_advance(MergeStatus::Loading { pending }, MergeEvent::LoadFailed(err)) == (
            MergeStatus::Failed(err),
            MergeAction::ReportFailure,
        ),
        forall|e: MergeEvent|
            #[trigger] spec_advance(MergeStatus::Failed(err), e) == (
                MergeStatus::Failed(err),
                MergeAction::Nothing,
            ),
        forall|s: MergeStatus, e: MergeEvent|
            (#[trigger] spec_advance(s, e)).1 == MergeAction::ReportDone ==> s
                == MergeStatus::Merging && e == MergeEvent::MergeFinished,
{
}

/// A terminal signal is emitted exactly once: only a transition out
/// of a live state reports, and the terminal states report nothing.
pub proof fn lemma_single_terminal_signal()
    ensures
        forall|e: MergeEvent|
            (#[trigger] spec_advance(MergeStatus::Done, e)) == (
                MergeStatus::Done,
                MergeAction::Nothing,
            ),
        forall|err: MergeError, e: MergeEvent|
            (#[trigger] spec_advance(MergeStatus::Failed(err), e)) == (
                MergeStatus::Failed(err),
                MergeAction::Nothing,
            ),
{
}

/// Normalizes one loaded document: backfills the default page
/// geometry, removes near-duplicate consecutive pages by the
/// adjacent-pair rule over the extracted page texts, and renumbers
/// the graph gap-free.
pub fn normalize_document(
    doc: &mut PdfDocument,
    raw: &lopdf::Document,
    threshold_bits: u64,
    input: usize,
) -> (r: Result<(), MergeError>)
    requires
        old(doc)@.objects.len() < u32::MAX,
    ensures
        page_ids_of(spec_backfill(old(doc)@.objects)).len() == 0 ==> r is Ok,
        r is Err ==> {
            &&& final(doc)@.objects == spec_backfill(old(doc)@.objects)
            &&& final(doc)@.trailer == old(doc)@.trailer
            &&& final(doc)@.version == old(doc)@.version
        },
        match r {
            Ok(_) => exists|texts: Seq<Seq<char>>|
                {
                    let s1 = spec_backfill(old(doc)@.objects);
                    let pages = page_ids_of(s1);
                    let doomed = marked_ids(pages, #[trigger] sim_marks(texts, threshold_bits));
                    let s2 = spec_delete_pages(s1, doomed);
                    &&& texts.len() == pages.len()
                    &&& final(doc)@.objects == spec_renumber(s2)
                    &&& final(doc)@.trailer == remap_view_entries(
                        renumber_table(s2),
                        old(doc)@.trailer,
                    )
                    &&& final(doc)@.version == old(doc)@.version
                    &&& doc_compact(final(doc)@)
                    &&& final(doc)@.wf()
                },
            Err(e) => e == (MergeError::Extract { input }),
        },
{
    backfill_geometry(doc);
    let ghost s1 = doc@.objects;
    proof {
        assert(s1.len() == old(doc)@.objects.len());
    }
    let pl = doc.page_list();
    proof {
        let pred = |e: (ObjectId, ObjView)| spec_kind(e.1) == NodeKind::Page;
        s1.lemma_filter_len(pred);
        assert(pl@.len() <= s1.len());
    }
    let texts = match extract_page_texts(raw, pl.len(), input) {
        Ok(t) => t,
        Err(e) => { return Err(e) },
    };
    let marks = plan_duplicate_removals(&texts, threshold_bits);
    let doomed = select_marked(&pl, &marks);
    let ghost tv = Seq::new(texts@.len(), |i: int| texts@[i]@);
    proof {
        assert(marks@ =~= sim_marks(tv, threshold_bits));
        assert(doomed@ == marked_ids(page_ids_of(s1), sim_marks(tv, threshold_bits)));
    }
    delete_pages(doc, &doomed);
    let ghost s2 = doc@.objects;
    proof {
        let keepp = |e: (ObjectId, ObjView)| crate::normalize::keeps_entry(e, doomed@);
        s1.lemma_filter_len(keepp);
        assert(s2.len() <= s1.len());
    }
    doc.renumber_objects();
    proof {
        let pages = page_ids_of(s1);
        let d2 = marked_ids(pages, sim_marks(tv, threshold_bits));
        assert(tv.len() == pages.len());
        assert(final(doc)@.objects == spec_renumber(spec_delete_pages(s1, d2)));
    }
    Ok(())
}

/// Merges already-normalized documents sequentially: reconciles their
/// identities into one collision-free space, rebuilds the combined
/// tree and navigation outline, and compacts the result by a
/// reachability sweep from the trailer root.
pub fn merge_documents(docs: &mut Vec<PdfDocument>, names: &Vec<String>) -> (r: Result<
    PdfDocument,
    MergeError,
>)
    requires
        names@.len() == old(docs)@.len(),
        forall|k: int| 0 <= k < old(docs)@.len() ==> doc_compact(old(docs)@[k]@),
        base_counter(doc_lens(views_of(old(docs)@)), old(docs)@.len() as int) + old(docs)@.len()
            + 2 <= u32::MAX,
    ensures
        final(docs)@.len() == old(docs)@.len(),
        forall|k: int|
            0 <= k < old(docs)@.len() ==> final(docs)@[k]@.objects
                == crate::reconcile::spec_shift(
                old(docs)@[k]@.objects,
                base_counter(doc_lens(views_of(old(docs)@)), k) as u32,
            ),
        ({
            let ds = views_of(final(docs)@);
            let all = concat_objects(ds);
            match r {
                Ok(out) => ({
                    let pv = all_pages(ds);
                    let bms = spec_bookmarks(ds, name_views(names@));
                    let pid = all[first_kind_index(all, NodeKind::Pages)].0;
                    let cid = all[first_kind_index(all, NodeKind::Catalog)].0;
                    let catrm = assoc_remove(
                        fold_kind_from(all, NodeKind::Catalog, Seq::empty()),
                        "Outlines"@,
                    );
                    &&& out@.wf()
                    &&& (exists|combined: DocView|
                        {
                            &&& #[trigger] merged_tree(ds, name_views(names@), combined)
                            &&& out@.objects == spec_compact(combined.objects, cid)
                            &&& out@.trailer == combined.trailer
                            &&& out@.version == combined.version
                        })
                    &&& out@.lookup(pid) == Some(
                        ObjView::Dictionary(
                            assoc_set(
                                assoc_set(
                                    fold_kind_from(all, NodeKind::Pages, Seq::empty()),
                                    "Count"@,
                                    ObjView::Integer(pv.len() as i64),
                                ),
                                "Kids"@,
                                ObjView::Array(refs_seq(pv)),
                            ),
                        ),
                    )
                    &&& forall|i: int|
                        0 <= i < pv.len() ==> #[trigger] out@.lookup(pv[i]) == Some(
                            set_parent_view(assoc_lookup(all, pv[i])->Some_0, pid),
                        )
                    &&& (bms.len() == 0 ==> out@.lookup(cid) == Some(
                        ObjView::Dictionary(
                            assoc_set(catrm, "Pages"@, ObjView::Reference(pid)),
                        ),
                    ))
                    &&& (bms.len() > 0 ==> (exists|root: ObjectId|
                    {
                        &&& out@.lookup(cid) == Some(
                            ObjView::Dictionary(
                                assoc_set(
                                    assoc_set(catrm, "Pages"@, ObjView::Reference(pid)),
                                    "Outlines"@,
                                    ObjView::Reference(root),
                                ),
                            ),
                        )
                        &&& #[trigger] outline_entry_id(root, 0) == outline_entry_id(root, 0)
                        &&& out@.lookup(root) == Some(
                            ObjView::Dictionary(outline_root_view(bms, root)),
                        )
                        &&& forall|i: int|
                            0 <= i < bms.len() ==> #[trigger] out@.lookup(
                                outline_entry_id(root, i),
                            ) == Some(ObjView::Dictionary(outline_entry_view(bms, root, i)))
                    }))
                }),
                Err(e) => {
                    ||| (e == MergeError::MissingCatalog && !has_kind(all, NodeKind::Catalog))
                    ||| (e == MergeError::MissingPages && has_kind(all, NodeKind::Catalog)
                        && !has_kind(all, NodeKind::Pages))
                },
            }
        }),
{
    let ghost odocs = views_of(old(docs)@);
    let ghost lens = doc_lens(odocs);
    let _next = reconcile_documents(docs);
    proof {
        let rviews = views_of(docs@);
        assert(rviews.len() == odocs.len());
        assert forall|k: int| 0 <= k < doc_lens(rviews).len() implies doc_lens(rviews)[k]
            == lens[k] by {
            assert(rviews[k] == docs@[k]@);
            assert(docs@[k]@.objects == crate::reconcile::spec_shift(
                odocs[k].objects,
                base_counter(lens, k) as u32,
            ));
            assert(rviews[k].objects.len() == odocs[k].objects.len());
        }
        assert(doc_lens(rviews) =~= lens);
        assert forall|k: int, j: int|
            0 <= k < rviews.len() && 0 <= j < rviews[k].objects.len()
                implies #[trigger] rviews[k].objects[j].0.num as int == base_counter(
            doc_lens(rviews),
            k,
        ) + j + 1 by {
            assert(rviews[k] == docs@[k]@);
            assert(docs@[k]@.objects[j].0 == (ObjectId {
                num: (base_counter(lens, k) + j + 1) as u32,
                gen: 0,
            }));
            assert(rviews[k].objects.len() == odocs[k].objects.len());
            assert(lens[k] == odocs[k].objects.len());
            crate::reconcile::lemma_base_counter_monotone(lens, 0, k as int);
            crate::reconcile::lemma_base_counter_monotone(lens, k + 1, odocs.len() as int);
            assert(base_counter(lens, k + 1) == base_counter(lens, k) + lens[k] + 1);
            let x = base_counter(lens, k) + j + 1;
            assert(0 <= x <= u32::MAX);
            assert(rviews[k].objects[j].0.num == x as u32);
            assert(rviews[k].objects[j].0.num as int == x);
            assert(base_counter(doc_lens(rviews), k) == base_counter(lens, k));
        }
        lemma_identity_uniqueness(rviews, lens);
        lemma_concat_unique(rviews);
        lemma_base_counter_concat(rviews, rviews.len() as int);
        assert(rviews.take(rviews.len() as int) =~= rviews);
        assert(concat_objects(rviews).len() + rviews.len() + 1 == base_counter(
            lens,
            rviews.len() as int,
        ));
        assert forall|x: int|
            0 <= x < concat_objects(rviews).len() implies #[trigger] concat_objects(
            rviews,
        )[x].0.num + docs@.len() + 2 <= u32::MAX by {
            lemma_concat_position(rviews, x);
            let k = choose|k: int|
                0 <= k < rviews.len() && concat_offset(rviews, k) <= x < concat_offset(rviews, k)
                    + rviews[k].objects.len() && #[trigger] concat_objects(rviews)[x]
                    == rviews[k].objects[x - concat_offset(rviews, k)];
            let j = x - concat_offset(rviews, k);
            assert(rviews[k].objects[j].0.num as int == base_counter(lens, k) + j + 1);
            lemma_base_counter_concat(rviews, k + 1);
            crate::reconcile::lemma_base_counter_monotone(lens, k + 1, rviews.len() as int);
            lemma_base_counter_concat(rviews, k);
            assert(rviews.take(k + 1).drop_last() =~= rviews.take(k));
            assert(rviews.take(k + 1).last() == rviews[k]);
        }
    }
    let combined = match merge_into_tree(docs, names) {
        Ok(c) => c,
        Err(e) => { return Err(e) },
    };
    let ghost combined_view = combined@;
    let ghost all = concat_objects(views_of(docs@));
    let ghost cid = all[first_kind_index(all, NodeKind::Catalog)].0;
    let mut out = combined;
    proof {
        assert(merged_tree(views_of(docs@), name_views(names@), combined_view));
        assert(assoc_lookup(out@.trailer, "Root"@) == Some(ObjView::Reference(cid)));
        assert(doc_root(out@) == Some(cid));
    }
    out.prune_unreachable();
    proof {
        assert(out@.objects == spec_compact(combined_view.objects, cid));
        assert(out@.trailer == combined_view.trailer);
        assert(out@.version == combined_view.version);
        assert(combined_view.wf());
        crate::assoc::lemma_filter_preserves_unique(
            combined_view.objects,
            |e: (ObjectId, ObjView)| reachable(combined_view.objects, cid, e.0),
        );
        assert(out@.wf());
        let ds2 = views_of(docs@);
        let nvs2 = name_views(names@);
        let g = combined_view.objects;
        let pv = all_pages(ds2);
        let bms = spec_bookmarks(ds2, nvs2);
        let pid = all[first_kind_index(all, NodeKind::Pages)].0;
        assert(merged_tree(ds2, nvs2, combined_view));
        assert(reaches(g, cid, cid, 0));
        assert(reachable(g, cid, cid));
        lemma_compact_preserves_lookup(g, cid, cid);
        assert(out@.lookup(cid) == combined_view.lookup(cid));
        reveal_strlit("Pages");
        reveal_strlit("Outlines");
        assert("Pages"@.len() == 5);
        assert("Outlines"@.len() == 8);
        let catrm = assoc_remove(
            fold_kind_from(all, NodeKind::Catalog, Seq::empty()),
            "Outlines"@,
        );
        let cd_base = assoc_set(catrm, "Pages"@, ObjView::Reference(pid));
        lemma_assoc_set(catrm, "Pages"@, ObjView::Reference(pid));
        if bms.len() == 0 {
            assert(combined_view.lookup(cid) == Some(ObjView::Dictionary(cd_base)));
            assert(assoc_lookup(cd_base, "Pages"@) == Some(ObjView::Reference(pid)));
            lemma_entry_ref_member(cd_base, "Pages"@, pid);
            lemma_reach_through_dict(g, cid, cid, "Pages"@, pid);
        } else {
            let root_o = choose|root: ObjectId|
                {
                    &&& combined_view.lookup(cid) == Some(
                        ObjView::Dictionary(
                            assoc_set(cd_base, "Outlines"@, ObjView::Reference(root)),
                        ),
                    )
                    &&& #[trigger] outline_entry_id(root, 0) == outline_entry_id(root, 0)
                    &&& combined_view.lookup(root) == Some(
                        ObjView::Dictionary(outline_root_view(bms, root)),
                    )
                    &&& forall|i: int|
                        0 <= i < bms.len() ==> #[trigger] combined_view.lookup(
                            outline_entry_id(root, i),
                        ) == Some(ObjView::Dictionary(outline_entry_view(bms, root, i)))
                };
            let cd_full = assoc_set(cd_base, "Outlines"@, ObjView::Reference(root_o));
            lemma_assoc_set(cd_base, "Outlines"@, ObjView::Reference(root_o));
            assert(assoc_lookup(cd_full, "Pages"@) == Some(ObjView::Reference(pid)));
            lemma_entry_ref_member(cd_full, "Pages"@, pid);
            lemma_reach_through_dict(g, cid, cid, "Pages"@, pid);
            assert(assoc_lookup(cd_full, "Outlines"@) == Some(ObjView::Reference(root_o)));
            lemma_entry_ref_member(cd_full, "Outlines"@, root_o);
            lemma_reach_through_dict(g, cid, cid, "Outlines"@, root_o);
            lemma_compact_preserves_lookup(g, cid, root_o);
            assert(out@.lookup(root_o) == Some(
                ObjView::Dictionary(outline_root_view(bms, root_o)),
            ));
            assert forall|k: int|
                0 <= k < bms.len() implies #[trigger] assoc_lookup(
                g,
                outline_entry_id(root_o, k),
            ) == Some(ObjView::Dictionary(outline_entry_view(bms, root_o, k))) by {
                assert(combined_view.lookup(outline_entry_id(root_o, k)) == Some(
                    ObjView::Dictionary(outline_entry_view(bms, root_o, k)),
                ));
            }
            assert forall|k: int|
                0 <= k < bms.len() implies #[trigger] out@.lookup(outline_entry_id(root_o, k))
                == Some(ObjView::Dictionary(outline_entry_view(bms, root_o, k))) by {
                lemma_outline_chain_reachable(g, cid, bms, root_o, k);
                lemma_compact_preserves_lookup(g, cid, outline_entry_id(root_o, k));
            }
            assert(exists|root: ObjectId|
                {
                    &&& out@.lookup(cid) == Some(
                        ObjView::Dictionary(
                            assoc_set(
                                assoc_set(catrm, "Pages"@, ObjView::Reference(pid)),
                                "Outlines"@,
                                ObjView::Reference(root),
                            ),
                        ),
                    )
                    &&& #[trigger] outline_entry_id(root, 0) == outline_entry_id(root, 0)
                    &&& out@.lookup(root) == Some(
                        ObjView::Dictionary(outline_root_view(bms, root)),
                    )
                    &&& forall|i: int|
                        0 <= i < bms.len() ==> #[trigger] out@.lookup(
                            outline_entry_id(root, i),
                        ) == Some(ObjView::Dictionary(outline_entry_view(bms, root, i)))
                }) by {
                assert(out@.lookup(cid) == Some(ObjView::Dictionary(cd_full)));
                assert(outline_entry_id(root_o, 0) == outline_entry_id(root_o, 0));
            }
        }
        assert(reachable(g, cid, pid));
        lemma_compact_preserves_lookup(g, cid, pid);
        assert(out@.lookup(pid) == combined_view.lookup(pid));
        lemma_first_kind_found(all, NodeKind::Catalog);
        lemma_first_kind_found(all, NodeKind::Pages);
        lemma_merge_preparation(ds2, cid, pid);
        let pd_base = assoc_set(
            fold_kind_from(all, NodeKind::Pages, Seq::empty()),
            "Count"@,
            ObjView::Integer(pv.len() as i64),
        );
        let pd = assoc_set(pd_base, "Kids"@, ObjView::Array(refs_seq(pv)));
        assert(combined_view.lookup(pid) == Some(ObjView::Dictionary(pd)));
        lemma_assoc_set(pd_base, "Kids"@, ObjView::Array(refs_seq(pv)));
        assert(assoc_lookup(pd, "Kids"@) == Some(ObjView::Array(refs_seq(pv))));
        assert forall|i: int|
            0 <= i < pv.len() implies #[trigger] out@.lookup(pv[i]) == Some(
            set_parent_view(assoc_lookup(all, pv[i])->Some_0, pid),
        ) by {
            assert(refs_seq(pv)[i] == ObjView::Reference(pv[i]));
            crate::remap::lemma_refs_of_seq_member(refs_seq(pv), i, pv[i]);
            crate::assoc::lemma_assoc_characterization(pd, "Kids"@);
            if !crate::assoc::assoc_has(pd, "Kids"@) {
                assert(assoc_lookup(pd, "Kids"@) is None);
            }
            let jk = crate::assoc::assoc_first_index(pd, "Kids"@);
            assert(pd[jk].1 == ObjView::Array(refs_seq(pv)));
            assert(crate::remap::refs_of(pd[jk].1).contains(pv[i]));
            crate::remap::lemma_refs_of_entries_member(pd, jk, pv[i]);
            lemma_reach_through_dict(g, cid, pid, "Kids"@, pv[i]);
            lemma_compact_preserves_lookup(g, cid, pv[i]);
            assert(out@.lookup(pv[i]) == combined_view.lookup(pv[i]));
            assert(assoc_lookup(all, pv[i]) matches Some(v) && spec_kind(v) == NodeKind::Page
                && pv[i] != pid && pv[i] != cid);
            crate::assoc::lemma_assoc_characterization(all, pv[i]);
            if !crate::assoc::assoc_has(all, pv[i]) {
                assert(assoc_lookup(all, pv[i]) is None);
            }
            let w = crate::assoc::assoc_first_index(all, pv[i]);
            assert(all[w].0 == pv[i]);
            assert(all[w].1 == assoc_lookup(all, pv[i])->Some_0);
            assert(combined_view.lookup(all[w].0) == Some(carried_object(all[w], pid)));
            assert(carried_object(all[w], pid) == set_parent_view(all[w].1, pid));
        }
    }
    Ok(out)
}


/// Every synthesized navigation entry is transitively reachable from
/// the surviving catalog: the first through the outline root's first
/// pointer, each next one through its predecessor's chain pointer.
proof fn lemma_outline_chain_reachable(
    g: Seq<(ObjectId, ObjView)>,
    cid: ObjectId,
    bms: Seq<(Seq<char>, ObjectId)>,
    root_o: ObjectId,
    i: int,
)
    requires
        0 <= i < bms.len(),
        reachable(g, cid, root_o),
        assoc_lookup(g, root_o) == Some(ObjView::Dictionary(outline_root_view(bms, root_o))),
        forall|k: int|
            0 <= k < bms.len() ==> #[trigger] assoc_lookup(g, outline_entry_id(root_o, k))
                == Some(ObjView::Dictionary(outline_entry_view(bms, root_o, k))),
    ensures
        reachable(g, cid, outline_entry_id(root_o, i)),
    decreases i,
{
    if i == 0 {
        let rv = outline_root_view(bms, root_o);
        reveal_strlit("Type");
        reveal_strlit("First");
        assert(rv[0].0 == "Type"@);
        assert("Type"@.len() == 4);
        assert("First"@.len() == 5);
        assert(rv.skip(1) =~= seq![
            ("First"@, ObjView::Reference(outline_entry_id(root_o, 0))),
            ("Last"@, ObjView::Reference(outline_entry_id(root_o, bms.len() - 1))),
            ("Count"@, ObjView::Integer(bms.len() as i64)),
        ]);
        assert(assoc_lookup(rv, "First"@) == assoc_lookup(rv.skip(1), "First"@));
        assert(rv.skip(1)[0].0 == "First"@);
        assert(assoc_lookup(rv, "First"@) == Some(
            ObjView::Reference(outline_entry_id(root_o, 0)),
        ));
        lemma_entry_ref_member(rv, "First"@, outline_entry_id(root_o, 0));
        lemma_reach_through_dict(g, cid, root_o, "First"@, outline_entry_id(root_o, 0));
    } else {
        lemma_outline_chain_reachable(g, cid, bms, root_o, i - 1);
        let ev = outline_entry_view(bms, root_o, i - 1);
        reveal_strlit("Title");
        reveal_strlit("Parent");
        reveal_strlit("Dest");
        reveal_strlit("C");
        reveal_strlit("Next");
        assert(ev.len() == 5);
        assert(ev[4] == ("Next"@, ObjView::Reference(outline_entry_id(root_o, i))));
        assert(ev[0].0 == "Title"@ && ev[1].0 == "Parent"@ && ev[2].0 == "Dest"@ && ev[3].0
            == "C"@);
        assert("Title"@.len() == 5 && "Parent"@.len() == 6 && "C"@.len() == 1 && "Next"@.len()
            == 4);
        assert("Dest"@ != "Next"@) by {
            assert("Dest"@[0] == 'D' && "Next"@[0] == 'N');
        }
        assert(forall|l: int| 0 <= l < 4 ==> ev[l].0 != "Next"@);
        crate::assoc::lemma_assoc_characterization(ev, "Next"@);
        assert(assoc_has(ev, "Next"@)) by {
            assert(ev[4].0 == "Next"@);
        }
        assert(crate::assoc::assoc_first_index(ev, "Next"@) == 4);
        assert(assoc_lookup(ev, "Next"@) == Some(
            ObjView::Reference(outline_entry_id(root_o, i)),
        ));
        lemma_entry_ref_member(ev, "Next"@, outline_entry_id(root_o, i));
        lemma_reach_through_dict(
            g,
            cid,
            outline_entry_id(root_o, i - 1),
            "Next"@,
            outline_entry_id(root_o, i),
        );
    }
}

} // verus!
