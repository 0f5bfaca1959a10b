//! The per-document page normalizer: geometry backfill from a
//! document-wide default box, and removal of near-duplicate
//! consecutive pages.

use vstd::prelude::*;

use crate::assoc::{assoc_has, assoc_lookup, assoc_set, lemma_assoc_set};
use crate::errors::MergeError;
use crate::graph::{PdfDocument, lemma_view_graph, view_graph};
use crate::objects::{Dict, NodeKind, Object, ObjectId, ObjView, kind_of_entries, spec_kind,
    view_obj_seq};

verus! {

/// The loaded form of an input file, as the document parser produces
/// it; this library reads only the page texts out of it.
#[verifier::external_type_specification]
#[verifier::external_body]
pub struct ExLopdfDocument(lopdf::Document);

/// The parser's error type, carried through and mapped to this
/// library's own errors.
#[verifier::external_type_specification]
#[verifier::external_body]
pub struct ExLopdfError(lopdf::Error);

/// The IEEE-754 bit pattern of the similarity score one, the score of
/// two equal texts.
pub const SIMILARITY_ONE_BITS: u64 = 0x3FF0000000000000;

/// The IEEE-754 bit pattern of the default similarity threshold,
/// eighty-five hundredths.
pub const DEFAULT_THRESHOLD_BITS: u64 = 0x3FEB333333333333;

/// The bit pattern of the normalized edit-distance similarity of two
/// texts: a function of the two texts alone.
pub uninterp spec fn sim_bits(a: Seq<char>, b: Seq<char>) -> u64;

/// Relies on strsim::normalized_levenshtein: the score depends on the
/// two strings alone, lies between zero and one (never negative and
/// never a NaN, so unsigned comparison of the returned bit patterns
/// agrees with the numeric order of the scores), and equal strings
/// score exactly one.
#[verifier::external_body]
fn similarity_bits(a: &str, b: &str) -> (r: u64)
    ensures
        r == sim_bits(a@, b@),
        r <= SIMILARITY_ONE_BITS,
        a@ == b@ ==> r == SIMILARITY_ONE_BITS,
{
    strsim::normalized_levenshtein(a, b).to_bits()
}

/// Relies on lopdf::Document::extract_text for the plain text of one
/// page (pages count from one). The result depends on the loaded
/// document, which this library does not model, so nothing more is
/// stated of it; the duplicate planner is verified for every text.
#[verifier::external_body]
fn extract_text_of_page(raw: &lopdf::Document, page_number: u32) -> (r: Result<
    String,
    lopdf::Error,
>) {
    raw.extract_text(&[page_number])
}

/// The per-page plain texts of the first `n_pages` pages of a loaded
/// document, in page order, or the stage error.
pub fn extract_page_texts(raw: &lopdf::Document, n_pages: usize, input: usize) -> (r: Result<
    Vec<String>,
    MergeError,
>)
    requires
        n_pages <= u32::MAX,
    ensures
        match r {
            Ok(texts) => texts@.len() == n_pages,
            Err(e) => e == (MergeError::Extract { input }),
        },
        n_pages == 0 ==> r is Ok,
{
    let mut texts: Vec<String> = Vec::new();
    let mut i: usize = 0;
    while i < n_pages
        invariant
            i <= n_pages,
            n_pages <= u32::MAX,
            texts@.len() == i,
        decreases n_pages - i,
    {
        match extract_text_of_page(raw, (i as u32) + 1) {
            Ok(t) => texts.push(t),
            Err(_) => { return Err(MergeError::Extract { input }) },
        }
        i += 1;
    }
    Ok(texts)
}

/// Which pages the adjacent-pair duplicate rule removes: page `i` is
/// marked exactly when the next page exists and reads at least as
/// similar as the threshold, so of a near-identical adjacent pair the
/// earlier page goes; the last page is never marked.
pub fn plan_duplicate_removals(texts: &Vec<String>, threshold_bits: u64) -> (marks: Vec<bool>)
    ensures
        marks@.len() == texts@.len(),
        forall|i: int|
            0 <= i < texts@.len() ==> (marks@[i] <==> (i + 1 < texts@.len() && sim_bits(
                texts@[i]@,
                texts@[i + 1]@,
            ) >= threshold_bits)),
{
    let mut marks: Vec<bool> = Vec::new();
    let n = texts.len();
    let mut i: usize = 0;
    while i < n
        invariant
            i <= n,
            n == texts@.len(),
            marks@.len() == i,
            forall|j: int|
                0 <= j < i ==> (marks@[j] <==> (j + 1 < texts@.len() && sim_bits(
                    texts@[j]@,
                    texts@[j + 1]@,
                ) >= threshold_bits)),
        decreases n - i,
    {
        let m: bool = if i + 1 < n {
            similarity_bits(texts[i].as_str(), texts[i + 1].as_str()) >= threshold_bits
        } else {
            false
        };
        marks.push(m);
        i += 1;
    }
    marks
}

/// The document-wide default bounding box when no pages node carries
/// an explicit one.
pub open spec fn default_box_view() -> ObjView {
    ObjView::Array(
        seq![
            ObjView::Integer(0),
            ObjView::Integer(0),
            ObjView::Integer(1024),
            ObjView::Integer(768),
        ],
    )
}

/// The explicit bounding box a pages-node dictionary carries, if any.
pub open spec fn entry_pages_box(v: ObjView) -> Option<ObjView> {
    match v {
        ObjView::Dictionary(es) => if kind_of_entries(es) == NodeKind::Pages {
            assoc_lookup(es, "MediaBox"@)
        } else {
            None
        },
        _ => None,
    }
}

/// The document-wide default box: the first pages node carrying an
/// explicit box supplies it; otherwise the fixed default.
pub open spec fn spec_find_box(s: Seq<(ObjectId, ObjView)>) -> ObjView
    decreases s.len(),
{
    if s.len() == 0 {
        default_box_view()
    } else {
        match entry_pages_box(s[0].1) {
            Some(b) => b,
            None => spec_find_box(s.skip(1)),
        }
    }
}

/// One entry after geometry backfill with default box `b`: a page
/// dictionary lacking a box gains `b`; everything else is unchanged.
pub open spec fn backfill_entry(e: (ObjectId, ObjView), b: ObjView) -> (ObjectId, ObjView) {
    match e.1 {
        ObjView::Dictionary(es) => if kind_of_entries(es) == NodeKind::Page && !assoc_has(
            es,
            "MediaBox"@,
        ) {
            (e.0, ObjView::Dictionary(assoc_set(es, "MediaBox"@, b)))
        } else {
            e
        },
        _ => e,
    }
}

/// The whole graph after geometry backfill from its own default box.
pub open spec fn spec_backfill(s: Seq<(ObjectId, ObjView)>) -> Seq<(ObjectId, ObjView)> {
    s.map_values(|e: (ObjectId, ObjView)| backfill_entry(e, spec_find_box(s)))
}

/// The document-wide default box: a clone of the first explicit pages
/// box, or the fixed default.
pub fn find_media_box(doc: &PdfDocument) -> (r: Object)
    ensures
        r@ == spec_find_box(doc@.objects),
{
    proof {
        lemma_view_graph(doc.objects@);
    }
    let ghost gv = doc@.objects;
    proof {
        assert(gv.skip(0) =~= gv);
    }
    let mut i: usize = 0;
    while i < doc.objects.len()
        invariant
            i <= doc.objects.len(),
            gv == doc@.objects,
            gv.len() == doc.objects@.len(),
            forall|j: int|
                0 <= j < doc.objects@.len() ==> gv[j] == (
                    doc.objects@[j].0,
                    doc.objects@[j].1.ov(),
                ),
            spec_find_box(gv) == spec_find_box(gv.skip(i as int)),
            forall|j: int| 0 <= j < i ==> entry_pages_box(gv[j].1) is None,
        decreases doc.objects.len() - i,
    {
        let obj: &Object = &doc.objects[i].1;
        let mut found: Option<&Object> = None;
        if matches!(obj.kind(), NodeKind::Pages) {
            if let Object::Dictionary(d) = obj {
                found = d.get("MediaBox");
            }
        }
        match found {
            Some(b) => {
                proof {
                    assert(gv.skip(i as int)[0] == gv[i as int]);
                    assert(entry_pages_box(gv[i as int].1) == Some(b@));
                }
                return b.clone();
            },
            None => {
                proof {
                    assert(gv.skip(i as int)[0] == gv[i as int]);
                    assert(entry_pages_box(gv[i as int].1) is None);
                    assert(gv.skip(i as int).skip(1) =~= gv.skip(i + 1));
                }
            },
        }
        i += 1;
    }
    proof {
        assert(gv.skip(i as int).len() == 0);
    }
    let mut items: Vec<Object> = Vec::new();
    items.push(Object::Integer(0));
    items.push(Object::Integer(0));
    items.push(Object::Integer(1024));
    items.push(Object::Integer(768));
    let r = Object::Array(items);
    proof {
        crate::objects::lemma_view_obj_seq(items@);
        assert(r@ matches ObjView::Array(vs) && vs =~= default_box_view()->Array_0);
        assert(r@ =~= default_box_view());
    }
    r
}

/// Backfills the document-wide default bounding box onto every page
/// that lacks its own, mutating the pages in place and touching
/// nothing else.
pub fn backfill_geometry(doc: &mut PdfDocument)
    ensures
        final(doc)@.objects == spec_backfill(old(doc)@.objects),
        final(doc)@.trailer == old(doc)@.trailer,
        final(doc)@.version == old(doc)@.version,
{
    let media_box = find_media_box(doc);
    let ghost b = spec_find_box(old(doc)@.objects);
    let ghost gv = old(doc)@.objects;
    proof {
        lemma_view_graph(doc.objects@);
    }
    let mut i: usize = 0;
    while i < doc.objects.len()
        invariant
            i <= doc.objects.len(),
            media_box@ == b,
            b == spec_find_box(gv),
            doc.objects@.len() == gv.len(),
            doc@.objects.len() == gv.len(),
            doc@.trailer == old(doc)@.trailer,
            doc@.version == old(doc)@.version,
            forall|j: int| i <= j < gv.len() ==> doc@.objects[j] == gv[j],
            forall|j: int| 0 <= j < i ==> doc@.objects[j] == backfill_entry(gv[j], b),
            forall|j: int|
                0 <= j < doc.objects@.len() ==> doc@.objects[j] == (
                    doc.objects@[j].0,
                    doc.objects@[j].1.ov(),
                ),
        decreases doc.objects.len() - i,
    {
        let needs: bool = match &doc.objects[i].1 {
            Object::Dictionary(d) => matches!(doc.objects[i].1.kind(), NodeKind::Page) && !d.has(
                "MediaBox",
            ),
            _ => false,
        };
        if needs {
            let id = doc.objects[i].0;
            let mut new_dict: Dict = match &doc.objects[i].1 {
                Object::Dictionary(d) => d.clone(),
                _ => Dict::empty(),
            };
            new_dict.insert("MediaBox", media_box.clone());
            let ghost pre = doc.objects@;
            doc.objects[i] = (id, Object::Dictionary(new_dict));
            proof {
                lemma_view_graph(doc.objects@);
                lemma_view_graph(pre);
                assert(doc.objects@ == pre.update(i as int, (id, Object::Dictionary(new_dict))));
                assert(doc@.objects[i as int].1 == backfill_entry(gv[i as int], b).1);
                assert(doc@.objects[i as int] == backfill_entry(gv[i as int], b));
                assert forall|j: int| i + 1 <= j < gv.len() implies doc@.objects[j] == gv[j] by {
                    assert(doc.objects@[j] == pre[j]);
                    assert(doc@.objects[j] == view_graph(pre)[j]);
                }
                assert forall|j: int|
                    0 <= j < i implies doc@.objects[j] == backfill_entry(gv[j], b) by {
                    assert(doc.objects@[j] == pre[j]);
                    assert(doc@.objects[j] == view_graph(pre)[j]);
                }
            }
        } else {
            proof {
                assert(backfill_entry(gv[i as int], b) == gv[i as int]);
            }
        }
        i += 1;
    }
    proof {
        assert(final(doc)@.objects =~= spec_backfill(gv));
    }
}

/// Applying geometry backfill twice assigns the same boxes as
/// applying it once: the first pass leaves no page without a box and
/// does not disturb the pages nodes that supply the default, so the
/// second pass changes nothing.
pub proof fn lemma_backfill_idempotent(s: Seq<(ObjectId, ObjView)>)
    ensures
        spec_backfill(spec_backfill(s)) == spec_backfill(s),
{
    let b = spec_find_box(s);
    let t = spec_backfill(s);
    assert(t.len() == s.len());
    assert forall|j: int| 0 <= j < s.len() implies entry_pages_box(t[j].1) == entry_pages_box(
        s[j].1,
    ) by {
        assert(t[j] == backfill_entry(s[j], b));
        match s[j].1 {
            ObjView::Dictionary(es) => {
                if kind_of_entries(es) == NodeKind::Page && !assoc_has(es, "MediaBox"@) {
                    lemma_assoc_set(es, "MediaBox"@, b);
                    assert(assoc_lookup(assoc_set(es, "MediaBox"@, b), "Type"@) == assoc_lookup(
                        es,
                        "Type"@,
                    )) by {
                        proof_type_key_differs();
                    }
                    assert(kind_of_entries(assoc_set(es, "MediaBox"@, b)) == NodeKind::Page);
                }
            },
            _ => {},
        }
    }
    lemma_find_box_congruence(s, t);
    assert(spec_find_box(t) == b);
    assert forall|j: int| 0 <= j < t.len() implies backfill_entry(t[j], b) == t[j] by {
        assert(t[j] == backfill_entry(s[j], b));
        match s[j].1 {
            ObjView::Dictionary(es) => {
                if kind_of_entries(es) == NodeKind::Page && !assoc_has(es, "MediaBox"@) {
                    lemma_assoc_set(es, "MediaBox"@, b);
                    assert(assoc_lookup(assoc_set(es, "MediaBox"@, b), "Type"@) == assoc_lookup(
                        es,
                        "Type"@,
                    )) by {
                        proof_type_key_differs();
                    }
                    assert(assoc_has(assoc_set(es, "MediaBox"@, b), "MediaBox"@));
                }
            },
            _ => {},
        }
    }
    assert(spec_backfill(t) =~= t);
}

/// The type key and the box key read differently.
proof fn proof_type_key_differs()
    ensures
        "Type"@ != "MediaBox"@,
{
    reveal_strlit("Type");
    reveal_strlit("MediaBox");
    assert("Type"@.len() == 4);
    assert("MediaBox"@.len() == 8);
}

/// The default box depends only on which entries carry an explicit
/// pages box, and on those boxes.
proof fn lemma_find_box_congruence(s: Seq<(ObjectId, ObjView)>, t: Seq<(ObjectId, ObjView)>)
    requires
        s.len() == t.len(),
        forall|j: int| 0 <= j < s.len() ==> entry_pages_box(t[j].1) == entry_pages_box(s[j].1),
    ensures
        spec_find_box(t) == spec_find_box(s),
    decreases s.len(),
{
    if s.len() > 0 {
        assert(forall|j: int| 0 <= j < s.skip(1).len() ==> s.skip(1)[j] == s[j + 1]);
        assert(forall|j: int| 0 <= j < t.skip(1).len() ==> t.skip(1)[j] == t[j + 1]);
        lemma_find_box_congruence(s.skip(1), t.skip(1));
    }
}


/// Whether a kids-array element survives deletion: references to
/// doomed identities go, everything else stays.
pub open spec fn keeps_kid(v: ObjView, doomed: Seq<ObjectId>) -> bool {
    !(v matches ObjView::Reference(id) && doomed.contains(id))
}

/// Whether a graph entry survives deletion: pages with doomed
/// identities go, everything else stays.
pub open spec fn keeps_entry(e: (ObjectId, ObjView), doomed: Seq<ObjectId>) -> bool {
    !(spec_kind(e.1) == NodeKind::Page && doomed.contains(e.0))
}

/// A leaf-count after removing `removed` direct children, clamped at
/// zero; a count that was not positive is left alone.
pub open spec fn count_after(c: i64, removed: int) -> i64 {
    if c > 0 {
        if c >= removed {
            (c - removed) as i64
        } else {
            0
        }
    } else {
        c
    }
}

/// A pages-node dictionary after deletion: doomed references leave
/// its kids array and its count drops by the number removed.
pub open spec fn delete_pages_dict(es: Seq<(Seq<char>, ObjView)>, doomed: Seq<ObjectId>) -> Seq<
    (Seq<char>, ObjView),
> {
    match assoc_lookup(es, "Kids"@) {
        Some(kv) => match kv {
            ObjView::Array(items) => {
                let kept = items.filter(|v: ObjView| keeps_kid(v, doomed));
                let removed = items.len() - kept.len();
                let es1 = assoc_set(es, "Kids"@, ObjView::Array(kept));
                match assoc_lookup(es, "Count"@) {
                    Some(cv) => match cv {
                        ObjView::Integer(c) => assoc_set(
                            es1,
                            "Count"@,
                            ObjView::Integer(count_after(c, removed as int)),
                        ),
                        _ => es1,
                    },
                    None => es1,
                }
            },
            _ => es,
        },
        None => es,
    }
}

/// A surviving graph entry after deletion: pages nodes have their
/// kids and counts updated, everything else is unchanged.
pub open spec fn delete_entry(e: (ObjectId, ObjView), doomed: Seq<ObjectId>) -> (
    ObjectId,
    ObjView,
) {
    match e.1 {
        ObjView::Dictionary(es) => if kind_of_entries(es) == NodeKind::Pages {
            (e.0, ObjView::Dictionary(delete_pages_dict(es, doomed)))
        } else {
            e
        },
        _ => e,
    }
}

/// The whole graph after deleting the doomed pages.
pub open spec fn spec_delete_pages(s: Seq<(ObjectId, ObjView)>, doomed: Seq<ObjectId>) -> Seq<
    (ObjectId, ObjView),
> {
    s.filter(|e: (ObjectId, ObjView)| keeps_entry(e, doomed)).map_values(
        |e: (ObjectId, ObjView)| delete_entry(e, doomed),
    )
}

/// Whether the list holds the identity.
pub fn id_in_list(v: &Vec<ObjectId>, id: ObjectId) -> (r: bool)
    ensures
        r == v@.contains(id),
{
    let mut i: usize = 0;
    while i < v.len()
        invariant
            i <= v.len(),
            forall|j: int| 0 <= j < i ==> v@[j] != id,
        decreases v.len() - i,
    {
        if v[i] == id {
            assert(v@.contains(id));
            return true;
        }
        i += 1;
    }
    assert(forall|j: int| 0 <= j < v@.len() ==> v@[j] != id);
    false
}

/// A pages-node dictionary rebuilt for deletion: doomed references
/// are dropped from its kids array and its count is decremented by
/// the number dropped.
fn delete_from_pages_dict(d: &Dict, doomed: &Vec<ObjectId>) -> (r: Dict)
    ensures
        r@ == delete_pages_dict(d@, doomed@),
{
    let kids_opt = d.get("Kids");
    let items: &Vec<Object> = match kids_opt {
        Some(Object::Array(items)) => items,
        Some(_) => { return d.clone() },
        None => { return d.clone() },
    };
    let ghost vs = view_obj_seq(items@);
    proof {
        crate::objects::lemma_view_obj_seq(items@);
        assert(vs.take(0) =~= Seq::<ObjView>::empty());
        reveal(Seq::filter);
    }
    let ghost pred = |v: ObjView| keeps_kid(v, doomed@);
    let mut kept: Vec<Object> = Vec::new();
    let mut i: usize = 0;
    while i < items.len()
        invariant
            i <= items.len(),
            vs == view_obj_seq(items@),
            vs.len() == items@.len(),
            forall|j: int| 0 <= j < items@.len() ==> vs[j] == items@[j].ov(),
            pred == (|v: ObjView| keeps_kid(v, doomed@)),
            kept@.len() <= i,
            view_obj_seq(kept@).len() == kept@.len(),
            forall|j: int| 0 <= j < kept@.len() ==> view_obj_seq(kept@)[j] == kept@[j].ov(),
            view_obj_seq(kept@) == vs.take(i as int).filter(pred),
        decreases items.len() - i,
    {
        proof {
            reveal(Seq::filter);
            assert(vs.take(i + 1).drop_last() =~= vs.take(i as int));
            assert(vs.take(i + 1).last() == vs[i as int]);
        }
        let keep: bool = match &items[i] {
            Object::Reference(id) => !id_in_list(doomed, *id),
            _ => true,
        };
        if keep {
            let ghost prev = kept@;
            kept.push(items[i].clone());
            proof {
                crate::objects::lemma_view_obj_seq(kept@);
                crate::objects::lemma_view_obj_seq(prev);
                assert(kept@[prev.len() as int].ov() == vs[i as int]);
                assert forall|j: int|
                    0 <= j < prev.len() implies view_obj_seq(kept@)[j] == view_obj_seq(prev)[j] by {
                    assert(kept@[j] == prev[j]);
                }
                assert(pred(vs[i as int]));
                assert(vs.take(i + 1).filter(pred) == vs.take(i as int).filter(pred).push(
                    vs[i as int],
                ));
                assert(view_obj_seq(kept@) =~= vs.take(i + 1).filter(pred));
            }
        } else {
            proof {
                assert(!pred(vs[i as int]));
                assert(vs.take(i + 1).filter(pred) == vs.take(i as int).filter(pred));
            }
        }
        i += 1;
    }
    proof {
        assert(vs.take(vs.len() as int) =~= vs);
        vs.lemma_filter_len(pred);
    }
    let removed: usize = items.len() - kept.len();
    let mut nd = d.clone();
    nd.insert("Kids", Object::Array(kept));
    match d.get("Count") {
        Some(Object::Integer(c)) => {
            let c_val: i64 = *c;
            let new_c: i64 = if c_val > 0 {
                let cu: u64 = c_val as u64;
                let ru: u64 = removed as u64;
                if cu >= ru {
                    (cu - ru) as i64
                } else {
                    0
                }
            } else {
                c_val
            };
            proof {
                assert(new_c == count_after(c_val, removed as int));
            }
            nd.insert("Count", Object::Integer(new_c));
        },
        _ => {},
    }
    nd
}

/// Deletes the doomed pages from the graph: their entries leave, and
/// every pages node loses the corresponding kids-array references and
/// count; the trailer and version are untouched.
pub fn delete_pages(doc: &mut PdfDocument, doomed: &Vec<ObjectId>)
    ensures
        final(doc)@.objects == spec_delete_pages(old(doc)@.objects, doomed@),
        final(doc)@.trailer == old(doc)@.trailer,
        final(doc)@.version == old(doc)@.version,
{
    proof {
        lemma_view_graph(doc.objects@);
    }
    let ghost gv = doc@.objects;
    let ghost keepp = |e: (ObjectId, ObjView)| keeps_entry(e, doomed@);
    let ghost del = |e: (ObjectId, ObjView)| delete_entry(e, doomed@);
    let mut out: Vec<(ObjectId, Object)> = Vec::new();
    let mut i: usize = 0;
    proof {
        assert(gv.take(0) =~= Seq::<(ObjectId, ObjView)>::empty());
        reveal(Seq::filter);
    }
    while i < doc.objects.len()
        invariant
            i <= doc.objects.len(),
            gv == doc@.objects,
            gv.len() == doc.objects@.len(),
            forall|j: int|
                0 <= j < doc.objects@.len() ==> gv[j] == (
                    doc.objects@[j].0,
                    doc.objects@[j].1.ov(),
                ),
            keepp == (|e: (ObjectId, ObjView)| keeps_entry(e, doomed@)),
            del == (|e: (ObjectId, ObjView)| delete_entry(e, doomed@)),
            view_graph(out@).len() == out@.len(),
            forall|j: int|
                0 <= j < out@.len() ==> view_graph(out@)[j] == (out@[j].0, out@[j].1.ov()),
            view_graph(out@) == gv.take(i as int).filter(keepp).map_values(del),
        decreases doc.objects.len() - i,
    {
        proof {
            reveal(Seq::filter);
            assert(gv.take(i + 1).drop_last() =~= gv.take(i as int));
            assert(gv.take(i + 1).last() == gv[i as int]);
        }
        let id = doc.objects[i].0;
        let obj: &Object = &doc.objects[i].1;
        let k = obj.kind();
        let keep: bool = !(matches!(k, NodeKind::Page) && id_in_list(doomed, id));
        if keep {
            let ghost prev = out@;
            let rebuilt: Object = match obj {
                Object::Dictionary(d) => {
                    if matches!(k, NodeKind::Pages) {
                        Object::Dictionary(delete_from_pages_dict(d, doomed))
                    } else {
                        obj.clone()
                    }
                },
                _ => obj.clone(),
            };
            proof {
                assert(rebuilt@ == del(gv[i as int]).1);
                assert(del(gv[i as int]).0 == id);
            }
            out.push((id, rebuilt));
            proof {
                lemma_view_graph(out@);
                lemma_view_graph(prev);
                assert forall|j: int|
                    0 <= j < prev.len() implies view_graph(out@)[j] == view_graph(prev)[j] by {
                    assert(out@[j] == prev[j]);
                }
                assert(view_graph(out@)[prev.len() as int] == del(gv[i as int]));
                assert(keepp(gv[i as int]));
                assert(gv.take(i + 1).filter(keepp) == gv.take(i as int).filter(keepp).push(
                    gv[i as int],
                ));
                let fs = gv.take(i as int).filter(keepp);
                assert(fs.push(gv[i as int]).map_values(del).len() == fs.len() + 1);
                assert forall|j: int|
                    0 <= j < out@.len() implies view_graph(out@)[j] == gv.take(i + 1).filter(
                    keepp,
                ).map_values(del)[j] by {
                    if j < prev.len() {
                        assert(view_graph(out@)[j] == fs.map_values(del)[j]);
                        assert(fs.map_values(del)[j] == del(fs[j]));
                        assert(fs.push(gv[i as int])[j] == fs[j]);
                        assert(fs.push(gv[i as int]).map_values(del)[j] == del(fs[j]));
                    } else {
                        assert(j == fs.len());
                        assert(fs.push(gv[i as int])[j] == gv[i as int]);
                        assert(fs.push(gv[i as int]).map_values(del)[j] == del(gv[i as int]));
                    }
                }
                assert(view_graph(out@) =~= gv.take(i + 1).filter(keepp).map_values(del));
            }
        } else {
            proof {
                assert(!keepp(gv[i as int]));
                assert(gv.take(i + 1).filter(keepp) == gv.take(i as int).filter(keepp));
            }
        }
        i += 1;
    }
    doc.objects = out;
    proof {
        assert(gv.take(gv.len() as int) =~= gv);
    }
}

/// The identities at the marked positions, in order.
pub open spec fn marked_ids(ids: Seq<ObjectId>, marks: Seq<bool>) -> Seq<ObjectId>
    decreases ids.len(),
{
    if ids.len() == 0 || marks.len() != ids.len() {
        Seq::empty()
    } else if marks.last() {
        marked_ids(ids.drop_last(), marks.drop_last()).push(ids.last())
    } else {
        marked_ids(ids.drop_last(), marks.drop_last())
    }
}

/// Selects the identities at the marked positions, in order.
pub fn select_marked(ids: &Vec<ObjectId>, marks: &Vec<bool>) -> (r: Vec<ObjectId>)
    requires
        ids@.len() == marks@.len(),
    ensures
        r@ == marked_ids(ids@, marks@),
{
    let mut r: Vec<ObjectId> = Vec::new();
    let mut i: usize = 0;
    proof {
        assert(ids@.take(0) =~= Seq::<ObjectId>::empty());
        assert(marks@.take(0) =~= Seq::<bool>::empty());
    }
    while i < ids.len()
        invariant
            i <= ids.len(),
            ids@.len() == marks@.len(),
            r@ == marked_ids(ids@.take(i as int), marks@.take(i as int)),
        decreases ids.len() - i,
    {
        proof {
            assert(ids@.take(i + 1).drop_last() =~= ids@.take(i as int));
            assert(marks@.take(i + 1).drop_last() =~= marks@.take(i as int));
            assert(ids@.take(i + 1).last() == ids@[i as int]);
            assert(marks@.take(i + 1).last() == marks@[i as int]);
        }
        if marks[i] {
            r.push(ids[i]);
        }
        i += 1;
    }
    proof {
        assert(ids@.take(ids@.len() as int) =~= ids@);
        assert(marks@.take(marks@.len() as int) =~= marks@);
    }
    r
}



/// Which pages the duplicate rule marks, over the page texts: the
/// page whose successor reads at least as similar as the threshold.
pub open spec fn sim_marks(texts: Seq<Seq<char>>, threshold_bits: u64) -> Seq<bool> {
    Seq::new(
        texts.len(),
        |i: int| i + 1 < texts.len() && sim_bits(texts[i], texts[i + 1]) >= threshold_bits,
    )
}

} // verus!
