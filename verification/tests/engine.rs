//! Model-level tests for the merge engine: duplicate removal,
//! geometry backfill, identity management, tree merging, compaction
//! and the orchestrator state machine.

use pdf_merge::errors::MergeError;
use pdf_merge::graph::PdfDocument;
use pdf_merge::normalize::{DEFAULT_THRESHOLD_BITS, delete_pages, plan_duplicate_removals,
    select_marked, find_media_box, backfill_geometry};
use pdf_merge::objects::{Dict, NodeKind, Object, ObjectId};
use pdf_merge::pipeline::{MergeAction, MergeEvent, MergeStatus, advance, merge_documents};
use pdf_merge::reconcile::reconcile_documents;

fn oid(num: u32) -> ObjectId {
    ObjectId { num, gen: 0 }
}

fn name(s: &str) -> Object {
    Object::Name(s.to_owned())
}

fn dict(entries: Vec<(&str, Object)>) -> Dict {
    Dict { entries: entries.into_iter().map(|(k, v)| (k.to_owned(), v)).collect() }
}

fn obj_eq(a: &Object, b: &Object) -> bool {
    match (a, b) {
        (Object::Null, Object::Null) => true,
        (Object::Boolean(x), Object::Boolean(y)) => x == y,
        (Object::Integer(x), Object::Integer(y)) => x == y,
        (Object::Real(x), Object::Real(y)) => x == y,
        (Object::Text(x), Object::Text(y)) => x == y,
        (Object::Name(x), Object::Name(y)) => x == y,
        (Object::Array(x), Object::Array(y)) => {
            x.len() == y.len() && x.iter().zip(y.iter()).all(|(u, v)| obj_eq(u, v))
        }
        (Object::Dictionary(x), Object::Dictionary(y)) => dict_eq(x, y),
        (Object::Stream(x, bx), Object::Stream(y, by)) => dict_eq(x, y) && bx == by,
        (Object::Reference(x), Object::Reference(y)) => x == y,
        _ => false,
    }
}

fn dict_eq(a: &Dict, b: &Dict) -> bool {
    a.entries.len() == b.entries.len()
        && a.entries
            .iter()
            .zip(b.entries.iter())
            .all(|(u, v)| u.0 == v.0 && obj_eq(&u.1, &v.1))
}

/// A compact document: catalog (1), pages root (2), then `n_pages`
/// page leaves (3..).
fn sample_doc(n_pages: usize) -> PdfDocument {
    let mut objects: Vec<(ObjectId, Object)> = Vec::new();
    objects.push((
        oid(1),
        Object::Dictionary(dict(vec![
            ("Type", name("Catalog")),
            ("Pages", Object::Reference(oid(2))),
        ])),
    ));
    let kids: Vec<Object> = (0..n_pages).map(|i| Object::Reference(oid(3 + i as u32))).collect();
    objects.push((
        oid(2),
        Object::Dictionary(dict(vec![
            ("Type", name("Pages")),
            ("Kids", Object::Array(kids)),
            ("Count", Object::Integer(n_pages as i64)),
        ])),
    ));
    for i in 0..n_pages {
        objects.push((
            oid(3 + i as u32),
            Object::Dictionary(dict(vec![
                ("Type", name("Page")),
                ("Parent", Object::Reference(oid(2))),
            ])),
        ));
    }
    let trailer = dict(vec![("Root", Object::Reference(oid(1)))]);
    PdfDocument { objects, trailer, version: "1.7".to_owned() }
}

fn explicit_box() -> Object {
    Object::Array(vec![
        Object::Integer(1),
        Object::Integer(2),
        Object::Integer(3),
        Object::Integer(4),
    ])
}

fn page_ids(doc: &PdfDocument) -> Vec<u32> {
    doc.page_list().iter().map(|id| id.num).collect()
}

fn get_dict<'a>(doc: &'a PdfDocument, id: ObjectId) -> &'a Dict {
    match doc.get_object(id) {
        Some(Object::Dictionary(d)) => d,
        _ => panic!("expected a dictionary at {:?}", id),
    }
}

#[test]
fn duplicate_pair_rule_removes_earlier_page() {
    // Page texts ["x", "x", "y"]: page 0 is removed, pages 1 and 2 stay.
    let mut doc = sample_doc(3);
    let texts: Vec<String> = vec!["x".to_owned(), "x".to_owned(), "y".to_owned()];
    let marks = plan_duplicate_removals(&texts, DEFAULT_THRESHOLD_BITS);
    assert_eq!(marks, vec![true, false, false]);
    let pl = doc.page_list();
    let doomed = select_marked(&pl, &marks);
    assert_eq!(doomed.len(), 1);
    assert_eq!(doomed[0].num, 3);
    delete_pages(&mut doc, &doomed);
    assert_eq!(page_ids(&doc), vec![4, 5]);
    let pages = get_dict(&doc, oid(2));
    match pages.get("Kids") {
        Some(Object::Array(kids)) => {
            assert_eq!(kids.len(), 2);
            assert!(obj_eq(&kids[0], &Object::Reference(oid(4))));
            assert!(obj_eq(&kids[1], &Object::Reference(oid(5))));
        }
        _ => panic!("kids missing"),
    }
    match pages.get("Count") {
        Some(Object::Integer(c)) => assert_eq!(*c, 2),
        _ => panic!("count missing"),
    }
}

#[test]
fn last_page_is_never_marked() {
    let texts: Vec<String> = vec!["same".to_owned(), "same".to_owned()];
    let marks = plan_duplicate_removals(&texts, DEFAULT_THRESHOLD_BITS);
    assert_eq!(marks, vec![true, false]);
    let empty: Vec<String> = Vec::new();
    assert_eq!(plan_duplicate_removals(&empty, DEFAULT_THRESHOLD_BITS).len(), 0);
}

#[test]
fn dissimilar_pages_are_kept() {
    let texts: Vec<String> = vec!["abcd".to_owned(), "zzzz".to_owned()];
    let marks = plan_duplicate_removals(&texts, DEFAULT_THRESHOLD_BITS);
    assert_eq!(marks, vec![false, false]);
}

#[test]
fn backfill_uses_fixed_default_when_no_box_exists() {
    let mut doc = sample_doc(1);
    let default_box = find_media_box(&doc);
    match &default_box {
        Object::Array(items) => {
            assert!(obj_eq(&items[0], &Object::Integer(0)));
            assert!(obj_eq(&items[1], &Object::Integer(0)));
            assert!(obj_eq(&items[2], &Object::Integer(1024)));
            assert!(obj_eq(&items[3], &Object::Integer(768)));
        }
        _ => panic!("expected an array"),
    }
    backfill_geometry(&mut doc);
    let page = get_dict(&doc, oid(3));
    match page.get("MediaBox") {
        Some(b) => assert!(obj_eq(b, &default_box)),
        None => panic!("page did not gain a box"),
    }
}

#[test]
fn backfill_is_idempotent() {
    // The first pages node carrying an explicit box supplies the
    // document-wide default; a second application changes nothing.
    let mut doc = sample_doc(2);
    let explicit = explicit_box();
    match &mut doc.objects[1].1 {
        Object::Dictionary(d) => d.insert("MediaBox", explicit_box()),
        _ => panic!(),
    }
    backfill_geometry(&mut doc);
    let once: Vec<(ObjectId, Object)> = doc
        .objects
        .iter()
        .map(|(id, o)| (*id, o.clone()))
        .collect();
    backfill_geometry(&mut doc);
    assert_eq!(doc.objects.len(), once.len());
    for (a, b) in doc.objects.iter().zip(once.iter()) {
        assert_eq!(a.0, b.0);
        assert!(obj_eq(&a.1, &b.1));
    }
    let page = get_dict(&doc, oid(3));
    match page.get("MediaBox") {
        Some(b) => assert!(obj_eq(b, &explicit)),
        None => panic!("page did not gain the explicit box"),
    }
}

#[test]
fn renumber_closes_identity_gaps_and_rewrites_references() {
    let mut objects: Vec<(ObjectId, Object)> = Vec::new();
    objects.push((oid(5), Object::Dictionary(dict(vec![("Next", Object::Reference(oid(9)))]))));
    objects.push((oid(9), Object::Integer(7)));
    let trailer = dict(vec![("Root", Object::Reference(oid(5)))]);
    let mut doc = PdfDocument { objects, trailer, version: "1.7".to_owned() };
    doc.renumber_objects();
    assert_eq!(doc.objects[0].0, oid(1));
    assert_eq!(doc.objects[1].0, oid(2));
    let d = get_dict(&doc, oid(1));
    match d.get("Next") {
        Some(Object::Reference(id)) => assert_eq!(*id, oid(2)),
        _ => panic!("reference not rewritten"),
    }
    match doc.trailer.get("Root") {
        Some(Object::Reference(id)) => assert_eq!(*id, oid(1)),
        _ => panic!("trailer root not rewritten"),
    }
}

#[test]
fn reconcile_assigns_disjoint_identity_ranges() {
    let mut docs = vec![sample_doc(1), sample_doc(1)];
    let next = reconcile_documents(&mut docs);
    // First document: counter 1, identities 2..4; counter advances to
    // 5; second document: identities 6..8; next free identity is 9.
    assert_eq!(next, 9);
    let ids0: Vec<u32> = docs[0].objects.iter().map(|(id, _)| id.num).collect();
    let ids1: Vec<u32> = docs[1].objects.iter().map(|(id, _)| id.num).collect();
    assert_eq!(ids0, vec![2, 3, 4]);
    assert_eq!(ids1, vec![6, 7, 8]);
    // Identity uniqueness across the merge set.
    for a in &ids0 {
        assert!(!ids1.contains(a));
    }
}

#[test]
fn merge_builds_one_tree_in_input_order() {
    let mut docs = vec![sample_doc(1), sample_doc(1)];
    let names = vec!["a.ext".to_owned(), "b.ext".to_owned()];
    let out = merge_documents(&mut docs, &names).expect("merge should succeed");

    // The surviving catalog is the first one encountered (identity 2).
    match out.trailer.get("Root") {
        Some(Object::Reference(id)) => assert_eq!(*id, oid(2)),
        _ => panic!("trailer root missing"),
    }
    let catalog = get_dict(&out, oid(2));
    match catalog.get("Pages") {
        Some(Object::Reference(id)) => assert_eq!(*id, oid(3)),
        _ => panic!("catalog pages missing"),
    }

    // Order preservation and the count invariant: the kids are the
    // two documents' pages in input order, and the count equals them.
    let pages = get_dict(&out, oid(3));
    match pages.get("Kids") {
        Some(Object::Array(kids)) => {
            assert_eq!(kids.len(), 2);
            assert!(obj_eq(&kids[0], &Object::Reference(oid(4))));
            assert!(obj_eq(&kids[1], &Object::Reference(oid(8))));
        }
        _ => panic!("kids missing"),
    }
    match pages.get("Count") {
        Some(Object::Integer(c)) => assert_eq!(*c, 2),
        _ => panic!("count missing"),
    }

    // Every page's parent points at the surviving pages root.
    for pid in [4u32, 8u32] {
        let page = get_dict(&out, oid(pid));
        match page.get("Parent") {
            Some(Object::Reference(id)) => assert_eq!(*id, oid(3)),
            _ => panic!("parent missing"),
        }
    }

    // Navigation mapping: two entries, labeled in input order, each
    // targeting the first page of its source.
    match catalog.get("Outlines") {
        Some(Object::Reference(id)) => assert_eq!(*id, oid(9)),
        _ => panic!("outline root missing"),
    }
    let root = get_dict(&out, oid(9));
    match root.get("Count") {
        Some(Object::Integer(c)) => assert_eq!(*c, 2),
        _ => panic!("outline count missing"),
    }
    match root.get("First") {
        Some(Object::Reference(id)) => assert_eq!(*id, oid(10)),
        _ => panic!("first entry missing"),
    }
    match root.get("Last") {
        Some(Object::Reference(id)) => assert_eq!(*id, oid(11)),
        _ => panic!("last entry missing"),
    }
    let first_entry = get_dict(&out, oid(10));
    match first_entry.get("Title") {
        Some(Object::Text(t)) => assert_eq!(t, "a.ext"),
        _ => panic!("first title missing"),
    }
    match first_entry.get("Dest") {
        Some(Object::Array(items)) => assert!(obj_eq(&items[0], &Object::Reference(oid(4)))),
        _ => panic!("first destination missing"),
    }
    match first_entry.get("Next") {
        Some(Object::Reference(id)) => assert_eq!(*id, oid(11)),
        _ => panic!("chain missing"),
    }
    let second_entry = get_dict(&out, oid(11));
    match second_entry.get("Title") {
        Some(Object::Text(t)) => assert_eq!(t, "b.ext"),
        _ => panic!("second title missing"),
    }
    assert!(second_entry.get("Next").is_none());

    // Reachability closure after compaction: the second document's
    // extra catalog and pages root are gone, and everything that
    // remains resolves.
    assert!(out.get_object(oid(6)).is_none());
    assert!(out.get_object(oid(7)).is_none());
    for kept in [2u32, 3, 4, 8, 9, 10, 11] {
        assert!(out.get_object(oid(kept)).is_some());
    }
}

#[test]
fn document_with_no_pages_gets_no_navigation_entry() {
    let mut empty = sample_doc(0);
    // Keep it identity-compact: catalog 1, pages 2.
    empty.objects.truncate(2);
    let mut docs = vec![sample_doc(1), empty];
    let names = vec!["a.ext".to_owned(), "b.ext".to_owned()];
    let out = merge_documents(&mut docs, &names).expect("merge should succeed");
    let catalog = get_dict(&out, oid(2));
    let root_id = match catalog.get("Outlines") {
        Some(Object::Reference(id)) => *id,
        _ => panic!("outline root missing"),
    };
    let root = get_dict(&out, root_id);
    match root.get("Count") {
        Some(Object::Integer(c)) => assert_eq!(*c, 1),
        _ => panic!("outline count missing"),
    }
    let entry_id = match root.get("First") {
        Some(Object::Reference(id)) => *id,
        _ => panic!("entry missing"),
    };
    let entry = get_dict(&out, entry_id);
    match entry.get("Title") {
        Some(Object::Text(t)) => assert_eq!(t, "a.ext"),
        _ => panic!("title missing"),
    }
    assert!(entry.get("Next").is_none());
}

#[test]
fn merge_without_catalog_fails() {
    let mut doc = sample_doc(1);
    // Strip the catalog and renumber so the document stays compact.
    doc.objects.remove(0);
    doc.renumber_objects();
    let mut docs = vec![doc];
    let names = vec!["a.ext".to_owned()];
    match merge_documents(&mut docs, &names) {
        Err(MergeError::MissingCatalog) => {}
        other => panic!("expected a missing-catalog failure, got {:?}", other.is_ok()),
    }
}

#[test]
fn merge_without_pages_root_fails() {
    let mut objects: Vec<(ObjectId, Object)> = Vec::new();
    objects.push((oid(1), Object::Dictionary(dict(vec![("Type", name("Catalog"))]))));
    let trailer = dict(vec![("Root", Object::Reference(oid(1)))]);
    let doc = PdfDocument { objects, trailer, version: "1.7".to_owned() };
    let mut docs = vec![doc];
    let names = vec!["a.ext".to_owned()];
    match merge_documents(&mut docs, &names) {
        Err(MergeError::MissingPages) => {}
        other => panic!("expected a missing-pages failure, got {:?}", other.is_ok()),
    }
}

#[test]
fn failure_propagation_terminates_the_operation() {
    // An unreadable input during loading yields the single terminal
    // failure signal, and the failed state absorbs later events
    // without ever starting the merge or reporting completion.
    let (s1, a1) = advance(MergeStatus::Idle, MergeEvent::Begin { inputs: 2 });
    assert_eq!(s1, MergeStatus::Loading { pending: 2 });
    assert_eq!(a1, MergeAction::StartLoads);
    let err = MergeError::Load { input: 1 };
    let (s2, a2) = advance(s1, MergeEvent::LoadFailed(err));
    assert_eq!(s2, MergeStatus::Failed(err));
    assert_eq!(a2, MergeAction::ReportFailure);
    let (s3, a3) = advance(s2, MergeEvent::LoadFinished);
    assert_eq!(s3, MergeStatus::Failed(err));
    assert_eq!(a3, MergeAction::Nothing);
    let (s4, a4) = advance(s3, MergeEvent::MergeFinished);
    assert_eq!(s4, MergeStatus::Failed(err));
    assert_eq!(a4, MergeAction::Nothing);
}

#[test]
fn happy_path_emits_exactly_one_terminal_signal() {
    let (s1, _) = advance(MergeStatus::Idle, MergeEvent::Begin { inputs: 2 });
    let (s2, a2) = advance(s1, MergeEvent::LoadFinished);
    assert_eq!(s2, MergeStatus::Loading { pending: 1 });
    assert_eq!(a2, MergeAction::Nothing);
    let (s3, a3) = advance(s2, MergeEvent::LoadFinished);
    assert_eq!(s3, MergeStatus::Merging);
    assert_eq!(a3, MergeAction::StartMerge);
    let (s4, a4) = advance(s3, MergeEvent::MergeFinished);
    assert_eq!(s4, MergeStatus::Done);
    assert_eq!(a4, MergeAction::ReportDone);
    let (s5, a5) = advance(s4, MergeEvent::MergeFinished);
    assert_eq!(s5, MergeStatus::Done);
    assert_eq!(a5, MergeAction::Nothing);
}

#[test]
fn empty_invocation_stays_idle() {
    let (s, a) = advance(MergeStatus::Idle, MergeEvent::Begin { inputs: 0 });
    assert_eq!(s, MergeStatus::Idle);
    assert_eq!(a, MergeAction::Nothing);
}

#[test]
fn error_descriptions_name_the_stage() {
    assert_eq!(MergeError::Load { input: 0 }.describe(), "input could not be loaded");
    assert_eq!(MergeError::Extract { input: 1 }.describe(), "text extraction failed");
    assert_eq!(MergeError::MissingCatalog.describe(), "no catalog object found");
    assert_eq!(MergeError::MissingPages.describe(), "no pages root found");
    assert_eq!(MergeError::Save.describe(), "output could not be saved");
}

#[test]
fn dictionary_first_entry_wins_and_updates_in_place() {
    let mut d = Dict { entries: Vec::new() };
    assert!(!d.has("Kind"));
    d.insert("Kind", Object::Integer(1));
    d.insert("Other", Object::Integer(2));
    d.insert("Kind", Object::Integer(3));
    assert_eq!(d.entries.len(), 2);
    match d.get("Kind") {
        Some(Object::Integer(v)) => assert_eq!(*v, 3),
        _ => panic!("lookup failed"),
    }
    d.remove("Kind");
    assert!(!d.has("Kind"));
    assert!(d.has("Other"));
}

#[test]
fn classification_reads_the_type_tag() {
    let catalog = Object::Dictionary(dict(vec![("Type", name("Catalog"))]));
    let pages = Object::Dictionary(dict(vec![("Type", name("Pages"))]));
    let page = Object::Dictionary(dict(vec![("Type", name("Page"))]));
    let outline = Object::Dictionary(dict(vec![("Type", name("Outlines"))]));
    let outline2 = Object::Dictionary(dict(vec![("Type", name("Outline"))]));
    let plain = Object::Dictionary(dict(vec![("Length", Object::Integer(4))]));
    let stream_pg = Object::Stream(dict(vec![("Type", name("Page"))]), vec![1, 2]);
    assert!(matches!(catalog.kind(), NodeKind::Catalog));
    assert!(matches!(pages.kind(), NodeKind::Pages));
    assert!(matches!(page.kind(), NodeKind::Page));
    assert!(matches!(outline.kind(), NodeKind::Outline));
    assert!(matches!(outline2.kind(), NodeKind::Outline));
    assert!(matches!(plain.kind(), NodeKind::Other));
    assert!(matches!(stream_pg.kind(), NodeKind::Page));
    assert!(matches!(Object::Integer(3).kind(), NodeKind::Other));
}

#[test]
fn compaction_drops_unreachable_objects() {
    let mut doc = sample_doc(1);
    doc.objects.push((oid(4), Object::Text("orphan".to_owned())));
    doc.prune_unreachable();
    assert!(doc.get_object(oid(1)).is_some());
    assert!(doc.get_object(oid(2)).is_some());
    assert!(doc.get_object(oid(3)).is_some());
    assert!(doc.get_object(oid(4)).is_none());
}
