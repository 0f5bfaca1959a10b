//! Tests that run the normalizer against documents loaded through the
//! real parser: text extraction feeds the verified duplicate planner.

use pdf_merge::graph::PdfDocument;
use pdf_merge::normalize::{DEFAULT_THRESHOLD_BITS, extract_page_texts};
use pdf_merge::objects::{Dict, Object, ObjectId};
use pdf_merge::pipeline::normalize_document;

/// A parsed document with one page per text, each drawn with a
/// standard font so extraction recovers it.
use lopdf::content::{Content, Operation};

fn parsed_pdf(texts: &[&str]) -> lopdf::Document {
    let mut doc = lopdf::Document::with_version("1.5");
    let pages_id = doc.new_object_id();
    let mut font = lopdf::Dictionary::new();
    font.set("Type", lopdf::Object::Name(b"Font".to_vec()));
    font.set("Subtype", lopdf::Object::Name(b"Type1".to_vec()));
    font.set("BaseFont", lopdf::Object::Name(b"Helvetica".to_vec()));
    let font_id = doc.add_object(lopdf::Object::Dictionary(font));
    let mut font_map = lopdf::Dictionary::new();
    font_map.set("F1", lopdf::Object::Reference(font_id));
    let mut resources = lopdf::Dictionary::new();
    resources.set("Font", lopdf::Object::Dictionary(font_map));
    let resources_id = doc.add_object(lopdf::Object::Dictionary(resources));
    let mut kids: Vec<lopdf::Object> = Vec::new();
    for t in texts {
        let content = Content {
            operations: vec![
                Operation::new("BT", vec![]),
                Operation::new("Tf", vec![lopdf::Object::Name(b"F1".to_vec()), 24.into()]),
                Operation::new("Td", vec![100.into(), 600.into()]),
                Operation::new("Tj", vec![lopdf::Object::string_literal(*t)]),
                Operation::new("ET", vec![]),
            ],
        };
        let stream = lopdf::Stream::new(lopdf::Dictionary::new(), content.encode().unwrap());
        let content_id = doc.add_object(lopdf::Object::Stream(stream));
        let mut page = lopdf::Dictionary::new();
        page.set("Type", lopdf::Object::Name(b"Page".to_vec()));
        page.set("Parent", lopdf::Object::Reference(pages_id));
        page.set("Contents", lopdf::Object::Reference(content_id));
        page.set("Resources", lopdf::Object::Reference(resources_id));
        page.set(
            "MediaBox",
            lopdf::Object::Array(vec![0.into(), 0.into(), 612.into(), 792.into()]),
        );
        let page_id = doc.add_object(lopdf::Object::Dictionary(page));
        kids.push(lopdf::Object::Reference(page_id));
    }
    let mut pages = lopdf::Dictionary::new();
    pages.set("Type", lopdf::Object::Name(b"Pages".to_vec()));
    pages.set("Count", lopdf::Object::Integer(texts.len() as i64));
    pages.set("Kids", lopdf::Object::Array(kids));
    doc.objects.insert(pages_id, lopdf::Object::Dictionary(pages));
    let mut catalog = lopdf::Dictionary::new();
    catalog.set("Type", lopdf::Object::Name(b"Catalog".to_vec()));
    catalog.set("Pages", lopdf::Object::Reference(pages_id));
    let catalog_id = doc.add_object(lopdf::Object::Dictionary(catalog));
    doc.trailer.set("Root", catalog_id);
    doc
}

fn make_id(num: u32) -> ObjectId {
    ObjectId { num, gen: 0 }
}

fn make_entry(key: &str, value: Object) -> (String, Object) {
    (key.to_owned(), value)
}

/// A compact model document: catalog (1), pages root (2), then
/// `n_pages` page leaves.
fn make_model(n_pages: usize) -> PdfDocument {
    let mut objects: Vec<(ObjectId, Object)> = Vec::new();
    objects.push((
        make_id(1),
        Object::Dictionary(Dict {
            entries: vec![
                make_entry("Type", Object::Name("Catalog".to_owned())),
                make_entry("Pages", Object::Reference(make_id(2))),
            ],
        }),
    ));
    let kids: Vec<Object> =
        (0..n_pages).map(|i| Object::Reference(make_id(3 + i as u32))).collect();
    objects.push((
        make_id(2),
        Object::Dictionary(Dict {
            entries: vec![
                make_entry("Type", Object::Name("Pages".to_owned())),
                make_entry("Kids", Object::Array(kids)),
                make_entry("Count", Object::Integer(n_pages as i64)),
            ],
        }),
    ));
    for i in 0..n_pages {
        objects.push((
            make_id(3 + i as u32),
            Object::Dictionary(Dict {
                entries: vec![
                    make_entry("Type", Object::Name("Page".to_owned())),
                    make_entry("Parent", Object::Reference(make_id(2))),
                ],
            }),
        ));
    }
    let trailer = Dict { entries: vec![make_entry("Root", Object::Reference(make_id(1)))] };
    PdfDocument { objects, trailer, version: "1.7".to_owned() }
}

#[test]
fn extraction_recovers_page_texts_in_page_order() {
    let raw = parsed_pdf(&["x", "x", "y"]);
    let texts = extract_page_texts(&raw, 3, 0).expect("extraction should succeed");
    assert_eq!(texts.len(), 3);
    assert!(texts[0].contains('x'));
    assert!(texts[2].contains('y'));
    assert_eq!(texts[0], texts[1]);
    assert_ne!(texts[0], texts[2]);
}

#[test]
fn normalizer_collapses_duplicate_pair_end_to_end() {
    // A document whose page texts are ["x", "x", "y"]: the earlier
    // page of the identical pair is removed and two pages remain.
    let raw = parsed_pdf(&["x", "x", "y"]);
    let mut model = make_model(3);
    normalize_document(&mut model, &raw, DEFAULT_THRESHOLD_BITS, 0)
        .expect("normalization should succeed");
    assert_eq!(model.page_list().len(), 2);
    // The graph is renumbered gap-free afterwards.
    for (j, (id, _)) in model.objects.iter().enumerate() {
        assert_eq!(id.num, j as u32 + 1);
        assert_eq!(id.gen, 0);
    }
    assert_eq!(model.objects.len(), 4);
}

#[test]
fn normalizer_keeps_distinct_pages_end_to_end() {
    let raw = parsed_pdf(&["first page words", "completely different"]);
    let mut model = make_model(2);
    normalize_document(&mut model, &raw, DEFAULT_THRESHOLD_BITS, 0)
        .expect("normalization should succeed");
    assert_eq!(model.page_list().len(), 2);
}

#[test]
fn normalizer_accepts_documents_without_pages() {
    // A document contributing zero pages still normalizes: no
    // extraction runs, so nothing can fail, and the merge proceeds.
    let raw = parsed_pdf(&[]);
    let mut model = make_model(0);
    normalize_document(&mut model, &raw, DEFAULT_THRESHOLD_BITS, 0)
        .expect("zero pages must succeed");
    assert_eq!(model.page_list().len(), 0);
    assert_eq!(model.objects.len(), 2);
}
