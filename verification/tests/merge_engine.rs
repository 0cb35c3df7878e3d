use svg_report::merge::{merge_documents, StructureError};
use svg_report::pdf::{ObjId, PageDoc, PdfDict, PdfObj};
use svg_report::pdf_io::{merge_pdfs, MergeError};

fn name(n: &[u8]) -> PdfObj {
    PdfObj::Name(n.to_vec())
}

fn rf(num: u64) -> PdfObj {
    PdfObj::Ref(ObjId { num, gen: 0 })
}

fn dict(entries: Vec<(&[u8], PdfObj)>) -> PdfDict {
    PdfDict { entries: entries.into_iter().map(|(k, v)| (k.to_vec(), v)).collect() }
}

/// One document with a catalog, a pages root, and one page, numbered from 1.
fn single_page_doc() -> PageDoc {
    PageDoc {
        objects: vec![
            (
                ObjId { num: 1, gen: 0 },
                PdfObj::Dict(dict(vec![(b"Type", name(b"Catalog")), (b"Pages", rf(2))])),
            ),
            (
                ObjId { num: 2, gen: 0 },
                PdfObj::Dict(dict(vec![
                    (b"Type", name(b"Pages")),
                    (b"Kids", PdfObj::Arr(vec![rf(3)])),
                    (b"Count", PdfObj::Int(1)),
                ])),
            ),
            (
                ObjId { num: 3, gen: 0 },
                PdfObj::Dict(dict(vec![(b"Type", name(b"Page")), (b"Parent", rf(2))])),
            ),
        ],
        trailer: dict(vec![(b"Root", rf(1))]),
    }
}

fn get_entry<'a>(d: &'a PdfDict, key: &[u8]) -> Option<&'a PdfObj> {
    d.entries.iter().find(|(k, _)| k == key).map(|(_, v)| v)
}

fn type_of(o: &PdfObj) -> Option<&[u8]> {
    match o {
        PdfObj::Dict(d) => match get_entry(d, b"Type") {
            Some(PdfObj::Name(n)) => Some(n.as_slice()),
            _ => None,
        },
        _ => None,
    }
}

fn find_by_type<'a>(doc: &'a PageDoc, ty: &[u8]) -> Vec<(ObjId, &'a PdfDict)> {
    doc.objects
        .iter()
        .filter_map(|(id, o)| match o {
            PdfObj::Dict(d) if type_of(o) == Some(ty) => Some((*id, d)),
            _ => None,
        })
        .collect()
}

fn check_merged(k: usize) {
    let docs: Vec<PageDoc> = (0..k).map(|_| single_page_doc()).collect();
    let merged = merge_documents(&docs).unwrap();

    // identifiers are dense, starting at 1
    for (i, (id, _)) in merged.objects.iter().enumerate() {
        assert_eq!((id.num, id.gen), (i as u64 + 1, 0));
    }

    // one pages root, with Count == k and a child list of exactly k entries
    let pages_roots = find_by_type(&merged, b"Pages");
    assert_eq!(pages_roots.len(), 1);
    let (pages_id, pages_dict) = (pages_roots[0].0, pages_roots[0].1);
    match get_entry(pages_dict, b"Count") {
        Some(PdfObj::Int(c)) => assert_eq!(*c, k as i64),
        other => panic!("bad Count: {:?}", other.is_some()),
    }
    let kids: Vec<ObjId> = match get_entry(pages_dict, b"Kids") {
        Some(PdfObj::Arr(items)) => items
            .iter()
            .map(|o| match o {
                PdfObj::Ref(id) => *id,
                _ => panic!("kid is not a reference"),
            })
            .collect(),
        _ => panic!("no Kids"),
    };
    assert_eq!(kids.len(), k);

    // each kid is a distinct page object whose parent is the pages root
    let pages = find_by_type(&merged, b"Page");
    assert_eq!(pages.len(), k);
    for (i, kid) in kids.iter().enumerate() {
        let (_, pd) = pages.iter().find(|(id, _)| id == kid).unwrap();
        match get_entry(pd, b"Parent") {
            Some(PdfObj::Ref(p)) => assert_eq!(*p, pages_id),
            _ => panic!("page {} has no parent link", i),
        }
    }

    // the trailer points at the one catalog, whose pages link is the root
    let catalogs = find_by_type(&merged, b"Catalog");
    assert_eq!(catalogs.len(), 1);
    let (cat_id, cat_dict) = (catalogs[0].0, catalogs[0].1);
    match get_entry(&merged.trailer, b"Root") {
        Some(PdfObj::Ref(r)) => assert_eq!(*r, cat_id),
        _ => panic!("no trailer root"),
    }
    match get_entry(cat_dict, b"Pages") {
        Some(PdfObj::Ref(p)) => assert_eq!(*p, pages_id),
        _ => panic!("catalog has no pages link"),
    }

    // exactly k bookmarks titled Page_1..Page_k, in order, each aimed at a page
    let outlines = find_by_type(&merged, b"Outlines");
    assert_eq!(outlines.len(), 1);
    match get_entry(outlines[0].1, b"Count") {
        Some(PdfObj::Int(c)) => assert_eq!(*c, k as i64),
        _ => panic!("outline root has no count"),
    }
    match get_entry(cat_dict, b"Outlines") {
        Some(PdfObj::Ref(r)) => assert_eq!(*r, outlines[0].0),
        _ => panic!("catalog has no outline link"),
    }
    let mut cur = match get_entry(outlines[0].1, b"First") {
        Some(PdfObj::Ref(r)) => Some(*r),
        _ => panic!("outline root has no first item"),
    };
    let mut titles: Vec<Vec<u8>> = Vec::new();
    while let Some(id) = cur {
        let (_, item) = merged.objects.iter().find(|(i, _)| *i == id).unwrap();
        let item = match item {
            PdfObj::Dict(d) => d,
            _ => panic!("outline item is not a dictionary"),
        };
        match get_entry(item, b"Title") {
            Some(PdfObj::Text(t, false)) => titles.push(t.clone()),
            _ => panic!("outline item has no title"),
        }
        match get_entry(item, b"Dest") {
            Some(PdfObj::Arr(items)) => match &items[0] {
                PdfObj::Ref(target) => {
                    assert!(kids.contains(target));
                }
                _ => panic!("destination is not a reference"),
            },
            _ => panic!("outline item has no destination"),
        }
        cur = match get_entry(item, b"Next") {
            Some(PdfObj::Ref(r)) => Some(*r),
            _ => None,
        };
    }
    let want: Vec<Vec<u8>> = (1..=k).map(|i| format!("Page_{}", i).into_bytes()).collect();
    assert_eq!(titles, want);
}

#[test]
fn merge_one_document() {
    check_merged(1);
}

#[test]
fn merge_two_documents() {
    check_merged(2);
}

#[test]
fn merge_five_documents() {
    check_merged(5);
}

#[test]
fn colliding_ids_become_distinct_pages() {
    // both documents use ids (1,0)..(3,0) internally
    let docs = vec![single_page_doc(), single_page_doc()];
    let merged = merge_documents(&docs).unwrap();
    let pages = find_by_type(&merged, b"Page");
    assert_eq!(pages.len(), 2);
    assert_ne!(pages[0].0, pages[1].0);
}

#[test]
fn merge_nothing_is_a_structure_error() {
    assert!(matches!(
        merge_documents(&Vec::new()),
        Err(StructureError::MissingPagesRoot)
    ));
    assert!(matches!(
        merge_pdfs(Vec::new()),
        Err(MergeError::Structure(StructureError::MissingPagesRoot))
    ));
}

#[test]
fn missing_catalog_is_reported() {
    let doc = PageDoc {
        objects: vec![(
            ObjId { num: 1, gen: 0 },
            PdfObj::Dict(dict(vec![
                (b"Type", name(b"Pages")),
                (b"Kids", PdfObj::Arr(vec![])),
                (b"Count", PdfObj::Int(0)),
            ])),
        )],
        trailer: dict(vec![(b"Root", rf(1))]),
    };
    assert!(matches!(
        merge_documents(&vec![doc]),
        Err(StructureError::MissingCatalog)
    ));
}

#[test]
fn unparseable_buffer_fails_the_batch() {
    assert!(matches!(
        merge_pdfs(vec![b"not a document"]),
        Err(MergeError::Parse)
    ));
}

/// Build a tiny real document with lopdf, then merge serialized copies and
/// read the result back: the byte-level boundary round-trips.
fn tiny_pdf_bytes(label: &str) -> Vec<u8> {
    let mut doc = lopdf::Document::with_version("1.5");
    let pages_id = doc.new_object_id();
    let content = lopdf::content::Content {
        operations: vec![lopdf::content::Operation::new(
            "Tj",
            vec![lopdf::Object::string_literal(label)],
        )],
    };
    let content_id = doc.add_object(lopdf::Stream::new(
        lopdf::Dictionary::new(),
        content.encode().unwrap(),
    ));
    let mut page = lopdf::Dictionary::new();
    page.set("Type", lopdf::Object::Name(b"Page".to_vec()));
    page.set("Parent", lopdf::Object::Reference(pages_id));
    page.set("Contents", lopdf::Object::Reference(content_id));
    let page_id = doc.add_object(page);
    let mut pages = lopdf::Dictionary::new();
    pages.set("Type", lopdf::Object::Name(b"Pages".to_vec()));
    pages.set(
        "Kids",
        lopdf::Object::Array(vec![lopdf::Object::Reference(page_id)]),
    );
    pages.set("Count", lopdf::Object::Integer(1));
    pages.set(
        "MediaBox",
        lopdf::Object::Array(vec![
            lopdf::Object::Integer(0),
            lopdf::Object::Integer(0),
            lopdf::Object::Integer(200),
            lopdf::Object::Integer(100),
        ]),
    );
    doc.objects.insert(pages_id, lopdf::Object::Dictionary(pages));
    let mut catalog = lopdf::Dictionary::new();
    catalog.set("Type", lopdf::Object::Name(b"Catalog".to_vec()));
    catalog.set("Pages", lopdf::Object::Reference(pages_id));
    let catalog_id = doc.add_object(catalog);
    doc.trailer.set("Root", catalog_id);
    let mut out: Vec<u8> = Vec::new();
    doc.save_to(&mut out).unwrap();
    out
}

#[test]
fn merged_bytes_read_back_with_all_pages() {
    let a = tiny_pdf_bytes("first");
    let b = tiny_pdf_bytes("second");
    let merged = merge_pdfs(vec![a.as_slice(), b.as_slice()]).unwrap();
    let doc = lopdf::Document::load_mem(&merged).unwrap();
    assert_eq!(doc.get_pages().len(), 2);
    // a fresh outline with one bookmark per source document
    let catalog = doc.catalog().unwrap();
    assert!(catalog.get(b"Outlines").is_ok());
}
