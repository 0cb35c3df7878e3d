//! Reading and writing page-format documents through the object-model
//! library (`lopdf`). Parsing and serialization are the library's work; the
//! conversions here move values between its types and the model in
//! `crate::pdf`, one for one.

use vstd::prelude::*;

use crate::merge::{docs_views, merge_documents, spec_merge, StructureError};
use crate::pdf::{doc_wf, DocV, ObjId, PageDoc, PdfDict, PdfObj};

verus! {

/// The object-model library's dictionary type.
#[verifier::external_type_specification]
#[verifier::external_body]
pub struct ExLopdfDictionary(lopdf::Dictionary);

/// The object-model library's string format flag.
#[verifier::external_type_specification]
#[verifier::external_body]
pub struct ExLopdfStringFormat(lopdf::StringFormat);

/// The object-model library's stream type.
#[verifier::external_type_specification]
#[verifier::external_body]
pub struct ExLopdfStream(lopdf::Stream);

/// The document value that a byte buffer parses to, if it parses: parsing is
/// a function of the bytes alone.
pub uninterp spec fn pdf_parsed(b: Seq<u8>) -> Option<DocV>;

/// The serialized form of a document value, if serialization succeeds:
/// a function of the document value alone.
pub uninterp spec fn pdf_bytes(d: DocV) -> Option<Seq<u8>>;

/// Relies on lopdf's `Document::load_mem`: it parses a byte buffer into an
/// object table ordered by identifier (a map keyed by a 32-bit number and a
/// 16-bit generation) and a trailer dictionary with distinct keys, or fails;
/// the outcome depends on the bytes alone.
#[verifier::external_body]
fn parse_document(b: &[u8]) -> (r: Option<PageDoc>)
    ensures
        match r {
            Option::Some(d) => pdf_parsed(b@) == Option::Some(d@) && doc_wf(d@)
                && d@.objects.len() <= 0x1_0000_0000_0000,
            Option::None => pdf_parsed(b@) is None,
        },
{
    match lopdf::Document::load_mem(b) {
        Ok(doc) => {
            let mut objects: Vec<(ObjId, PdfObj)> = Vec::new();
            for (id, o) in doc.objects.iter() {
                objects.push((ObjId { num: id.0 as u64, gen: id.1 }, obj_of_lopdf(o)));
            }
            Some(PageDoc { objects, trailer: dict_of_lopdf(&doc.trailer) })
        },
        Err(_) => None,
    }
}

/// Relies on lopdf's object type: converts one of its objects to the model,
/// variant by variant; a non-integer number (or any other leaf this model
/// does not read) is carried through opaquely.
#[verifier::external_body]
fn obj_of_lopdf(o: &lopdf::Object) -> PdfObj {
    match o {
        lopdf::Object::Null => PdfObj::Null,
        lopdf::Object::Boolean(b) => PdfObj::Bool(*b),
        lopdf::Object::Integer(i) => PdfObj::Int(*i),
        lopdf::Object::Name(n) => PdfObj::Name(n.clone()),
        lopdf::Object::String(s, f) => text_of_lopdf(s, f),
        lopdf::Object::Reference(id) => PdfObj::Ref(ObjId { num: id.0 as u64, gen: id.1 }),
        other => container_of_lopdf(other),
    }
}

/// Relies on lopdf's object type: converts a container (or an uninterpreted
/// leaf, carried opaquely).
#[verifier::external_body]
fn container_of_lopdf(o: &lopdf::Object) -> PdfObj {
    match o {
        lopdf::Object::Array(items) => PdfObj::Arr(items.iter().map(obj_of_lopdf).collect()),
        lopdf::Object::Dictionary(d) => PdfObj::Dict(dict_of_lopdf(d)),
        lopdf::Object::Stream(s) => stream_of_lopdf(s),
        other => PdfObj::Opaque(other.clone()),
    }
}

/// Relies on lopdf's string format flag: a literal or hexadecimal string.
#[verifier::external_body]
fn text_of_lopdf(s: &Vec<u8>, f: &lopdf::StringFormat) -> PdfObj {
    PdfObj::Text(s.clone(), matches!(f, lopdf::StringFormat::Hexadecimal))
}

/// Relies on lopdf's stream type: its dictionary, raw content, and
/// compressibility flag.
#[verifier::external_body]
fn stream_of_lopdf(s: &lopdf::Stream) -> PdfObj {
    PdfObj::Stream(dict_of_lopdf(&s.dict), s.content.clone(), s.allows_compression)
}

/// Relies on lopdf's dictionary type: converts its entries in order; its
/// keys are distinct.
#[verifier::external_body]
fn dict_of_lopdf(d: &lopdf::Dictionary) -> PdfDict {
    let mut entries: Vec<(Vec<u8>, PdfObj)> = Vec::new();
    for (k, v) in d.iter() {
        entries.push((k.clone(), obj_of_lopdf(v)));
    }
    PdfDict { entries }
}

/// Relies on lopdf's object type: converts one model object back, variant by
/// variant; fails when an identifier does not fit the format's 32 bits.
#[verifier::external_body]
fn lopdf_of_obj(o: &PdfObj) -> Option<lopdf::Object> {
    Some(match o {
        PdfObj::Null => lopdf::Object::Null,
        PdfObj::Bool(b) => lopdf::Object::Boolean(*b),
        PdfObj::Int(i) => lopdf::Object::Integer(*i),
        PdfObj::Name(n) => lopdf::Object::Name(n.clone()),
        PdfObj::Text(t, hex) => lopdf_text(t, *hex),
        PdfObj::Ref(id) => lopdf::Object::Reference((u32::try_from(id.num).ok()?, id.gen)),
        other => lopdf_of_container(other)?,
    })
}

/// Relies on lopdf's object type: converts a model container back (an
/// opaque leaf is returned as it came).
#[verifier::external_body]
fn lopdf_of_container(o: &PdfObj) -> Option<lopdf::Object> {
    Some(match o {
        PdfObj::Arr(i) => lopdf::Object::Array(i.iter().map(lopdf_of_obj).collect::<Option<_>>()?),
        PdfObj::Dict(d) => lopdf::Object::Dictionary(lopdf_of_dict(d)?),
        PdfObj::Stream(d, c, z) => lopdf_stream(d, c, *z)?,
        PdfObj::Opaque(x) => x.clone(),
        _ => lopdf::Object::Null,
    })
}

/// Relies on lopdf's string format flag.
#[verifier::external_body]
fn lopdf_text(t: &Vec<u8>, hex: bool) -> lopdf::Object {
    let f = if hex {
        lopdf::StringFormat::Hexadecimal
    } else {
        lopdf::StringFormat::Literal
    };
    lopdf::Object::String(t.clone(), f)
}

/// Relies on lopdf's stream constructor and compressibility flag.
#[verifier::external_body]
fn lopdf_stream(d: &PdfDict, c: &Vec<u8>, z: bool) -> Option<lopdf::Object> {
    Some(lopdf::Object::Stream(lopdf::Stream::new(lopdf_of_dict(d)?, c.clone()).with_compression(z)))
}

/// Relies on lopdf's dictionary type: converts model entries back in order.
#[verifier::external_body]
fn lopdf_of_dict(d: &PdfDict) -> Option<lopdf::Dictionary> {
    let mut out = lopdf::Dictionary::new();
    for (k, v) in d.entries.iter() {
        out.set(k.clone(), lopdf_of_obj(v)?);
    }
    Some(out)
}

/// Relies on lopdf's `Document::save_to` (and `compress`, the structural
/// compaction before writing): serializes the header, object table and
/// trailer; fails when an identifier does not fit the format's 32 bits. The
/// outcome depends on the document value alone.
#[verifier::external_body]
fn write_document(doc: &PageDoc) -> (r: Option<Vec<u8>>)
    ensures
        match r {
            Option::Some(bytes) => pdf_bytes(doc@) == Option::Some(bytes@),
            Option::None => pdf_bytes(doc@) is None,
        },
{
    let mut d = lopdf_document(doc)?;
    d.compress();
    let mut buf: Vec<u8> = Vec::new();
    match d.save_to(&mut buf) {
        Ok(_) => Some(buf),
        Err(_) => None,
    }
}

/// The lopdf document type, built at the write boundary.
#[verifier::external_type_specification]
#[verifier::external_body]
pub struct ExLopdfDocument(lopdf::Document);

/// Relies on lopdf's document type: a fresh document at format version 1.5
/// with the model's object table and trailer, its highest identifier
/// recorded.
#[verifier::external_body]
fn lopdf_document(doc: &PageDoc) -> Option<lopdf::Document> {
    let mut d = lopdf::Document::with_version("1.5");
    for (id, o) in doc.objects.iter() {
        let num = u32::try_from(id.num).ok()?;
        d.max_id = if num > d.max_id { num } else { d.max_id };
        d.objects.insert((num, id.gen), lopdf_of_obj(o)?);
    }
    d.trailer = lopdf_of_dict(&doc.trailer)?;
    Some(d)
}

/// Why a batch of buffers could not be merged.
#[derive(Clone, Copy, PartialEq, Eq, Structural, Debug)]
pub enum MergeError {
    /// Some input buffer is not a well-formed document; the whole batch is
    /// rejected and no output is produced.
    Parse,
    /// The batch exceeds the format's identifier space: more than `2^31 - 1`
    /// documents, or one document with more than `2^32` objects.
    TooLarge,
    /// No pages root, or no catalog, was found (an empty batch fails this
    /// way).
    Structure(StructureError),
    /// The merged document could not be serialized.
    Write,
}

pub open spec fn buf_views(v: Seq<&[u8]>) -> Seq<Seq<u8>> {
    Seq::new(v.len(), |i: int| v[i]@)
}

/// Every buffer parses.
pub open spec fn all_parse(bufs: Seq<Seq<u8>>) -> bool {
    forall|i: int| 0 <= i < bufs.len() ==> pdf_parsed(#[trigger] bufs[i]) is Some
}

/// The documents the buffers parse to.
pub open spec fn parsed_docs(bufs: Seq<Seq<u8>>) -> Seq<DocV> {
    Seq::new(bufs.len(), |i: int| pdf_parsed(bufs[i])->0)
}

/// The batch fits the format's identifier space.
pub open spec fn batch_fits(docs: Seq<DocV>) -> bool {
    docs.len() <= 0x7FFF_FFFF && forall|i: int|
        0 <= i < docs.len() ==> (#[trigger] docs[i]).objects.len() <= 0x1_0000_0000
}

/// Merge an ordered sequence of page-format byte buffers into one document,
/// serialized: each buffer is parsed, the documents are merged as
/// `spec_merge` describes, and the result is written out. One bad input
/// fails the whole batch; nothing partial is ever returned.
#[verifier::loop_isolation(false)]
pub fn merge_pdfs(output_files: Vec<&[u8]>) -> (r: Result<Vec<u8>, MergeError>)
    ensures
        ({
            let bufs = buf_views(output_files@);
            match r {
                Result::Ok(bytes) => all_parse(bufs) && batch_fits(parsed_docs(bufs))
                    && spec_merge(parsed_docs(bufs)) is Ok && pdf_bytes(
                    spec_merge(parsed_docs(bufs))->Ok_0,
                ) == Option::Some(bytes@),
                Result::Err(MergeError::Parse) => !all_parse(bufs),
                Result::Err(MergeError::TooLarge) => all_parse(bufs) && !batch_fits(
                    parsed_docs(bufs),
                ),
                Result::Err(MergeError::Structure(e)) => all_parse(bufs) && batch_fits(
                    parsed_docs(bufs),
                ) && spec_merge(parsed_docs(bufs)) == Result::<DocV, StructureError>::Err(e),
                Result::Err(MergeError::Write) => all_parse(bufs) && batch_fits(
                    parsed_docs(bufs),
                ) && spec_merge(parsed_docs(bufs)) is Ok && pdf_bytes(
                    spec_merge(parsed_docs(bufs))->Ok_0,
                ) is None,
            }
        }),
{
    broadcast use crate::pdf::group_pdf_views;

    let ghost bufs = buf_views(output_files@);
    let n = output_files.len();
    let mut docs: Vec<PageDoc> = Vec::new();
    let mut i: usize = 0;
    while i < n
        invariant
            0 <= i <= n,
            n == output_files@.len(),
            bufs == buf_views(output_files@),
            docs@.len() == i,
            forall|j: int| 0 <= j < i ==> pdf_parsed(#[trigger] bufs[j]) is Some,
            forall|j: int|
                0 <= j < i ==> pdf_parsed(bufs[j]) == Option::Some((#[trigger] docs@[j])@),
            forall|j: int| 0 <= j < i ==> doc_wf((#[trigger] docs@[j])@),
            forall|j: int|
                0 <= j < i ==> (#[trigger] docs@[j])@.objects.len() <= 0x1_0000_0000_0000,
        decreases n - i,
    {
        match parse_document(output_files[i]) {
            Option::Some(d) => {
                docs.push(d);
            },
            Option::None => {
                proof {
                    assert(bufs[i as int] == output_files@[i as int]@);
                    assert(!(pdf_parsed(bufs[i as int]) is Some));
                }
                return Result::Err(MergeError::Parse);
            },
        }
        i += 1;
    }
    proof {
        assert(docs_views(docs@) =~= parsed_docs(bufs));
    }
    if docs.len() > 0x7FFF_FFFF {
        return Result::Err(MergeError::TooLarge);
    }
    let mut k: usize = 0;
    let nd = docs.len();
    while k < nd
        invariant
            0 <= k <= nd,
            nd == docs@.len(),
            forall|j: int|
                0 <= j < k ==> (#[trigger] docs@[j])@.objects.len() <= 0x1_0000_0000,
        decreases nd - k,
    {
        if docs[k].objects.len() as u64 > 0x1_0000_0000u64 {
            proof {
                assert(parsed_docs(bufs)[k as int] == docs@[k as int]@);
            }
            return Result::Err(MergeError::TooLarge);
        }
        k += 1;
    }
    proof {
        assert(batch_fits(parsed_docs(bufs))) by {
            assert(forall|j: int|
                0 <= j < parsed_docs(bufs).len() ==> parsed_docs(bufs)[j] == (
                #[trigger] docs@[j])@);
        }
    }
    match merge_documents(&docs) {
        Result::Err(e) => Result::Err(MergeError::Structure(e)),
        Result::Ok(m) => {
            match write_document(&m) {
                Option::Some(bytes) => Result::Ok(bytes),
                Option::None => Result::Err(MergeError::Write),
            }
        },
    }
}

} // verus!
