//! The merge engine: combines an ordered sequence of page-format documents
//! into one self-consistent document — renumbering identifiers, reconciling
//! duplicate root objects, rebuilding the page tree, and constructing a fresh
//! outline with one bookmark per source document.
//!
//! Every step is defined twice: as a specification function over document
//! values (`spec_*`), and as executable code proved to return exactly the
//! specified value.

use vstd::prelude::*;

use crate::names::{
    k_catalog, k_color, k_count, k_dest, k_first, k_fit, k_flags, k_kids, k_last, k_next,
    k_outline, k_outlines, k_page, k_page_prefix, k_pages, k_parent, k_prev, k_root, k_title,
    k_type, key_catalog, key_count, key_kids, key_outline, key_page, key_pages, key_parent, key_root, key_type, key_title, key_dest,
    key_color, key_flags, key_first, key_last, key_next, key_prev, key_fit, key_outlines,
    key_page_prefix,
};
use crate::pdf::{
    bytes_eq, dec_bytes, doc_wf, group_pdf_views, max_obj_num, spec_dec, spec_find, spec_lookup,
    spec_remove, spec_set, table_find, view_id_pairs, view_obj, view_objs, view_pairs, view_table,
    DocV, ObjId, ObjV, PageDoc, PdfDict, PdfObj,
};

verus! {

/// The merged result is missing a root object: no pages root, or no catalog,
/// was found in any input document.
#[derive(Clone, Copy, PartialEq, Eq, Structural, Debug)]
pub enum StructureError {
    MissingPagesRoot,
    MissingCatalog,
}

// ----------------------------------------------------------------------------
// Object classification by declared type
// ----------------------------------------------------------------------------

/// The declared type of an object: the value of the `Type` key of a
/// dictionary or of a stream's dictionary, when that value is a name.
pub open spec fn obj_type(o: ObjV) -> Option<Seq<u8>> {
    match o {
        ObjV::Dict(d) => type_entry(d),
        ObjV::Stream(d, _, _) => type_entry(d),
        _ => Option::None,
    }
}

pub open spec fn type_entry(d: Seq<(Seq<u8>, ObjV)>) -> Option<Seq<u8>> {
    match spec_lookup(d, k_type()) {
        Option::Some(ObjV::Name(n)) => Option::Some(n),
        _ => Option::None,
    }
}

/// A dictionary object declared as a catalog.
pub open spec fn is_catalog(o: ObjV) -> bool {
    o is Dict && obj_type(o) == Option::Some(k_catalog())
}

/// A dictionary object declared as a pages root.
pub open spec fn is_pages_root(o: ObjV) -> bool {
    o is Dict && obj_type(o) == Option::Some(k_pages())
}

/// An object dropped by the classification pass: a page (re-inserted later
/// with corrected parentage) or a prior outline node (a fresh outline is
/// built instead).
pub open spec fn is_dropped(o: ObjV) -> bool {
    ||| obj_type(o) == Option::Some(k_page())
    ||| obj_type(o) == Option::Some(k_outlines())
    ||| obj_type(o) == Option::Some(k_outline())
}

// ----------------------------------------------------------------------------
// Renumbering by a fixed offset
// ----------------------------------------------------------------------------

/// Upper bound on the running next-available identifier, so that offset
/// arithmetic cannot overflow a `u64`.
pub open spec fn base_limit() -> u64 {
    0xFFFF_FFFF_0000_0000u64
}

/// The new identifier of an object numbered `num` in a document whose
/// smallest number is `minv`, placed so the document's numbers start at
/// `base`.
pub open spec fn ren_num(num: u64, minv: u64, base: u64) -> u64
    recommends
        minv <= num,
        num <= max_obj_num(),
        base <= base_limit(),
{
    ((num - minv) + base) as u64
}

/// A reference target is rewritten by the same offset; a target below the
/// document's smallest number cannot name any of its objects and is left
/// unchanged (it is dangling either way).
pub open spec fn ren_ref(id: ObjId, minv: u64, base: u64) -> ObjId {
    if minv <= id.num && id.num <= max_obj_num() {
        ObjId { num: ren_num(id.num, minv, base), gen: id.gen }
    } else {
        id
    }
}

/// Rewrite every reference inside an object by the document's offset.
pub open spec fn ren_obj(o: ObjV, minv: u64, base: u64) -> ObjV
    decreases o,
{
    match o {
        ObjV::Ref(id) => ObjV::Ref(ren_ref(id, minv, base)),
        ObjV::Arr(items) => ObjV::Arr(ren_objs(items, minv, base)),
        ObjV::Dict(d) => ObjV::Dict(ren_pairs(d, minv, base)),
        ObjV::Stream(d, c, z) => ObjV::Stream(ren_pairs(d, minv, base), c, z),
        _ => o,
    }
}

pub open spec fn ren_objs(s: Seq<ObjV>, minv: u64, base: u64) -> Seq<ObjV>
    decreases s,
{
    if s.len() == 0 {
        Seq::empty()
    } else {
        proof {
            assert(decreases_to!(s => s[0]));
            assert(decreases_to!(s => s.subrange(1, s.len() as int)));
        }
        seq![ren_obj(s[0], minv, base)] + ren_objs(s.skip(1), minv, base)
    }
}

pub open spec fn ren_pairs(s: Seq<(Seq<u8>, ObjV)>, minv: u64, base: u64) -> Seq<(Seq<u8>, ObjV)>
    decreases s,
{
    if s.len() == 0 {
        Seq::empty()
    } else {
        proof {
            assert(decreases_to!(s => s[0]));
            assert(decreases_to!(s => s.subrange(1, s.len() as int)));
        }
        seq![(s[0].0, ren_obj(s[0].1, minv, base))] + ren_pairs(s.skip(1), minv, base)
    }
}

/// The smallest object number of a table; `0` for an empty table.
pub open spec fn table_min(t: Seq<(ObjId, ObjV)>) -> u64
    decreases t.len(),
{
    if t.len() == 0 {
        0u64
    } else {
        let rest = table_min(t.skip(1));
        if t.len() == 1 || t[0].0.num <= rest {
            t[0].0.num
        } else {
            rest
        }
    }
}

/// The largest object number of a table; `0` for an empty table.
pub open spec fn table_max(t: Seq<(ObjId, ObjV)>) -> u64
    decreases t.len(),
{
    if t.len() == 0 {
        0u64
    } else {
        let rest = table_max(t.skip(1));
        if t[0].0.num >= rest {
            t[0].0.num
        } else {
            rest
        }
    }
}

/// One document's object table renumbered to start at `base`.
pub open spec fn ren_table(t: Seq<(ObjId, ObjV)>, base: u64) -> Seq<(ObjId, ObjV)> {
    let minv = table_min(t);
    Seq::new(t.len(), |i: int| (ren_ref(t[i].0, minv, base), ren_obj(t[i].1, minv, base)))
}

/// The next available identifier after placing table `t` at `base`:
/// one past the highest number now in use.
pub open spec fn next_base(t: Seq<(ObjId, ObjV)>, base: u64) -> u64 {
    if t.len() == 0 {
        base
    } else {
        (ren_num(table_max(t), table_min(t), base) + 1) as u64
    }
}

/// The base offset of document `i` in the batch: the first document is
/// placed at `1`, each following one just past its predecessor.
pub open spec fn doc_base(docs: Seq<DocV>, i: int) -> u64
    decreases i,
{
    if i <= 0 {
        1u64
    } else {
        next_base(docs[i - 1].objects, doc_base(docs, i - 1))
    }
}

/// The accumulated object table: every document renumbered to its base,
/// in order.
pub open spec fn spec_table(docs: Seq<DocV>) -> Seq<(ObjId, ObjV)>
    decreases docs.len(),
{
    if docs.len() == 0 {
        Seq::empty()
    } else {
        spec_table(docs.drop_last()) + ren_table(
            docs.last().objects,
            doc_base(docs, docs.len() - 1),
        )
    }
}

// ----------------------------------------------------------------------------
// The page tree walk
// ----------------------------------------------------------------------------

/// The ordered pages reached from object `id`: a `Pages` node contributes its
/// `Kids` in order, a `Page` leaf contributes itself. `fuel` bounds the
/// depth, so a malformed, cyclic tree yields a truncated list instead of
/// non-termination.
pub open spec fn spec_pages(t: Seq<(ObjId, ObjV)>, id: ObjId, fuel: nat) -> Seq<ObjId>
    decreases fuel, 0nat,
{
    if fuel == 0 {
        Seq::empty()
    } else {
        match spec_find(t, id) {
            Option::Some(ObjV::Dict(d)) => {
                if type_entry(d) == Option::Some(k_page()) {
                    seq![id]
                } else if type_entry(d) == Option::Some(k_pages()) {
                    match spec_lookup(d, k_kids()) {
                        Option::Some(ObjV::Arr(kids)) => spec_pages_kids(
                            t,
                            kids,
                            (fuel - 1) as nat,
                        ),
                        _ => Seq::empty(),
                    }
                } else {
                    Seq::empty()
                }
            },
            _ => Seq::empty(),
        }
    }
}

pub open spec fn spec_pages_kids(t: Seq<(ObjId, ObjV)>, kids: Seq<ObjV>, fuel: nat) -> Seq<ObjId>
    decreases fuel, kids.len() + 1nat,
{
    if kids.len() == 0 {
        Seq::empty()
    } else {
        let head = match kids[0] {
            ObjV::Ref(k) => spec_pages(t, k, fuel),
            _ => Seq::empty(),
        };
        head + spec_pages_kids(t, kids.skip(1), fuel)
    }
}

/// The ordered page list of one document: from the trailer's root reference
/// through the catalog's pages link, down the page tree.
pub open spec fn doc_page_ids(t: Seq<(ObjId, ObjV)>, trailer: Seq<(Seq<u8>, ObjV)>) -> Seq<ObjId> {
    match spec_lookup(trailer, k_root()) {
        Option::Some(ObjV::Ref(c)) => match spec_find(t, c) {
            Option::Some(ObjV::Dict(cd)) => match spec_lookup(cd, k_pages()) {
                Option::Some(ObjV::Ref(p)) => spec_pages(t, p, (t.len() + 1) as nat),
                _ => Seq::empty(),
            },
            _ => Seq::empty(),
        },
        _ => Seq::empty(),
    }
}

/// The renumbered page list of document `i` of the batch.
pub open spec fn doc_pages_at(docs: Seq<DocV>, i: int) -> Seq<ObjId> {
    doc_page_ids(
        ren_table(docs[i].objects, doc_base(docs, i)),
        ren_pairs(docs[i].trailer, table_min(docs[i].objects), doc_base(docs, i)),
    )
}

/// All pages of the batch, in source order.
pub open spec fn all_pages(docs: Seq<DocV>) -> Seq<ObjId>
    decreases docs.len(),
{
    if docs.len() == 0 {
        Seq::empty()
    } else {
        all_pages(docs.drop_last()) + doc_pages_at(docs, docs.len() - 1)
    }
}

/// The bookmark targets: the first page of each document that has pages,
/// in source order.
pub open spec fn bookmark_targets(docs: Seq<DocV>) -> Seq<ObjId>
    decreases docs.len(),
{
    if docs.len() == 0 {
        Seq::empty()
    } else {
        let here = doc_pages_at(docs, docs.len() - 1);
        bookmark_targets(docs.drop_last()) + if here.len() == 0 {
            Seq::empty()
        } else {
            seq![here[0]]
        }
    }
}

/// The title of bookmark `j` (0-based): `Page_<j+1>`.
pub open spec fn bookmark_title(j: int) -> Seq<u8> {
    k_page_prefix() + spec_dec((j + 1) as nat)
}

// ----------------------------------------------------------------------------
// Classification of the accumulated table
// ----------------------------------------------------------------------------

/// State carried through the classification pass.
pub struct ClassifyState {
    pub catalog: Option<(ObjId, Seq<(Seq<u8>, ObjV)>)>,
    pub pages: Option<(ObjId, Seq<(Seq<u8>, ObjV)>)>,
    pub kept: Seq<(ObjId, ObjV)>,
}

/// One classification pass over the accumulated table:
/// - the first catalog seen fixes the canonical identity, later catalog
///   content overwrites the running content;
/// - the first pages root seen fixes the canonical identity, later pages
///   content is merged key by key without overwriting (first write wins);
/// - pages and prior outline nodes are dropped;
/// - everything else is kept unchanged.
pub open spec fn spec_classify(t: Seq<(ObjId, ObjV)>, st: ClassifyState) -> ClassifyState
    decreases t.len(),
{
    if t.len() == 0 {
        st
    } else {
        let (id, o) = t[0];
        let st1 = if is_catalog(o) {
            ClassifyState {
                catalog: Option::Some(
                    (
                        match st.catalog {
                            Option::Some((cid, _)) => cid,
                            Option::None => id,
                        },
                        o->Dict_0,
                    ),
                ),
                ..st
            }
        } else if is_pages_root(o) {
            ClassifyState {
                pages: Option::Some(
                    (
                        match st.pages {
                            Option::Some((pid, _)) => pid,
                            Option::None => id,
                        },
                        match st.pages {
                            Option::Some((_, old)) => merge_keep_first(old, o->Dict_0),
                            Option::None => o->Dict_0,
                        },
                    ),
                ),
                ..st
            }
        } else if is_dropped(o) {
            st
        } else {
            ClassifyState { kept: st.kept.push((id, o)), ..st }
        };
        spec_classify(t.skip(1), st1)
    }
}

/// Merge `extra` into `base` key by key, never overwriting a key already
/// present in `base`.
pub open spec fn merge_keep_first(
    base: Seq<(Seq<u8>, ObjV)>,
    extra: Seq<(Seq<u8>, ObjV)>,
) -> Seq<(Seq<u8>, ObjV)>
    decreases extra.len(),
{
    if extra.len() == 0 {
        base
    } else {
        let base1 = if spec_lookup(base, extra[0].0) is Some {
            base
        } else {
            base.push(extra[0])
        };
        merge_keep_first(base1, extra.skip(1))
    }
}

pub open spec fn empty_classify_state() -> ClassifyState {
    ClassifyState {
        catalog: Option::None,
        pages: Option::None,
        kept: Seq::empty(),
    }
}

// ----------------------------------------------------------------------------
// Assembly: re-inserted pages, root contents, dense renumbering, outline
// ----------------------------------------------------------------------------

/// Replace the first entry stored under `id`, or append a new entry.
pub open spec fn table_set(t: Seq<(ObjId, ObjV)>, id: ObjId, o: ObjV) -> Seq<(ObjId, ObjV)>
    decreases t.len(),
{
    if t.len() == 0 {
        seq![(id, o)]
    } else if t[0].0 == id {
        seq![(id, o)] + t.skip(1)
    } else {
        seq![t[0]] + table_set(t.skip(1), id, o)
    }
}

/// Re-insert the collected pages: each page object (as it stands in the
/// accumulated table) with its parent link forced to the canonical pages
/// root.
pub open spec fn insert_pages(
    acc: Seq<(ObjId, ObjV)>,
    src: Seq<(ObjId, ObjV)>,
    pages: Seq<ObjId>,
    pages_id: ObjId,
) -> Seq<(ObjId, ObjV)>
    decreases pages.len(),
{
    if pages.len() == 0 {
        acc
    } else {
        let acc1 = match spec_find(src, pages[0]) {
            Option::Some(ObjV::Dict(pd)) => table_set(
                acc,
                pages[0],
                ObjV::Dict(spec_set(pd, k_parent(), ObjV::Ref(pages_id))),
            ),
            _ => acc,
        };
        insert_pages(acc1, src, pages.skip(1), pages_id)
    }
}

/// The position of `id` among `keys`, if present.
pub open spec fn pos_of(keys: Seq<ObjId>, id: ObjId) -> Option<nat>
    decreases keys.len(),
{
    if keys.len() == 0 {
        Option::None
    } else if keys[0] == id {
        Option::Some(0nat)
    } else {
        match pos_of(keys.skip(1), id) {
            Option::Some(p) => Option::Some((p + 1) as nat),
            Option::None => Option::None,
        }
    }
}

/// The dense identifier of position `p`: numbers run from 1 upward, with
/// generation 0.
pub open spec fn dense_id(p: nat) -> ObjId {
    ObjId { num: (p + 1) as u64, gen: 0u16 }
}

/// Rewrite a reference for the dense renumbering: a reference to a dropped
/// object is replaced by null.
pub open spec fn remap_ref(id: ObjId, keys: Seq<ObjId>) -> ObjV {
    match pos_of(keys, id) {
        Option::Some(p) => ObjV::Ref(dense_id(p)),
        Option::None => ObjV::Null,
    }
}

pub open spec fn remap_obj(o: ObjV, keys: Seq<ObjId>) -> ObjV
    decreases o,
{
    match o {
        ObjV::Ref(id) => remap_ref(id, keys),
        ObjV::Arr(items) => ObjV::Arr(remap_objs(items, keys)),
        ObjV::Dict(d) => ObjV::Dict(remap_pairs(d, keys)),
        ObjV::Stream(d, c, z) => ObjV::Stream(remap_pairs(d, keys), c, z),
        _ => o,
    }
}

pub open spec fn remap_objs(s: Seq<ObjV>, keys: Seq<ObjId>) -> Seq<ObjV>
    decreases s,
{
    if s.len() == 0 {
        Seq::empty()
    } else {
        proof {
            assert(decreases_to!(s => s[0]));
            assert(decreases_to!(s => s.subrange(1, s.len() as int)));
        }
        seq![remap_obj(s[0], keys)] + remap_objs(s.skip(1), keys)
    }
}

pub open spec fn remap_pairs(s: Seq<(Seq<u8>, ObjV)>, keys: Seq<ObjId>) -> Seq<(Seq<u8>, ObjV)>
    decreases s,
{
    if s.len() == 0 {
        Seq::empty()
    } else {
        proof {
            assert(decreases_to!(s => s[0]));
            assert(decreases_to!(s => s.subrange(1, s.len() as int)));
        }
        seq![(s[0].0, remap_obj(s[0].1, keys))] + remap_pairs(s.skip(1), keys)
    }
}

pub open spec fn ids_of(t: Seq<(ObjId, ObjV)>) -> Seq<ObjId> {
    Seq::new(t.len(), |i: int| t[i].0)
}

/// The dense table: entry `k` gets identifier `k+1`, and every reference is
/// rewritten through the position map.
pub open spec fn dense_table(t: Seq<(ObjId, ObjV)>) -> Seq<(ObjId, ObjV)> {
    Seq::new(t.len(), |k: int| (dense_id(k as nat), remap_obj(t[k].1, ids_of(t))))
}

/// The outline item dictionary for bookmark `j` of `count`, pointing at
/// `target`: title, parent and destination, with the fixed display color
/// (blue) and style (plain) that every bookmark of a merged report carries.
pub open spec fn outline_item(j: int, count: int, target: ObjId, root: ObjId) -> Seq<
    (Seq<u8>, ObjV),
> {
    let base = seq![
        (k_title(), ObjV::Text(bookmark_title(j), false)),
        (k_parent(), ObjV::Ref(root)),
        (k_dest(), ObjV::Arr(seq![ObjV::Ref(target), ObjV::Name(k_fit())])),
        (
            k_color(),
            ObjV::Arr(seq![ObjV::Int(0), ObjV::Int(0), ObjV::Int(1)]),
        ),
        (k_flags(), ObjV::Int(0)),
    ];
    let with_prev = if j > 0 {
        base.push((k_prev(), ObjV::Ref(item_id(root, j - 1))))
    } else {
        base
    };
    if j + 1 < count {
        with_prev.push((k_next(), ObjV::Ref(item_id(root, j + 1))))
    } else {
        with_prev
    }
}

/// Outline item `j` sits right after the outline root.
pub open spec fn item_id(root: ObjId, j: int) -> ObjId {
    ObjId { num: (root.num + 1 + j) as u64, gen: 0u16 }
}

/// The outline root dictionary.
pub open spec fn outline_root_dict(root: ObjId, count: int) -> Seq<(Seq<u8>, ObjV)> {
    seq![
        (k_type(), ObjV::Name(k_outlines())),
        (k_first(), ObjV::Ref(item_id(root, 0))),
        (k_last(), ObjV::Ref(item_id(root, count - 1))),
        (k_count(), ObjV::Int(count as i64)),
    ]
}

/// The outline objects appended after a dense table of length `n`:
/// the root at `n+1`, then one item per bookmark.
pub open spec fn outline_objects(n: int, targets: Seq<ObjId>) -> Seq<(ObjId, ObjV)> {
    let root = ObjId { num: (n + 1) as u64, gen: 0u16 };
    seq![(root, ObjV::Dict(outline_root_dict(root, targets.len() as int)))] + Seq::new(
        targets.len(),
        |j: int| (item_id(root, j), ObjV::Dict(outline_item(j, targets.len() as int, targets[j], root))),
    )
}

/// The merged document for a batch of well-formed documents, or the error
/// when no pages root or no catalog is found (merging an empty batch fails
/// this way).
pub open spec fn spec_merge(docs: Seq<DocV>) -> Result<DocV, StructureError> {
    let table = spec_table(docs);
    let st = spec_classify(table, empty_classify_state());
    if st.pages is None {
        Result::Err(StructureError::MissingPagesRoot)
    } else if st.catalog is None {
        Result::Err(StructureError::MissingCatalog)
    } else {
        let (pages_id, pages_entries) = st.pages->0;
        let (cat_id, cat_entries) = st.catalog->0;
        let pages = all_pages(docs);
        let t1 = insert_pages(st.kept, table, pages, pages_id);
        let pages_content = spec_set(
            spec_set(pages_entries, k_count(), ObjV::Int(pages.len() as i64)),
            k_kids(),
            ObjV::Arr(Seq::new(pages.len(), |j: int| ObjV::Ref(pages[j]))),
        );
        let cat_content = spec_remove(
            spec_set(cat_entries, k_pages(), ObjV::Ref(pages_id)),
            k_outlines(),
        );
        let t2 = table_set(t1, pages_id, ObjV::Dict(pages_content));
        let t3 = table_set(t2, cat_id, ObjV::Dict(cat_content));
        let keys = ids_of(t3);
        let t4 = dense_table(t3);
        let targets = Seq::new(
            bookmark_targets(docs).len(),
            |j: int|
                match pos_of(keys, bookmark_targets(docs)[j]) {
                    Option::Some(p) => dense_id(p),
                    Option::None => ObjId { num: 0u64, gen: 0u16 },
                },
        );
        let cat_pos = pos_of(keys, cat_id)->0;
        let cat_new = dense_id(cat_pos);
        if targets.len() == 0 {
            Result::Ok(
                DocV {
                    objects: t4,
                    trailer: seq![(k_root(), ObjV::Ref(cat_new))],
                },
            )
        } else {
            let root = ObjId { num: (t4.len() + 1) as u64, gen: 0u16 };
            let cat_final = match t4[cat_pos as int].1 {
                ObjV::Dict(cd) => ObjV::Dict(spec_set(cd, k_outlines(), ObjV::Ref(root))),
                other => other,
            };
            Result::Ok(
                DocV {
                    objects: t4.update(cat_pos as int, (cat_new, cat_final)) + outline_objects(
                        t4.len() as int,
                        targets,
                    ),
                    trailer: seq![(k_root(), ObjV::Ref(cat_new))],
                },
            )
        }
    }
}


// ----------------------------------------------------------------------------
// Executable renumbering
// ----------------------------------------------------------------------------

/// Renumbering by the identity offset changes nothing; cloning an object is
/// renumbering it by the identity offset.
pub proof fn lemma_ren_obj_identity(o: ObjV)
    ensures
        ren_obj(o, 0, 0) == o,
    decreases o,
{
    match o {
        ObjV::Arr(items) => {
            lemma_ren_objs_identity(items);
        },
        ObjV::Dict(d) => {
            lemma_ren_pairs_identity(d);
        },
        ObjV::Stream(d, c, z) => {
            lemma_ren_pairs_identity(d);
        },
        _ => {},
    }
}

pub proof fn lemma_ren_objs_identity(s: Seq<ObjV>)
    ensures
        ren_objs(s, 0, 0) == s,
    decreases s,
{
    if s.len() == 0 {
        assert(ren_objs(s, 0, 0) =~= s);
    } else {
        assert(decreases_to!(s => s[0]));
        assert(decreases_to!(s => s.subrange(1, s.len() as int)));
        lemma_ren_obj_identity(s[0]);
        lemma_ren_objs_identity(s.skip(1));
        assert(ren_objs(s, 0, 0) =~= s);
    }
}

pub proof fn lemma_ren_pairs_identity(s: Seq<(Seq<u8>, ObjV)>)
    ensures
        ren_pairs(s, 0, 0) == s,
    decreases s,
{
    if s.len() == 0 {
        assert(ren_pairs(s, 0, 0) =~= s);
    } else {
        assert(decreases_to!(s => s[0]));
        assert(decreases_to!(s => s.subrange(1, s.len() as int)));
        lemma_ren_obj_identity(s[0].1);
        lemma_ren_pairs_identity(s.skip(1));
        assert(ren_pairs(s, 0, 0) =~= s);
    }
}

/// Rewrite one identifier as `ren_ref` describes.
pub fn ren_id_exec(id: ObjId, minv: u64, base: u64) -> (r: ObjId)
    requires
        base <= base_limit(),
    ensures
        r == ren_ref(id, minv, base),
{
    if minv <= id.num && id.num <= 0xFFFF_FFFFu64 {
        ObjId { num: (id.num - minv) + base, gen: id.gen }
    } else {
        id
    }
}

/// Rewrite every reference inside one object by the document's offset.
/// With `minv == 0 && base == 0` this is a plain deep copy.
#[verifier::loop_isolation(false)]
pub fn renumber_obj(o: &PdfObj, minv: u64, base: u64) -> (r: PdfObj)
    requires
        base <= base_limit(),
    ensures
        r@ == ren_obj(o@, minv, base),
    decreases *o,
{
    broadcast use group_pdf_views;

    match o {
        PdfObj::Null => PdfObj::Null,
        PdfObj::Bool(b) => PdfObj::Bool(*b),
        PdfObj::Int(i) => PdfObj::Int(*i),
        PdfObj::Name(n) => PdfObj::Name(n.clone()),
        PdfObj::Text(t, h) => PdfObj::Text(t.clone(), *h),
        PdfObj::Ref(id) => PdfObj::Ref(ren_id_exec(*id, minv, base)),
        PdfObj::Arr(items) => {
            let mut out: Vec<PdfObj> = Vec::new();
            let n = items.len();
            let mut i: usize = 0;
            while i < n
                invariant
                    0 <= i <= n,
                    view_objs(out@) =~= ren_objs(view_objs(items@).take(i as int), minv, base),
                    out@.len() == i,
                decreases n - i,
            {
                let v = renumber_obj(&items[i], minv, base);
                out.push(v);
                proof {
                    lemma_ren_objs_take_snoc(view_objs(items@), minv, base, i as int);
                    assert(view_objs(out@) =~= ren_objs(
                        view_objs(items@).take(i as int + 1),
                        minv,
                        base,
                    ));
                }
                i += 1;
            }
            proof {
                assert(view_objs(items@).take(n as int) =~= view_objs(items@));
            }
            PdfObj::Arr(out)
        },
        PdfObj::Dict(d) => PdfObj::Dict(renumber_dict(d, minv, base)),
        PdfObj::Stream(d, c, z) => PdfObj::Stream(renumber_dict(d, minv, base), c.clone(), *z),
        PdfObj::Opaque(x) => PdfObj::Opaque(x.clone()),
    }
}

#[verifier::loop_isolation(false)]
pub fn renumber_dict(d: &PdfDict, minv: u64, base: u64) -> (r: PdfDict)
    requires
        base <= base_limit(),
    ensures
        r@ == ren_pairs(d@, minv, base),
    decreases *d,
{
    broadcast use group_pdf_views;

    let mut out: Vec<(Vec<u8>, PdfObj)> = Vec::new();
    let n = d.entries.len();
    let mut i: usize = 0;
    while i < n
        invariant
            0 <= i <= n,
            view_pairs(out@) =~= ren_pairs(view_pairs(d.entries@).take(i as int), minv, base),
            out@.len() == i,
        decreases n - i,
    {
        proof {
            assert(decreases_to!(*d => d.entries));
        }
        let v = renumber_obj(&d.entries[i].1, minv, base);
        out.push((d.entries[i].0.clone(), v));
        proof {
            lemma_ren_pairs_take_snoc(view_pairs(d.entries@), minv, base, i as int);
            assert(view_pairs(out@) =~= ren_pairs(
                view_pairs(d.entries@).take(i as int + 1),
                minv,
                base,
            ));
        }
        i += 1;
    }
    proof {
        assert(view_pairs(d.entries@).take(n as int) =~= view_pairs(d.entries@));
    }
    PdfDict { entries: out }
}

/// A fresh deep copy of an object, equal in value to the original.
pub fn clone_obj(o: &PdfObj) -> (r: PdfObj)
    ensures
        r@ == o@,
{
    let r = renumber_obj(o, 0, 0);
    proof {
        lemma_ren_obj_identity(o@);
    }
    r
}

/// A fresh deep copy of a dictionary, equal in value to the original.
pub fn clone_dict(d: &PdfDict) -> (r: PdfDict)
    ensures
        r@ == d@,
{
    let r = renumber_dict(d, 0, 0);
    proof {
        lemma_ren_pairs_identity(d@);
    }
    r
}

pub proof fn lemma_ren_objs_take_snoc(s: Seq<ObjV>, minv: u64, base: u64, i: int)
    requires
        0 <= i < s.len(),
    ensures
        ren_objs(s.take(i + 1), minv, base) =~= ren_objs(s.take(i), minv, base).push(
            ren_obj(s[i], minv, base),
        ),
    decreases i,
{
    if i == 0 {
        assert(s.take(1) =~= seq![s[0]]);
        assert(s.take(1).skip(1) =~= Seq::<ObjV>::empty());
        assert(s.take(0) =~= Seq::<ObjV>::empty());
    } else {
        lemma_ren_objs_take_snoc(s.skip(1), minv, base, i - 1);
        assert(s.take(i + 1)[0] == s[0]);
        assert(s.take(i + 1).skip(1) =~= s.skip(1).take(i));
        assert(s.take(i).skip(1) =~= s.skip(1).take(i - 1));
        assert(s.skip(1)[i - 1] == s[i]);
    }
}

pub proof fn lemma_ren_pairs_take_snoc(s: Seq<(Seq<u8>, ObjV)>, minv: u64, base: u64, i: int)
    requires
        0 <= i < s.len(),
    ensures
        ren_pairs(s.take(i + 1), minv, base) =~= ren_pairs(s.take(i), minv, base).push(
            (s[i].0, ren_obj(s[i].1, minv, base)),
        ),
    decreases i,
{
    if i == 0 {
        assert(s.take(1) =~= seq![s[0]]);
        assert(s.take(1).skip(1) =~= Seq::<(Seq<u8>, ObjV)>::empty());
        assert(s.take(0) =~= Seq::<(Seq<u8>, ObjV)>::empty());
    } else {
        lemma_ren_pairs_take_snoc(s.skip(1), minv, base, i - 1);
        assert(s.take(i + 1)[0] == s[0]);
        assert(s.take(i + 1).skip(1) =~= s.skip(1).take(i));
        assert(s.take(i).skip(1) =~= s.skip(1).take(i - 1));
        assert(s.skip(1)[i - 1] == s[i]);
    }
}


// ----------------------------------------------------------------------------
// Executable table renumbering and page walk
// ----------------------------------------------------------------------------

/// Upper bound on one document's object count (the format's identifier space).
pub open spec fn table_len_limit() -> int {
    0x1_0000_0000_0000
}

#[verifier::loop_isolation(false)]
pub fn table_min_exec(t: &Vec<(ObjId, PdfObj)>) -> (r: u64)
    ensures
        r == table_min(view_table(*t)),
{
    broadcast use group_pdf_views;

    let ghost tv = view_table(*t);
    let n = t.len();
    let mut acc: u64 = 0;
    let mut i: usize = n;
    proof {
        assert(tv.skip(n as int) =~= Seq::<(ObjId, ObjV)>::empty());
    }
    while i > 0
        invariant
            0 <= i <= n,
            n == tv.len(),
            acc == table_min(tv.skip(i as int)),
        decreases i,
    {
        i -= 1;
        proof {
            assert(tv.skip(i as int).skip(1) =~= tv.skip(i as int + 1));
            assert(tv.skip(i as int)[0] == tv[i as int]);
        }
        let num = t[i].0.num;
        if i + 1 == n || num <= acc {
            acc = num;
        }
    }
    proof {
        assert(tv.skip(0) =~= tv);
    }
    acc
}

#[verifier::loop_isolation(false)]
pub fn table_max_exec(t: &Vec<(ObjId, PdfObj)>) -> (r: u64)
    ensures
        r == table_max(view_table(*t)),
{
    broadcast use group_pdf_views;

    let ghost tv = view_table(*t);
    let n = t.len();
    let mut acc: u64 = 0;
    let mut i: usize = n;
    proof {
        assert(tv.skip(n as int) =~= Seq::<(ObjId, ObjV)>::empty());
    }
    while i > 0
        invariant
            0 <= i <= n,
            n == tv.len(),
            acc == table_max(tv.skip(i as int)),
        decreases i,
    {
        i -= 1;
        proof {
            assert(tv.skip(i as int).skip(1) =~= tv.skip(i as int + 1));
            assert(tv.skip(i as int)[0] == tv[i as int]);
        }
        let num = t[i].0.num;
        if num >= acc {
            acc = num;
        }
    }
    proof {
        assert(tv.skip(0) =~= tv);
    }
    acc
}

/// One document's table renumbered so its numbers start at `base`.
#[verifier::loop_isolation(false)]
pub fn renumber_table(t: &Vec<(ObjId, PdfObj)>, base: u64) -> (r: Vec<(ObjId, PdfObj)>)
    requires
        base <= base_limit(),
    ensures
        view_table(r) =~= ren_table(view_table(*t), base),
{
    broadcast use group_pdf_views;

    let ghost tv = view_table(*t);
    let minv = table_min_exec(t);
    let n = t.len();
    let mut out: Vec<(ObjId, PdfObj)> = Vec::new();
    let mut i: usize = 0;
    while i < n
        invariant
            0 <= i <= n,
            n == tv.len(),
            minv == table_min(tv),
            out@.len() == i,
            forall|k: int|
                0 <= k < i ==> #[trigger] view_id_pairs(out@)[k] == ren_table(tv, base)[k],
        decreases n - i,
    {
        let id2 = ren_id_exec(t[i].0, minv, base);
        let o2 = renumber_obj(&t[i].1, minv, base);
        let ghost out0 = out@;
        out.push((id2, o2));
        proof {
            crate::pdf::lemma_view_id_pairs_index(t@, i as int);
            assert forall|k: int| 0 <= k < i + 1 implies view_id_pairs(out@)[k] == ren_table(
                tv,
                base,
            )[k] by {
                crate::pdf::lemma_view_id_pairs_index(out@, k);
                if k < i {
                    crate::pdf::lemma_view_id_pairs_index(out0, k);
                    assert(view_id_pairs(out0)[k] == ren_table(tv, base)[k]);
                    assert(out@[k] == out0[k]);
                }
            }
        }
        i += 1;
    }
    out
}

/// The ordered pages reached from `id`, as `spec_pages` describes.
#[verifier::loop_isolation(false)]
pub fn pages_from(t: &Vec<(ObjId, PdfObj)>, id: ObjId, fuel: u64) -> (r: Vec<ObjId>)
    ensures
        r@ == spec_pages(view_table(*t), id, fuel as nat),
    decreases fuel,
{
    broadcast use group_pdf_views;

    let ghost tv = view_table(*t);
    let mut out: Vec<ObjId> = Vec::new();
    if fuel == 0 {
        proof {
            assert(out@ =~= spec_pages(tv, id, 0));
        }
        return out;
    }
    match table_find(t, id) {
        Option::Some(o) => {
            match o {
                PdfObj::Dict(d) => {
                    if dict_type_is(d, &key_page()) {
                        out.push(id);
                        proof {
                            assert(out@ =~= seq![id]);
                        }
                        out
                    } else if dict_type_is(d, &key_pages()) {
                        match d.get(&key_kids()) {
                            Option::Some(kobj) => {
                                match kobj {
                                    PdfObj::Arr(kids) => {
                                        let ghost kidsv = view_objs(kids@);
                                        let m = kids.len();
                                        let mut j: usize = 0;
                                        proof {
                                            assert(kidsv.skip(0) =~= kidsv);
                                            assert(out@ + spec_pages_kids(
                                                tv,
                                                kidsv,
                                                (fuel - 1) as nat,
                                            ) =~= spec_pages_kids(tv, kidsv, (fuel - 1) as nat));
                                        }
                                        while j < m
                                            invariant
                                                0 <= j <= m,
                                                m == kidsv.len(),
                                                fuel >= 1,
                                                spec_pages_kids(tv, kidsv, (fuel - 1) as nat)
                                                    =~= out@ + spec_pages_kids(
                                                    tv,
                                                    kidsv.skip(j as int),
                                                    (fuel - 1) as nat,
                                                ),
                                            decreases m - j,
                                        {
                                            proof {
                                                assert(kidsv.skip(j as int)[0] == kidsv[j as int]);
                                                assert(kidsv.skip(j as int).skip(1) =~= kidsv.skip(
                                                    j as int + 1,
                                                ));
                                            }
                                            proof {
                                                crate::pdf::lemma_view_objs_index(
                                                    kids@,
                                                    j as int,
                                                );
                                            }
                                            match &kids[j] {
                                                PdfObj::Ref(k) => {
                                                    let mut sub = pages_from(t, *k, fuel - 1);
                                                    out.append(&mut sub);
                                                },
                                                _ => {},
                                            }
                                            proof {
                                                assert(spec_pages_kids(
                                                    tv,
                                                    kidsv,
                                                    (fuel - 1) as nat,
                                                ) =~= out@ + spec_pages_kids(
                                                    tv,
                                                    kidsv.skip(j as int + 1),
                                                    (fuel - 1) as nat,
                                                ));
                                            }
                                            j += 1;
                                        }
                                        proof {
                                            assert(kidsv.skip(m as int) =~= Seq::<ObjV>::empty());
                                            assert(out@ =~= spec_pages(tv, id, fuel as nat));
                                        }
                                        out
                                    },
                                    _ => {
                                        proof {
                                            assert(out@ =~= spec_pages(tv, id, fuel as nat));
                                        }
                                        out
                                    },
                                }
                            },
                            Option::None => {
                                proof {
                                    assert(out@ =~= spec_pages(tv, id, fuel as nat));
                                }
                                out
                            },
                        }
                    } else {
                        proof {
                            assert(out@ =~= spec_pages(tv, id, fuel as nat));
                        }
                        out
                    }
                },
                _ => {
                    proof {
                        assert(out@ =~= spec_pages(tv, id, fuel as nat));
                    }
                    out
                },
            }
        },
        Option::None => {
            proof {
                assert(out@ =~= spec_pages(tv, id, fuel as nat));
            }
            out
        },
    }
}

/// Whether a dictionary's declared `Type` is the given name.
pub fn dict_type_is(d: &PdfDict, want: &Vec<u8>) -> (r: bool)
    ensures
        r == (type_entry(d@) == Option::Some(want@)),
{
    match d.get(&key_type()) {
        Option::Some(o) => {
            match o {
                PdfObj::Name(n) => bytes_eq(n, want),
                _ => false,
            }
        },
        Option::None => false,
    }
}

/// The ordered page list of one document: root reference, catalog, page
/// tree.
pub fn doc_pages(objects: &Vec<(ObjId, PdfObj)>, trailer: &PdfDict) -> (r: Vec<ObjId>)
    requires
        objects@.len() <= table_len_limit(),
    ensures
        r@ == doc_page_ids(view_table(*objects), trailer@),
{
    broadcast use group_pdf_views;

    let fuel: u64 = objects.len() as u64 + 1;
    match trailer.get(&key_root()) {
        Option::Some(robj) => {
            match robj {
                PdfObj::Ref(c) => {
                    match table_find(objects, *c) {
                        Option::Some(cobj) => {
                            match cobj {
                                PdfObj::Dict(cd) => {
                                    match cd.get(&key_pages()) {
                                        Option::Some(pobj) => {
                                            match pobj {
                                                PdfObj::Ref(p) => pages_from(objects, *p, fuel),
                                                _ => Vec::new(),
                                            }
                                        },
                                        Option::None => Vec::new(),
                                    }
                                },
                                _ => Vec::new(),
                            }
                        },
                        Option::None => Vec::new(),
                    }
                },
                _ => Vec::new(),
            }
        },
        Option::None => Vec::new(),
    }
}


// ----------------------------------------------------------------------------
// Executable table update, position lookup, dense renumbering
// ----------------------------------------------------------------------------

pub proof fn lemma_table_set_at(t: Seq<(ObjId, ObjV)>, id: ObjId, o: ObjV, i: int)
    requires
        0 <= i < t.len(),
        forall|j: int| 0 <= j < i ==> t[j].0 != id,
        t[i].0 == id,
    ensures
        table_set(t, id, o) =~= t.update(i, (id, o)),
    decreases i,
{
    if i > 0 {
        lemma_table_set_at(t.skip(1), id, o, i - 1);
        assert(table_set(t, id, o) =~= seq![t[0]] + table_set(t.skip(1), id, o));
    }
}

pub proof fn lemma_table_set_absent(t: Seq<(ObjId, ObjV)>, id: ObjId, o: ObjV)
    requires
        forall|j: int| 0 <= j < t.len() ==> t[j].0 != id,
    ensures
        table_set(t, id, o) =~= t.push((id, o)),
    decreases t.len(),
{
    if t.len() > 0 {
        lemma_table_set_absent(t.skip(1), id, o);
    }
}

/// Store `o` under `id` in a table: replace the first matching entry, or
/// append.
#[verifier::loop_isolation(false)]
pub fn table_set_exec(t: &mut Vec<(ObjId, PdfObj)>, id: ObjId, o: PdfObj)
    ensures
        view_id_pairs(final(t)@) =~= table_set(view_id_pairs(old(t)@), id, o@),
{
    broadcast use group_pdf_views;

    let ghost t0 = view_id_pairs(t@);
    let n = t.len();
    let mut i: usize = 0;
    while i < n
        invariant
            0 <= i <= n,
            n == t@.len(),
            view_id_pairs(t@) == t0,
            forall|j: int| 0 <= j < i ==> t0[j].0 != id,
        decreases n - i,
    {
        proof {
            crate::pdf::lemma_view_id_pairs_index(t@, i as int);
        }
        if t[i].0 == id {
            proof {
                lemma_table_set_at(t0, id, o@, i as int);
            }
            let ghost tb = t@;
            t.set(i, (id, o));
            proof {
                assert forall|k: int| 0 <= k < n implies view_id_pairs(t@)[k] == t0.update(
                    i as int,
                    (id, o@),
                )[k] by {
                    crate::pdf::lemma_view_id_pairs_index(t@, k);
                    if k != i {
                        crate::pdf::lemma_view_id_pairs_index(tb, k);
                    }
                }
                assert(view_id_pairs(t@) =~= t0.update(i as int, (id, o@)));
            }
            return ;
        }
        i += 1;
    }
    proof {
        lemma_table_set_absent(t0, id, o@);
    }
    t.push((id, o));
}

pub proof fn lemma_pos_at(keys: Seq<ObjId>, id: ObjId, i: int)
    requires
        0 <= i < keys.len(),
        forall|j: int| 0 <= j < i ==> keys[j] != id,
        keys[i] == id,
    ensures
        pos_of(keys, id) == Option::Some(i as nat),
    decreases i,
{
    if i > 0 {
        lemma_pos_at(keys.skip(1), id, i - 1);
    }
}

pub proof fn lemma_pos_none(keys: Seq<ObjId>, id: ObjId)
    requires
        forall|j: int| 0 <= j < keys.len() ==> keys[j] != id,
    ensures
        pos_of(keys, id) is None,
    decreases keys.len(),
{
    if keys.len() > 0 {
        lemma_pos_none(keys.skip(1), id);
    }
}

/// The position of `id` among `keys`, if any.
#[verifier::loop_isolation(false)]
pub fn find_pos(keys: &Vec<ObjId>, id: ObjId) -> (r: Option<usize>)
    ensures
        match r {
            Option::Some(p) => pos_of(keys@, id) == Option::Some(p as nat) && p < keys@.len(),
            Option::None => pos_of(keys@, id) is None,
        },
{
    let n = keys.len();
    let mut i: usize = 0;
    while i < n
        invariant
            0 <= i <= n,
            n == keys@.len(),
            forall|j: int| 0 <= j < i ==> keys@[j] != id,
        decreases n - i,
    {
        if keys[i].num == id.num && keys[i].gen == id.gen {
            proof {
                lemma_pos_at(keys@, id, i as int);
            }
            return Option::Some(i);
        }
        i += 1;
    }
    proof {
        lemma_pos_none(keys@, id);
    }
    Option::None
}

/// Rewrite every reference through the dense position map; references to
/// dropped objects become null.
#[verifier::loop_isolation(false)]
pub fn remap_obj_exec(o: &PdfObj, keys: &Vec<ObjId>) -> (r: PdfObj)
    ensures
        r@ == remap_obj(o@, keys@),
    decreases *o,
{
    broadcast use group_pdf_views, vstd::std_specs::vec::axiom_spec_len;

    match o {
        PdfObj::Null => PdfObj::Null,
        PdfObj::Bool(b) => PdfObj::Bool(*b),
        PdfObj::Int(i) => PdfObj::Int(*i),
        PdfObj::Name(n) => PdfObj::Name(n.clone()),
        PdfObj::Text(t, h) => PdfObj::Text(t.clone(), *h),
        PdfObj::Ref(id) => {
            // the length call puts the table size in scope, bounding any
            // position the lookup can return
            let _klen: usize = keys.len();
            match find_pos(keys, *id) {
                Option::Some(p) => PdfObj::Ref(ObjId { num: p as u64 + 1, gen: 0u16 }),
                Option::None => PdfObj::Null,
            }
        },
        PdfObj::Arr(items) => {
            let mut out: Vec<PdfObj> = Vec::new();
            let n = items.len();
            let mut i: usize = 0;
            while i < n
                invariant
                    0 <= i <= n,
                    view_objs(out@) =~= remap_objs(view_objs(items@).take(i as int), keys@),
                    out@.len() == i,
                decreases n - i,
            {
                let v = remap_obj_exec(&items[i], keys);
                out.push(v);
                proof {
                    lemma_remap_objs_take_snoc(view_objs(items@), keys@, i as int);
                    assert(view_objs(out@) =~= remap_objs(
                        view_objs(items@).take(i as int + 1),
                        keys@,
                    ));
                }
                i += 1;
            }
            proof {
                assert(view_objs(items@).take(n as int) =~= view_objs(items@));
            }
            PdfObj::Arr(out)
        },
        PdfObj::Dict(d) => PdfObj::Dict(remap_dict_exec(d, keys)),
        PdfObj::Stream(d, c, z) => PdfObj::Stream(remap_dict_exec(d, keys), c.clone(), *z),
        PdfObj::Opaque(x) => PdfObj::Opaque(x.clone()),
    }
}

#[verifier::loop_isolation(false)]
pub fn remap_dict_exec(d: &PdfDict, keys: &Vec<ObjId>) -> (r: PdfDict)
    ensures
        r@ == remap_pairs(d@, keys@),
    decreases *d,
{
    broadcast use group_pdf_views;

    let mut out: Vec<(Vec<u8>, PdfObj)> = Vec::new();
    let n = d.entries.len();
    let mut i: usize = 0;
    while i < n
        invariant
            0 <= i <= n,
            view_pairs(out@) =~= remap_pairs(view_pairs(d.entries@).take(i as int), keys@),
            out@.len() == i,
        decreases n - i,
    {
        proof {
            assert(decreases_to!(*d => d.entries));
        }
        let v = remap_obj_exec(&d.entries[i].1, keys);
        out.push((d.entries[i].0.clone(), v));
        proof {
            lemma_remap_pairs_take_snoc(view_pairs(d.entries@), keys@, i as int);
            assert(view_pairs(out@) =~= remap_pairs(
                view_pairs(d.entries@).take(i as int + 1),
                keys@,
            ));
        }
        i += 1;
    }
    proof {
        assert(view_pairs(d.entries@).take(n as int) =~= view_pairs(d.entries@));
    }
    PdfDict { entries: out }
}

pub proof fn lemma_remap_objs_take_snoc(s: Seq<ObjV>, keys: Seq<ObjId>, i: int)
    requires
        0 <= i < s.len(),
    ensures
        remap_objs(s.take(i + 1), keys) =~= remap_objs(s.take(i), keys).push(
            remap_obj(s[i], keys),
        ),
    decreases i,
{
    if i == 0 {
        assert(s.take(1) =~= seq![s[0]]);
        assert(s.take(1).skip(1) =~= Seq::<ObjV>::empty());
        assert(s.take(0) =~= Seq::<ObjV>::empty());
    } else {
        lemma_remap_objs_take_snoc(s.skip(1), keys, i - 1);
        assert(s.take(i + 1)[0] == s[0]);
        assert(s.take(i + 1).skip(1) =~= s.skip(1).take(i));
        assert(s.take(i).skip(1) =~= s.skip(1).take(i - 1));
        assert(s.skip(1)[i - 1] == s[i]);
    }
}

pub proof fn lemma_remap_pairs_take_snoc(s: Seq<(Seq<u8>, ObjV)>, keys: Seq<ObjId>, i: int)
    requires
        0 <= i < s.len(),
    ensures
        remap_pairs(s.take(i + 1), keys) =~= remap_pairs(s.take(i), keys).push(
            (s[i].0, remap_obj(s[i].1, keys)),
        ),
    decreases i,
{
    if i == 0 {
        assert(s.take(1) =~= seq![s[0]]);
        assert(s.take(1).skip(1) =~= Seq::<(Seq<u8>, ObjV)>::empty());
        assert(s.take(0) =~= Seq::<(Seq<u8>, ObjV)>::empty());
    } else {
        lemma_remap_pairs_take_snoc(s.skip(1), keys, i - 1);
        assert(s.take(i + 1)[0] == s[0]);
        assert(s.take(i + 1).skip(1) =~= s.skip(1).take(i));
        assert(s.take(i).skip(1) =~= s.skip(1).take(i - 1));
        assert(s.skip(1)[i - 1] == s[i]);
    }
}

/// The identifiers of a table, in order.
#[verifier::loop_isolation(false)]
pub fn ids_of_exec(t: &Vec<(ObjId, PdfObj)>) -> (r: Vec<ObjId>)
    ensures
        r@ =~= ids_of(view_table(*t)),
{
    broadcast use group_pdf_views;

    let n = t.len();
    let mut out: Vec<ObjId> = Vec::new();
    let mut i: usize = 0;
    while i < n
        invariant
            0 <= i <= n,
            n == t@.len(),
            out@.len() == i,
            forall|k: int| 0 <= k < i ==> out@[k] == ids_of(view_table(*t))[k],
        decreases n - i,
    {
        out.push(t[i].0);
        proof {
            crate::pdf::lemma_view_id_pairs_index(t@, i as int);
        }
        i += 1;
    }
    out
}

/// The dense table: entry `k` gets identifier `k+1`, every reference is
/// rewritten through the position map.
#[verifier::loop_isolation(false)]
pub fn dense_table_exec(t: &Vec<(ObjId, PdfObj)>) -> (r: Vec<(ObjId, PdfObj)>)
    ensures
        view_id_pairs(r@) =~= dense_table(view_table(*t)),
{
    broadcast use group_pdf_views;

    let ghost tv = view_table(*t);
    let keys = ids_of_exec(t);
    let n = t.len();
    let mut out: Vec<(ObjId, PdfObj)> = Vec::new();
    let mut i: usize = 0;
    while i < n
        invariant
            0 <= i <= n,
            n == tv.len(),
            keys@ == ids_of(tv),
            out@.len() == i,
            forall|k: int|
                0 <= k < i ==> #[trigger] view_id_pairs(out@)[k] == dense_table(tv)[k],
        decreases n - i,
    {
        let o2 = remap_obj_exec(&t[i].1, &keys);
        let ghost out0 = out@;
        out.push((ObjId { num: i as u64 + 1, gen: 0u16 }, o2));
        proof {
            crate::pdf::lemma_view_id_pairs_index(t@, i as int);
            assert forall|k: int| 0 <= k < i + 1 implies view_id_pairs(out@)[k] == dense_table(
                tv,
            )[k] by {
                crate::pdf::lemma_view_id_pairs_index(out@, k);
                if k < i {
                    crate::pdf::lemma_view_id_pairs_index(out0, k);
                    assert(view_id_pairs(out0)[k] == dense_table(tv)[k]);
                    assert(out@[k] == out0[k]);
                }
            }
        }
        i += 1;
    }
    out
}


// ----------------------------------------------------------------------------
// Executable classification
// ----------------------------------------------------------------------------

pub fn obj_is_dropped(o: &PdfObj) -> (r: bool)
    ensures
        r == is_dropped(o@),
{
    match o {
        PdfObj::Dict(d) => {
            dict_type_is(d, &key_page()) || dict_type_is(d, &key_outlines()) || dict_type_is(
                d,
                &key_outline(),
            )
        },
        PdfObj::Stream(d, c, z) => {
            dict_type_is(d, &key_page()) || dict_type_is(d, &key_outlines()) || dict_type_is(
                d,
                &key_outline(),
            )
        },
        _ => false,
    }
}

/// Merge `extra` into `base` key by key, never overwriting a key already
/// present in `base`.
#[verifier::loop_isolation(false)]
pub fn merge_keep_first_exec(base: PdfDict, extra: &PdfDict) -> (r: PdfDict)
    ensures
        r@ == merge_keep_first(base@, extra@),
{
    broadcast use group_pdf_views;

    let ghost b0 = base@;
    let ghost ev = extra@;
    let mut cur = base;
    let n = extra.entries.len();
    let mut i: usize = 0;
    proof {
        assert(ev.skip(0) =~= ev);
    }
    while i < n
        invariant
            0 <= i <= n,
            n == extra.entries@.len(),
            ev == extra@,
            merge_keep_first(b0, ev) == merge_keep_first(cur@, ev.skip(i as int)),
        decreases n - i,
    {
        proof {
            crate::pdf::lemma_view_pairs_index(extra.entries@, i as int);
            assert(ev.skip(i as int)[0] == ev[i as int]);
            assert(ev.skip(i as int).skip(1) =~= ev.skip(i as int + 1));
        }
        let ghost cur0 = cur@;
        match cur.get(&extra.entries[i].0) {
            Option::Some(_) => {},
            Option::None => {
                let k = extra.entries[i].0.clone();
                let v = clone_obj(&extra.entries[i].1);
                cur.entries.push((k, v));
                proof {
                    assert(cur@ =~= cur0.push(ev[i as int]));
                }
            },
        }
        i += 1;
    }
    proof {
        assert(ev.skip(n as int) =~= Seq::<(Seq<u8>, ObjV)>::empty());
    }
    cur
}

/// The view of an optional canonical root: identifier and dictionary value.
pub open spec fn root_view(o: Option<(ObjId, PdfDict)>) -> Option<(ObjId, Seq<(Seq<u8>, ObjV)>)> {
    match o {
        Option::Some((id, d)) => Option::Some((id, d@)),
        Option::None => Option::None,
    }
}

/// The classification pass over the accumulated table, as `spec_classify`
/// describes.
#[verifier::loop_isolation(false)]
pub fn classify_table(t: &Vec<(ObjId, PdfObj)>) -> (r: (
    Option<(ObjId, PdfDict)>,
    Option<(ObjId, PdfDict)>,
    Vec<(ObjId, PdfObj)>,
))
    ensures
        ({
            let st = spec_classify(view_table(*t), empty_classify_state());
            &&& root_view(r.0) == st.catalog
            &&& root_view(r.1) == st.pages
            &&& view_id_pairs(r.2@) == st.kept
        }),
{
    broadcast use group_pdf_views;

    let ghost tv = view_table(*t);
    let mut cat: Option<(ObjId, PdfDict)> = Option::None;
    let mut pag: Option<(ObjId, PdfDict)> = Option::None;
    let mut kept: Vec<(ObjId, PdfObj)> = Vec::new();
    let n = t.len();
    let mut i: usize = 0;
    proof {
        assert(tv.skip(0) =~= tv);
        assert(view_id_pairs(kept@) =~= Seq::<(ObjId, ObjV)>::empty());
        assert(ClassifyState {
            catalog: root_view(cat),
            pages: root_view(pag),
            kept: view_id_pairs(kept@),
        } =~= empty_classify_state());
    }
    while i < n
        invariant
            0 <= i <= n,
            n == tv.len(),
            tv == view_table(*t),
            spec_classify(tv, empty_classify_state()) == spec_classify(
                tv.skip(i as int),
                ClassifyState {
                    catalog: root_view(cat),
                    pages: root_view(pag),
                    kept: view_id_pairs(kept@),
                },
            ),
        decreases n - i,
    {
        proof {
            crate::pdf::lemma_view_id_pairs_index(t@, i as int);
            assert(tv.skip(i as int)[0] == tv[i as int]);
            assert(tv.skip(i as int).skip(1) =~= tv.skip(i as int + 1));
        }
        let ghost st0 = ClassifyState {
            catalog: root_view(cat),
            pages: root_view(pag),
            kept: view_id_pairs(kept@),
        };
        let id = t[i].0;
        match &t[i].1 {
            PdfObj::Dict(d) => {
                if dict_type_is(d, &key_catalog()) {
                    let cid = match &cat {
                        Option::Some(c) => c.0,
                        Option::None => id,
                    };
                    cat = Option::Some((cid, clone_dict(d)));
                } else if dict_type_is(d, &key_pages()) {
                    match pag {
                        Option::Some(p) => {
                            let merged = merge_keep_first_exec(p.1, d);
                            pag = Option::Some((p.0, merged));
                        },
                        Option::None => {
                            pag = Option::Some((id, clone_dict(d)));
                        },
                    }
                } else if dict_type_is(d, &key_page()) || dict_type_is(d, &key_outlines())
                    || dict_type_is(d, &key_outline()) {
                    // dropped: pages are re-inserted later, outlines rebuilt
                } else {
                    let o2 = clone_obj(&t[i].1);
                    kept.push((id, o2));
                }
            },
            _ => {
                if obj_is_dropped(&t[i].1) {
                    // dropped
                } else {
                    let o2 = clone_obj(&t[i].1);
                    kept.push((id, o2));
                }
            },
        }
        proof {
            let st1 = ClassifyState {
                catalog: root_view(cat),
                pages: root_view(pag),
                kept: view_id_pairs(kept@),
            };
            assert(spec_classify(tv.skip(i as int), st0) == spec_classify(
                tv.skip(i as int + 1),
                st1,
            ));
        }
        i += 1;
    }
    proof {
        assert(tv.skip(n as int) =~= Seq::<(ObjId, ObjV)>::empty());
    }
    (cat, pag, kept)
}

// ----------------------------------------------------------------------------
// Executable assembly
// ----------------------------------------------------------------------------

/// Re-insert the collected pages into the kept table, forcing each page's
/// parent link to the canonical pages root.
#[verifier::loop_isolation(false)]
pub fn insert_pages_exec(
    acc: &mut Vec<(ObjId, PdfObj)>,
    src: &Vec<(ObjId, PdfObj)>,
    pages: &Vec<ObjId>,
    pages_id: ObjId,
)
    ensures
        view_id_pairs(final(acc)@) =~= insert_pages(
            view_id_pairs(old(acc)@),
            view_table(*src),
            pages@,
            pages_id,
        ),
{
    broadcast use group_pdf_views;

    let ghost a0 = view_id_pairs(acc@);
    let ghost srcv = view_table(*src);
    let ghost pv = pages@;
    let n = pages.len();
    let mut i: usize = 0;
    proof {
        assert(pv.skip(0) =~= pv);
    }
    while i < n
        invariant
            0 <= i <= n,
            n == pv.len(),
            pv == pages@,
            srcv == view_table(*src),
            insert_pages(a0, srcv, pv, pages_id) == insert_pages(
                view_id_pairs(acc@),
                srcv,
                pv.skip(i as int),
                pages_id,
            ),
        decreases n - i,
    {
        proof {
            assert(pv.skip(i as int)[0] == pv[i as int]);
            assert(pv.skip(i as int).skip(1) =~= pv.skip(i as int + 1));
        }
        match table_find(src, pages[i]) {
            Option::Some(o) => {
                match o {
                    PdfObj::Dict(pd) => {
                        let mut nd = clone_dict(pd);
                        nd.set(key_parent(), PdfObj::Ref(pages_id));
                        table_set_exec(acc, pages[i], PdfObj::Dict(nd));
                    },
                    _ => {},
                }
            },
            Option::None => {},
        }
        i += 1;
    }
    proof {
        assert(pv.skip(n as int) =~= Seq::<ObjId>::empty());
    }
}

/// After storing under `id`, the table holds that value under `id`.
pub proof fn lemma_find_after_set(t: Seq<(ObjId, ObjV)>, id: ObjId, o: ObjV)
    ensures
        spec_find(table_set(t, id, o), id) == Option::Some(o),
    decreases t.len(),
{
    if t.len() > 0 && t[0].0 != id {
        lemma_find_after_set(t.skip(1), id, o);
        assert(table_set(t, id, o)[0] == t[0]);
        assert(table_set(t, id, o).skip(1) =~= table_set(t.skip(1), id, o));
    }
}

/// An identifier has a position among a table's identifiers exactly when the
/// table holds an object under it.
pub proof fn lemma_pos_of_find(t: Seq<(ObjId, ObjV)>, id: ObjId)
    ensures
        (pos_of(ids_of(t), id) is Some) == (spec_find(t, id) is Some),
    decreases t.len(),
{
    if t.len() > 0 {
        lemma_pos_of_find(t.skip(1), id);
        assert(ids_of(t)[0] == t[0].0);
        assert(ids_of(t).skip(1) =~= ids_of(t.skip(1)));
    }
}


// ----------------------------------------------------------------------------
// Executable outline construction
// ----------------------------------------------------------------------------

/// Append the outline root and one item per bookmark after the dense table.
#[verifier::loop_isolation(false)]
pub fn append_outline(t: &mut Vec<(ObjId, PdfObj)>, targets: &Vec<ObjId>) -> (root: ObjId)
    requires
        1 <= targets@.len() <= 0x7FFF_FFFF,
    ensures
        view_id_pairs(final(t)@) =~= view_id_pairs(old(t)@) + outline_objects(
            old(t)@.len() as int,
            targets@,
        ),
        root == (ObjId { num: (old(t)@.len() + 1) as u64, gen: 0u16 }),
{
    broadcast use group_pdf_views;

    let ghost t0 = t@;
    let n = t.len();
    let count = targets.len();
    let root = ObjId { num: #[verifier::truncate] ((n as u128 + 1) as u64), gen: 0u16 };
    let last_item = item_id_exec(root, count - 1);
    let first_item = item_id_exec(root, 0);
    let mut rd: Vec<(Vec<u8>, PdfObj)> = Vec::new();
    rd.push((key_type(), PdfObj::Name(key_outlines())));
    rd.push((key_first(), PdfObj::Ref(first_item)));
    rd.push((key_last(), PdfObj::Ref(last_item)));
    rd.push((key_count(), PdfObj::Int(count as i64)));
    proof {
        assert(view_pairs(rd@) =~~= outline_root_dict(root, count as int));
    }
    t.push((root, PdfObj::Dict(PdfDict { entries: rd })));
    proof {
        assert(view_id_pairs(t@) =~= view_id_pairs(t0) + outline_objects(
            t0.len() as int,
            targets@,
        ).take(1));
    }
    let mut j: usize = 0;
    while j < count
        invariant
            0 <= j <= count,
            count == targets@.len(),
            1 <= count <= 0x7FFF_FFFF,
            root == (ObjId { num: (t0.len() + 1) as u64, gen: 0u16 }),
            view_id_pairs(t@) =~= view_id_pairs(t0) + outline_objects(
                t0.len() as int,
                targets@,
            ).take(1 + j as int),
        decreases count - j,
    {
        let mut e: Vec<(Vec<u8>, PdfObj)> = Vec::new();
        proof {
            assert(view_pairs(e@) =~= Seq::<(Seq<u8>, ObjV)>::empty());
        }
        let mut title = key_page_prefix();
        let mut digits = dec_bytes(j as u64 + 1);
        title.append(&mut digits);
        proof {
            assert(title@ == bookmark_title(j as int));
        }
        e.push((key_title(), PdfObj::Text(title, false)));
        e.push((key_parent(), PdfObj::Ref(root)));
        let mut dest: Vec<PdfObj> = Vec::new();
        dest.push(PdfObj::Ref(targets[j]));
        dest.push(PdfObj::Name(key_fit()));
        proof {
            assert(view_objs(dest@) =~= seq![
                ObjV::Ref(targets@[j as int]),
                ObjV::Name(k_fit()),
            ]);
        }
        e.push((key_dest(), PdfObj::Arr(dest)));
        let mut color: Vec<PdfObj> = Vec::new();
        color.push(PdfObj::Int(0));
        color.push(PdfObj::Int(0));
        color.push(PdfObj::Int(1));
        proof {
            assert(view_objs(color@) =~= seq![ObjV::Int(0), ObjV::Int(0), ObjV::Int(1)]);
        }
        e.push((key_color(), PdfObj::Arr(color)));
        e.push((key_flags(), PdfObj::Int(0)));
        if j > 0 {
            e.push((key_prev(), PdfObj::Ref(item_id_exec(root, j - 1))));
        }
        if j + 1 < count {
            e.push((key_next(), PdfObj::Ref(item_id_exec(root, j + 1))));
        }
        proof {
            let want = outline_item(j as int, count as int, targets@[j as int], root);
            assert(view_pairs(e@).len() == want.len());
            assert(view_pairs(e@) =~~= want);
        }
        t.push((item_id_exec(root, j), PdfObj::Dict(PdfDict { entries: e })));
        proof {
            assert(view_id_pairs(t@) =~= view_id_pairs(t0) + outline_objects(
                t0.len() as int,
                targets@,
            ).take(1 + j as int + 1));
        }
        j += 1;
    }
    proof {
        assert(outline_objects(t0.len() as int, targets@).take(1 + count as int)
            =~= outline_objects(t0.len() as int, targets@));
    }
    root
}

/// The identifier of outline item `j`, right after the outline root.
pub fn item_id_exec(root: ObjId, j: usize) -> (r: ObjId)
    ensures
        r == item_id(root, j as int),
{
    ObjId { num: #[verifier::truncate] ((root.num as u128 + 1 + j as u128) as u64), gen: 0u16 }
}


// ----------------------------------------------------------------------------
// The merge engine
// ----------------------------------------------------------------------------

pub open spec fn docs_views(s: Seq<PageDoc>) -> Seq<DocV> {
    Seq::new(s.len(), |i: int| s[i]@)
}

pub proof fn lemma_table_num_bounds(t: Seq<(ObjId, ObjV)>, b: u64)
    requires
        forall|k: int| 0 <= k < t.len() ==> (#[trigger] t[k].0).num <= b,
    ensures
        table_max(t) <= b,
        table_min(t) <= b,
    decreases t.len(),
{
    if t.len() > 0 {
        assert(forall|k: int| 0 <= k < t.skip(1).len() ==> t.skip(1)[k] == t[k + 1]);
        lemma_table_num_bounds(t.skip(1), b);
        assert(t[0].0.num <= b);
    }
}

pub proof fn lemma_table_min_le_max(t: Seq<(ObjId, ObjV)>)
    requires
        t.len() > 0,
    ensures
        table_min(t) <= table_max(t),
    decreases t.len(),
{
    if t.len() > 1 {
        lemma_table_min_le_max(t.skip(1));
    }
}

pub proof fn lemma_doc_base_take(s: Seq<DocV>, i: int, j: int)
    requires
        0 <= j <= i <= s.len(),
    ensures
        doc_base(s.take(i), j) == doc_base(s, j),
    decreases j,
{
    if j > 0 {
        lemma_doc_base_take(s, i, j - 1);
        assert(s.take(i)[j - 1] == s[j - 1]);
    }
}

pub proof fn lemma_bookmark_targets_len(docs: Seq<DocV>)
    ensures
        bookmark_targets(docs).len() <= docs.len(),
    decreases docs.len(),
{
    if docs.len() > 0 {
        lemma_bookmark_targets_len(docs.drop_last());
    }
}

/// Merge an ordered batch of well-formed documents into one, exactly as
/// `spec_merge` describes: renumber each document past the last identifier
/// in use, collect its pages and one bookmark, reconcile the catalog and
/// pages root, re-insert the pages under the canonical root, renumber the
/// table densely, and build a fresh outline.
///
/// Merging an empty batch fails with a structure error, and no output is
/// produced on any error.
#[verifier::loop_isolation(false)]
pub fn merge_documents(docs: &Vec<PageDoc>) -> (r: Result<PageDoc, StructureError>)
    requires
        docs@.len() <= 0x7FFF_FFFF,
        forall|i: int| 0 <= i < docs@.len() ==> doc_wf((#[trigger] docs@[i])@),
        forall|i: int|
            0 <= i < docs@.len() ==> (#[trigger] docs@[i])@.objects.len() <= 0x1_0000_0000,
    ensures
        match r {
            Result::Ok(m) => spec_merge(docs_views(docs@)) == Result::<
                DocV,
                StructureError,
            >::Ok(m@),
            Result::Err(e) => spec_merge(docs_views(docs@)) == Result::<
                DocV,
                StructureError,
            >::Err(e),
        },
{
    broadcast use group_pdf_views;

    let ghost dv = docs_views(docs@);
    let ndocs = docs.len();
    let mut acc: Vec<(ObjId, PdfObj)> = Vec::new();
    let mut pages_all: Vec<ObjId> = Vec::new();
    let mut targets_src: Vec<ObjId> = Vec::new();
    let mut base: u64 = 1;
    let mut i: usize = 0;
    proof {
        assert(dv.take(0) =~= Seq::<DocV>::empty());
        assert(view_id_pairs(acc@) =~= spec_table(dv.take(0)));
        assert(pages_all@ =~= all_pages(dv.take(0)));
        assert(targets_src@ =~= bookmark_targets(dv.take(0)));
    }
    while i < ndocs
        invariant
            0 <= i <= ndocs,
            ndocs == docs@.len(),
            dv == docs_views(docs@),
            dv.len() == ndocs,
            base == doc_base(dv, i as int),
            base as int <= 1 + (i as int) * 0x1_0000_0000,
            view_id_pairs(acc@) == spec_table(dv.take(i as int)),
            pages_all@ == all_pages(dv.take(i as int)),
            targets_src@ == bookmark_targets(dv.take(i as int)),
        decreases ndocs - i,
    {
        let doc = &docs[i];
        proof {
            assert(dv[i as int] == docs@[i as int]@);
            assert(doc_wf(docs@[i as int]@));
            assert(base <= base_limit());
        }
        let mn = table_min_exec(&doc.objects);
        let rt = renumber_table(&doc.objects, base);
        let rtrailer = renumber_dict(&doc.trailer, mn, base);
        proof {
            assert(view_table(rt) == ren_table(view_table(doc.objects), base));
            assert(rt@.len() == doc.objects@.len());
        }
        let pl = doc_pages(&rt, &rtrailer);
        let ghost plv = pl@;
        let ghost targets0 = targets_src@;
        if pl.len() > 0 {
            targets_src.push(pl[0]);
        }
        let mut plc = pl;
        pages_all.append(&mut plc);
        let ghost acc0 = acc@;
        let mut rtc = rt;
        let ghost rts = rtc@;
        acc.append(&mut rtc);
        let obj_count = doc.objects.len();
        if obj_count > 0 {
            let mx = table_max_exec(&doc.objects);
            proof {
                lemma_table_min_le_max(view_table(doc.objects));
                lemma_table_num_bounds(view_table(doc.objects), 0xFFFF_FFFFu64);
            }
            base = (mx - mn) + base + 1;
        }
        proof {
            let iplus = i as int + 1;
            assert(dv.take(iplus).drop_last() =~= dv.take(i as int));
            assert(dv.take(iplus).last() == dv[i as int]);
            lemma_doc_base_take(dv, iplus, i as int);
            assert(doc_base(dv.take(iplus), i as int) == doc_base(dv, i as int));
            assert(dv[i as int] == docs@[i as int]@);
            assert(view_table(doc.objects) == dv[i as int].objects);
            assert(view_pairs(doc.trailer.entries@) == dv[i as int].trailer);
            crate::pdf::lemma_view_id_pairs_concat(acc0, rts);
            assert(view_id_pairs(acc@) =~= view_id_pairs(acc0) + view_id_pairs(rts));
            assert(view_id_pairs(rts) == ren_table(dv[i as int].objects, doc_base(dv, i as int)));
            assert(spec_table(dv.take(iplus)) == spec_table(dv.take(i as int)) + ren_table(
                dv.take(iplus).last().objects,
                doc_base(dv.take(iplus), iplus - 1),
            ));
            assert(view_id_pairs(acc@) =~= spec_table(dv.take(iplus)));
            assert(plv == doc_pages_at(dv, i as int)) by {
                assert(rtrailer@ == ren_pairs(
                    dv[i as int].trailer,
                    table_min(dv[i as int].objects),
                    doc_base(dv, i as int),
                ));
            }
            assert(doc_pages_at(dv.take(iplus), iplus - 1) == doc_pages_at(dv, i as int)) by {
                assert(dv.take(iplus)[iplus - 1] == dv[i as int]);
            }
            assert(all_pages(dv.take(iplus)) == all_pages(dv.take(i as int)) + doc_pages_at(
                dv.take(iplus),
                iplus - 1,
            ));
            assert(pages_all@ == all_pages(dv.take(iplus)));
            assert(bookmark_targets(dv.take(iplus)) == bookmark_targets(dv.take(i as int)) + (
            if doc_pages_at(dv.take(iplus), iplus - 1).len() == 0 {
                Seq::<ObjId>::empty()
            } else {
                seq![doc_pages_at(dv.take(iplus), iplus - 1)[0]]
            }));
            if plv.len() == 0 {
                assert(targets_src@ =~= targets0 + Seq::<ObjId>::empty());
            } else {
                assert(targets_src@ =~= targets0 + seq![plv[0]]);
            }
            assert(targets_src@ == bookmark_targets(dv.take(iplus)));
            assert(base == doc_base(dv, iplus)) by {
                assert(doc_base(dv, iplus) == next_base(
                    dv[i as int].objects,
                    doc_base(dv, i as int),
                ));
            }
        }
        i += 1;
    }
    proof {
        assert(dv.take(ndocs as int) =~= dv);
    }
    let (cat, pag, kept) = classify_table(&acc);
    match pag {
        Option::None => {
            proof {
                assert(spec_merge(dv) == Result::<DocV, StructureError>::Err(
                    StructureError::MissingPagesRoot,
                ));
            }
            Result::Err(StructureError::MissingPagesRoot)
        },
        Option::Some(pg) => {
            match cat {
                Option::None => {
                    proof {
                        assert(spec_merge(dv) == Result::<DocV, StructureError>::Err(
                            StructureError::MissingCatalog,
                        ));
                    }
                    Result::Err(StructureError::MissingCatalog)
                },
                Option::Some(ct) => {
                    let (pages_id, pages_dict) = pg;
                    let (cat_id, cat_dict) = ct;
                    let mut t1 = kept;
                    insert_pages_exec(&mut t1, &acc, &pages_all, pages_id);
                    let mut pcontent = pages_dict;
                    pcontent.set(
                        key_count(),
                        PdfObj::Int(#[verifier::truncate] (pages_all.len() as i64)),
                    );
                    let mut kid_refs: Vec<PdfObj> = Vec::new();
                    let np = pages_all.len();
                    let mut k: usize = 0;
                    while k < np
                        invariant
                            0 <= k <= np,
                            np == pages_all@.len(),
                            view_objs(kid_refs@) =~= Seq::new(
                                k as nat,
                                |j: int| ObjV::Ref(pages_all@[j]),
                            ),
                        decreases np - k,
                    {
                        kid_refs.push(PdfObj::Ref(pages_all[k]));
                        proof {
                            assert(view_objs(kid_refs@) =~= Seq::new(
                                k as nat + 1,
                                |j: int| ObjV::Ref(pages_all@[j]),
                            ));
                        }
                        k += 1;
                    }
                    pcontent.set(key_kids(), PdfObj::Arr(kid_refs));
                    let ghost t1v = view_id_pairs(t1@);
                    table_set_exec(&mut t1, pages_id, PdfObj::Dict(pcontent));
                    let mut ccontent = cat_dict;
                    ccontent.set(key_pages(), PdfObj::Ref(pages_id));
                    ccontent.remove(&key_outlines());
                    let ghost t2v = view_id_pairs(t1@);
                    table_set_exec(&mut t1, cat_id, PdfObj::Dict(ccontent));
                    let ghost t3v = view_id_pairs(t1@);
                    let keys = ids_of_exec(&t1);
                    let _klen: usize = keys.len();
                    let mut dense = dense_table_exec(&t1);
                    let ghost t4v = dense_table(t3v);
                    let mut targets: Vec<ObjId> = Vec::new();
                    let nt = targets_src.len();
                    let ghost spec_targets = Seq::new(
                        bookmark_targets(dv).len(),
                        |j: int|
                            match pos_of(ids_of(t3v), bookmark_targets(dv)[j]) {
                                Option::Some(p) => dense_id(p),
                                Option::None => ObjId { num: 0u64, gen: 0u16 },
                            },
                    );
                    let mut j: usize = 0;
                    while j < nt
                        invariant
                            0 <= j <= nt,
                            nt == targets_src@.len(),
                            targets_src@ == bookmark_targets(dv),
                            keys@ == ids_of(t3v),
                            spec_targets == Seq::new(
                                bookmark_targets(dv).len(),
                                |j2: int|
                                    match pos_of(ids_of(t3v), bookmark_targets(dv)[j2]) {
                                        Option::Some(p) => dense_id(p),
                                        Option::None => ObjId { num: 0u64, gen: 0u16 },
                                    },
                            ),
                            targets@.len() == j,
                            forall|w: int| 0 <= w < j ==> targets@[w] == spec_targets[w],
                        decreases nt - j,
                    {
                        match find_pos(&keys, targets_src[j]) {
                            Option::Some(p) => {
                                targets.push(ObjId { num: p as u64 + 1, gen: 0u16 });
                            },
                            Option::None => {
                                targets.push(ObjId { num: 0u64, gen: 0u16 });
                            },
                        }
                        j += 1;
                    }
                    proof {
                        assert(targets@ =~= spec_targets);
                    }
                    let cpo = find_pos(&keys, cat_id);
                    proof {
                        lemma_find_after_set(t2v, cat_id, view_obj(PdfObj::Dict(ccontent)));
                        lemma_pos_of_find(t3v, cat_id);
                    }
                    let cat_pos = match cpo {
                        Option::Some(p) => p,
                        Option::None => {
                            proof {
                                assert(false);
                            }
                            0
                        },
                    };
                    let cat_new = ObjId { num: cat_pos as u64 + 1, gen: 0u16 };
                    let mut trailer_entries: Vec<(Vec<u8>, PdfObj)> = Vec::new();
                    trailer_entries.push((key_root(), PdfObj::Ref(cat_new)));
                    let trailer = PdfDict { entries: trailer_entries };
                    proof {
                        assert(trailer@ =~= seq![(k_root(), ObjV::Ref(cat_new))]);
                    }
                    if targets.len() == 0 {
                        let out = PageDoc { objects: dense, trailer };
                        proof {
                            assert(out@ =~~= (DocV {
                                objects: t4v,
                                trailer: seq![(k_root(), ObjV::Ref(cat_new))],
                            }));
                            assert(spec_merge(dv) == Result::<DocV, StructureError>::Ok(out@));
                        }
                        Result::Ok(out)
                    } else {
                        let dlen = dense.len();
                        let root_id = ObjId {
                            num: #[verifier::truncate] ((dlen as u128 + 1) as u64),
                            gen: 0u16,
                        };
                        let ghost dense0 = view_id_pairs(dense@);
                        match &dense[cat_pos].1 {
                            PdfObj::Dict(cd) => {
                                let mut c2 = clone_dict(cd);
                                c2.set(key_outlines(), PdfObj::Ref(root_id));
                                let ghost db = dense@;
                                dense.set(cat_pos, (cat_new, PdfObj::Dict(c2)));
                                proof {
                                    assert forall|w: int|
                                        0 <= w < dense@.len() implies view_id_pairs(dense@)[w]
                                        == dense0.update(
                                        cat_pos as int,
                                        (cat_new, view_obj(PdfObj::Dict(c2))),
                                    )[w] by {
                                        crate::pdf::lemma_view_id_pairs_index(dense@, w);
                                        if w != cat_pos {
                                            crate::pdf::lemma_view_id_pairs_index(db, w);
                                        }
                                    }
                                    assert(view_id_pairs(dense@) =~= dense0.update(
                                        cat_pos as int,
                                        (cat_new, view_obj(PdfObj::Dict(c2))),
                                    ));
                                }
                            },
                            _ => {
                                proof {
                                    assert(view_id_pairs(dense@) =~= dense0.update(
                                        cat_pos as int,
                                        (dense0[cat_pos as int].0, dense0[cat_pos as int].1),
                                    ));
                                }
                            },
                        }
                        proof {
                            lemma_bookmark_targets_len(dv);
                        }
                        let root2 = append_outline(&mut dense, &targets);
                        let out = PageDoc { objects: dense, trailer };
                        proof {
                            assert(spec_merge(dv) == Result::<DocV, StructureError>::Ok(out@));
                        }
                        Result::Ok(out)
                    }
                },
            }
        },
    }
}


/// Merging an empty batch fails with a structure error: with no input, no
/// pages root is ever found, and no output document is produced.
pub proof fn lemma_merge_empty()
    ensures
        spec_merge(Seq::<DocV>::empty()) == Result::<DocV, StructureError>::Err(
            StructureError::MissingPagesRoot,
        ),
{
    assert(spec_table(Seq::<DocV>::empty()) =~= Seq::<(ObjId, ObjV)>::empty());
}


// ----------------------------------------------------------------------------
// When merging succeeds
// ----------------------------------------------------------------------------

/// Renumbering keeps every dictionary key and name value, so it keeps the
/// declared type.
pub proof fn lemma_type_entry_ren(d: Seq<(Seq<u8>, ObjV)>, minv: u64, base: u64)
    ensures
        type_entry(ren_pairs(d, minv, base)) == type_entry(d),
    decreases d.len(),
{
    if d.len() > 0 {
        lemma_type_entry_ren(d.skip(1), minv, base);
        let r = ren_pairs(d, minv, base);
        assert(r[0] == (d[0].0, ren_obj(d[0].1, minv, base)));
        assert(r.skip(1) =~= ren_pairs(d.skip(1), minv, base));
        if d[0].0 == k_type() {
            match d[0].1 {
                ObjV::Name(n) => {},
                _ => {},
            }
        }
    }
}

/// Renumbering keeps an object's classification as a pages root or catalog.
pub proof fn lemma_class_ren(o: ObjV, minv: u64, base: u64)
    ensures
        is_pages_root(ren_obj(o, minv, base)) == is_pages_root(o),
        is_catalog(ren_obj(o, minv, base)) == is_catalog(o),
{
    match o {
        ObjV::Dict(d) => {
            lemma_type_entry_ren(d, minv, base);
        },
        ObjV::Stream(d, c, z) => {
            lemma_type_entry_ren(d, minv, base);
        },
        _ => {},
    }
}

/// A pages root among the inputs, anywhere.
pub open spec fn some_doc_has(docs: Seq<DocV>, catalog: bool) -> bool {
    exists|i: int, j: int|
        0 <= i < docs.len() && 0 <= j < docs[i].objects.len() && (if catalog {
            is_catalog(#[trigger] docs[i].objects[j].1)
        } else {
            is_pages_root(#[trigger] docs[i].objects[j].1)
        })
}

pub open spec fn table_has(t: Seq<(ObjId, ObjV)>, catalog: bool) -> bool {
    exists|k: int|
        0 <= k < t.len() && (if catalog {
            is_catalog(#[trigger] t[k].1)
        } else {
            is_pages_root(#[trigger] t[k].1)
        })
}

pub proof fn lemma_spec_table_has(docs: Seq<DocV>, catalog: bool)
    ensures
        table_has(spec_table(docs), catalog) == some_doc_has(docs, catalog),
    decreases docs.len(),
{
    if docs.len() == 0 {
    } else {
        let pre = docs.drop_last();
        lemma_spec_table_has(pre, catalog);
        let t = spec_table(docs);
        let tp = spec_table(pre);
        let last = docs.last();
        let base = doc_base(docs, docs.len() - 1);
        let rt = ren_table(last.objects, base);
        assert(t == tp + rt);
        assert forall|j: int| 0 <= j < last.objects.len() implies (is_pages_root(
            #[trigger] rt[j].1,
        ) == is_pages_root(last.objects[j].1) && is_catalog(rt[j].1) == is_catalog(
            last.objects[j].1,
        )) by {
            lemma_class_ren(last.objects[j].1, table_min(last.objects), base);
        }
        if table_has(t, catalog) {
            let k = choose|k: int|
                0 <= k < t.len() && (if catalog {
                    is_catalog(#[trigger] t[k].1)
                } else {
                    is_pages_root(#[trigger] t[k].1)
                });
            if k < tp.len() {
                assert(t[k] == tp[k]);
                assert(some_doc_has(pre, catalog));
                let (i0, j0) = choose|i0: int, j0: int|
                    0 <= i0 < pre.len() && 0 <= j0 < pre[i0].objects.len() && (if catalog {
                        is_catalog(#[trigger] pre[i0].objects[j0].1)
                    } else {
                        is_pages_root(#[trigger] pre[i0].objects[j0].1)
                    });
                assert(docs[i0] == pre[i0]);
                assert(some_doc_has(docs, catalog));
            } else {
                assert(t[k] == rt[k - tp.len()]);
                assert(some_doc_has(docs, catalog)) by {
                    assert(docs[docs.len() - 1] == last);
                }
            }
        }
        if some_doc_has(docs, catalog) {
            let (i0, j0) = choose|i0: int, j0: int|
                0 <= i0 < docs.len() && 0 <= j0 < docs[i0].objects.len() && (if catalog {
                    is_catalog(#[trigger] docs[i0].objects[j0].1)
                } else {
                    is_pages_root(#[trigger] docs[i0].objects[j0].1)
                });
            if i0 < pre.len() {
                assert(pre[i0] == docs[i0]);
                assert(some_doc_has(pre, catalog));
                let kk = choose|k: int|
                    0 <= k < tp.len() && (if catalog {
                        is_catalog(#[trigger] tp[k].1)
                    } else {
                        is_pages_root(#[trigger] tp[k].1)
                    });
                assert(t[kk] == tp[kk]);
                assert(table_has(t, catalog));
            } else {
                assert(i0 == docs.len() - 1);
                assert(docs[i0] == last);
                assert(rt.len() == last.objects.len());
                assert(0 <= tp.len() + j0 < t.len());
                assert(t[tp.len() + j0] == rt[j0]);
                assert(if catalog {
                    is_catalog(rt[j0].1)
                } else {
                    is_pages_root(rt[j0].1)
                });
                assert(table_has(t, catalog));
            }
        }
    }
}

/// Classification finds a pages root (or catalog) exactly when the state
/// already had one or the table holds one.
pub proof fn lemma_classify_finds(t: Seq<(ObjId, ObjV)>, st: ClassifyState, catalog: bool)
    ensures
        (if catalog {
            spec_classify(t, st).catalog is Some
        } else {
            spec_classify(t, st).pages is Some
        }) == ((if catalog {
            st.catalog is Some
        } else {
            st.pages is Some
        }) || table_has(t, catalog)),
    decreases t.len(),
{
    if t.len() > 0 {
        let (id, o) = t[0];
        let st1 = if is_catalog(o) {
            ClassifyState {
                catalog: Option::Some(
                    (
                        match st.catalog {
                            Option::Some((cid, _)) => cid,
                            Option::None => id,
                        },
                        o->Dict_0,
                    ),
                ),
                ..st
            }
        } else if is_pages_root(o) {
            ClassifyState {
                pages: Option::Some(
                    (
                        match st.pages {
                            Option::Some((pid, _)) => pid,
                            Option::None => id,
                        },
                        match st.pages {
                            Option::Some((_, old)) => merge_keep_first(old, o->Dict_0),
                            Option::None => o->Dict_0,
                        },
                    ),
                ),
                ..st
            }
        } else if is_dropped(o) {
            st
        } else {
            ClassifyState { kept: st.kept.push((id, o)), ..st }
        };
        lemma_classify_finds(t.skip(1), st1, catalog);
        assert(forall|k: int| 0 <= k < t.skip(1).len() ==> t.skip(1)[k] == t[k + 1]);
        if table_has(t.skip(1), catalog) {
            assert(table_has(t, catalog));
        }
        if table_has(t, catalog) && !(if catalog {
            is_catalog(o)
        } else {
            is_pages_root(o)
        }) {
            let k = choose|k: int|
                0 <= k < t.len() && (if catalog {
                    is_catalog(#[trigger] t[k].1)
                } else {
                    is_pages_root(#[trigger] t[k].1)
                });
            assert(t.skip(1)[k - 1] == t[k]);
            assert(table_has(t.skip(1), catalog));
        }
    }
}

/// When the merge fails, and with what: no pages root anywhere among the
/// inputs means `MissingPagesRoot` (an empty batch is this case); a pages
/// root but no catalog means `MissingCatalog`; otherwise the merge
/// succeeds.
pub proof fn lemma_merge_errors(docs: Seq<DocV>)
    ensures
        (spec_merge(docs) == Result::<DocV, StructureError>::Err(
            StructureError::MissingPagesRoot,
        )) == !some_doc_has(docs, false),
        (spec_merge(docs) == Result::<DocV, StructureError>::Err(
            StructureError::MissingCatalog,
        )) == (some_doc_has(docs, false) && !some_doc_has(docs, true)),
        (spec_merge(docs) is Ok) == (some_doc_has(docs, false) && some_doc_has(docs, true)),
{
    let t = spec_table(docs);
    lemma_spec_table_has(docs, false);
    lemma_spec_table_has(docs, true);
    lemma_classify_finds(t, empty_classify_state(), false);
    lemma_classify_finds(t, empty_classify_state(), true);
}

} // verus!
