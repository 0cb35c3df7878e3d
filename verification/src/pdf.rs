//! The object model of a page-format document: typed objects addressed by
//! identifiers, with dictionaries, arrays, streams and references.
//!
//! Object numbers are held as `u64` so that renumbering arithmetic stays in
//! range; a well-formed document (see `doc_wf`) only holds numbers that fit
//! the serialized format's 32-bit identifiers.

use vstd::prelude::*;

verus! {

/// An object identifier inside one page-format document: a numeric id and a
/// generation number. Unique only within a single document.
#[derive(Clone, Copy, PartialEq, Eq, Structural, Debug)]
pub struct ObjId {
    pub num: u64,
    pub gen: u16,
}

/// One object of a page-format document.
///
/// `Opaque` carries a leaf value of the underlying object-model library that
/// this model does not interpret (a non-integer number, for instance); it is
/// passed through unchanged by every transformation here.
pub enum PdfObj {
    Null,
    Bool(bool),
    Int(i64),
    Name(Vec<u8>),
    /// A string value; the flag says it is written in hexadecimal form.
    Text(Vec<u8>, bool),
    Ref(ObjId),
    Arr(Vec<PdfObj>),
    Dict(PdfDict),
    /// A stream: its dictionary, its raw content, and whether the content may
    /// be compressed when the document is written.
    Stream(PdfDict, Vec<u8>, bool),
    Opaque(lopdf::Object),
}

/// A dictionary: an ordered list of key/value entries with distinct keys.
pub struct PdfDict {
    pub entries: Vec<(Vec<u8>, PdfObj)>,
}

/// An object graph as parsed from one input buffer, or as assembled by the
/// merge engine: an object table ordered by identifier, and a trailer
/// dictionary holding the root reference.
pub struct PageDoc {
    pub objects: Vec<(ObjId, PdfObj)>,
    pub trailer: PdfDict,
}

/// The underlying object-model library's object type, carried opaquely
/// inside `PdfObj::Opaque`.
#[verifier::external_type_specification]
#[verifier::external_body]
pub struct ExLopdfObject(lopdf::Object);

/// Relies on the object-model library's derived `Clone` for its object type:
/// the clone is the same value (the type is plain owned data, without
/// interior mutability or observable addresses).
pub assume_specification[ <lopdf::Object as core::clone::Clone>::clone ](
    o: &lopdf::Object,
) -> (r: lopdf::Object)
    ensures
        r == *o,
;

/// The mathematical value of a `PdfObj`.
#[verifier::ext_equal]
pub enum ObjV {
    Null,
    Bool(bool),
    Int(i64),
    Name(Seq<u8>),
    Text(Seq<u8>, bool),
    Ref(ObjId),
    Arr(Seq<ObjV>),
    Dict(Seq<(Seq<u8>, ObjV)>),
    Stream(Seq<(Seq<u8>, ObjV)>, Seq<u8>, bool),
    Opaque(lopdf::Object),
}

/// The mathematical value of a `PageDoc`.
#[verifier::ext_equal]
pub struct DocV {
    pub objects: Seq<(ObjId, ObjV)>,
    pub trailer: Seq<(Seq<u8>, ObjV)>,
}

pub open spec fn view_obj(o: PdfObj) -> ObjV
    decreases o,
{
    match o {
        PdfObj::Null => ObjV::Null,
        PdfObj::Bool(b) => ObjV::Bool(b),
        PdfObj::Int(i) => ObjV::Int(i),
        PdfObj::Name(n) => ObjV::Name(n@),
        PdfObj::Text(t, h) => ObjV::Text(t@, h),
        PdfObj::Ref(id) => ObjV::Ref(id),
        PdfObj::Arr(items) => {
            proof {
                assert(decreases_to!(o => o->Arr_0));
            }
            ObjV::Arr(view_objs(items@))
        },
        PdfObj::Dict(d) => {
            proof {
                assert(decreases_to!(o => o->Dict_0));
                assert(decreases_to!(d => d.entries));
            }
            ObjV::Dict(view_pairs(d.entries@))
        },
        PdfObj::Stream(d, c, z) => {
            proof {
                assert(decreases_to!(o => o->Stream_0));
                assert(decreases_to!(d => d.entries));
            }
            ObjV::Stream(view_pairs(d.entries@), c@, z)
        },
        PdfObj::Opaque(x) => ObjV::Opaque(x),
    }
}

pub open spec fn view_objs(s: Seq<PdfObj>) -> Seq<ObjV>
    decreases s,
{
    if s.len() == 0 {
        Seq::empty()
    } else {
        proof {
            assert(decreases_to!(s => s[0]));
            assert(decreases_to!(s => s.subrange(1, s.len() as int)));
        }
        seq![view_obj(s[0])] + view_objs(s.skip(1))
    }
}

pub open spec fn view_pairs(s: Seq<(Vec<u8>, PdfObj)>) -> Seq<(Seq<u8>, ObjV)>
    decreases s,
{
    if s.len() == 0 {
        Seq::empty()
    } else {
        proof {
            assert(decreases_to!(s => s[0]));
            assert(decreases_to!(s => s.subrange(1, s.len() as int)));
        }
        seq![(s[0].0@, view_obj(s[0].1))] + view_pairs(s.skip(1))
    }
}

pub broadcast proof fn lemma_view_objs_len(s: Seq<PdfObj>)
    ensures
        (#[trigger] view_objs(s)).len() == s.len(),
    decreases s.len(),
{
    if s.len() > 0 {
        lemma_view_objs_len(s.skip(1));
    }
}

pub broadcast proof fn lemma_view_objs_index(s: Seq<PdfObj>, i: int)
    requires
        0 <= i < s.len(),
    ensures
        #[trigger] view_objs(s)[i] == view_obj(s[i]),
    decreases i,
{
    lemma_view_objs_len(s.skip(1));
    if i > 0 {
        lemma_view_objs_index(s.skip(1), i - 1);
    }
}

pub broadcast proof fn lemma_view_pairs_len(s: Seq<(Vec<u8>, PdfObj)>)
    ensures
        (#[trigger] view_pairs(s)).len() == s.len(),
    decreases s.len(),
{
    if s.len() > 0 {
        lemma_view_pairs_len(s.skip(1));
    }
}

pub broadcast proof fn lemma_view_pairs_index(s: Seq<(Vec<u8>, PdfObj)>, i: int)
    requires
        0 <= i < s.len(),
    ensures
        #[trigger] view_pairs(s)[i] == (s[i].0@, view_obj(s[i].1)),
    decreases i,
{
    lemma_view_pairs_len(s.skip(1));
    if i > 0 {
        lemma_view_pairs_index(s.skip(1), i - 1);
    }
}

pub open spec fn view_id_pairs(s: Seq<(ObjId, PdfObj)>) -> Seq<(ObjId, ObjV)>
    decreases s,
{
    if s.len() == 0 {
        Seq::empty()
    } else {
        proof {
            assert(decreases_to!(s => s[0]));
            assert(decreases_to!(s => s.subrange(1, s.len() as int)));
        }
        seq![(s[0].0, view_obj(s[0].1))] + view_id_pairs(s.skip(1))
    }
}

pub broadcast proof fn lemma_view_id_pairs_len(s: Seq<(ObjId, PdfObj)>)
    ensures
        (#[trigger] view_id_pairs(s)).len() == s.len(),
    decreases s.len(),
{
    if s.len() > 0 {
        lemma_view_id_pairs_len(s.skip(1));
    }
}

pub broadcast proof fn lemma_view_id_pairs_index(s: Seq<(ObjId, PdfObj)>, i: int)
    requires
        0 <= i < s.len(),
    ensures
        #[trigger] view_id_pairs(s)[i] == (s[i].0, view_obj(s[i].1)),
    decreases i,
{
    lemma_view_id_pairs_len(s.skip(1));
    if i > 0 {
        lemma_view_id_pairs_index(s.skip(1), i - 1);
    }
}


pub broadcast proof fn lemma_view_objs_push(s: Seq<PdfObj>, x: PdfObj)
    ensures
        #[trigger] view_objs(s.push(x)) =~= view_objs(s).push(view_obj(x)),
    decreases s.len(),
{
    lemma_view_objs_len(s);
    lemma_view_objs_len(s.push(x));
    if s.len() == 0 {
        assert(s.push(x)[0] == x);
        assert(s.push(x).skip(1) =~= Seq::<PdfObj>::empty());
        assert(view_objs(s.push(x).skip(1)) =~= Seq::<ObjV>::empty());
        assert(view_objs(s.push(x)) =~= seq![view_obj(x)]);
        assert(view_objs(s) =~= Seq::<ObjV>::empty());
    } else {
        lemma_view_objs_push(s.skip(1), x);
        assert(s.push(x)[0] == s[0]);
        assert(s.push(x).skip(1) =~= s.skip(1).push(x));
        lemma_view_objs_len(s.skip(1));
        lemma_view_objs_len(s.skip(1).push(x));
        assert(view_objs(s.push(x)) =~= seq![view_obj(s[0])] + view_objs(s.skip(1).push(x)));
        assert(view_objs(s.skip(1).push(x)) =~= view_objs(s.skip(1)).push(view_obj(x)));
    }
}

pub broadcast proof fn lemma_view_pairs_push(s: Seq<(Vec<u8>, PdfObj)>, x: (Vec<u8>, PdfObj))
    ensures
        #[trigger] view_pairs(s.push(x)) =~= view_pairs(s).push((x.0@, view_obj(x.1))),
    decreases s.len(),
{
    lemma_view_pairs_len(s);
    lemma_view_pairs_len(s.push(x));
    if s.len() == 0 {
        assert(s.push(x)[0] == x);
        assert(s.push(x).skip(1) =~= Seq::<(Vec<u8>, PdfObj)>::empty());
        assert(view_pairs(s.push(x).skip(1)) =~= Seq::<(Seq<u8>, ObjV)>::empty());
        assert(view_pairs(s.push(x)) =~= seq![(x.0@, view_obj(x.1))]);
        assert(view_pairs(s) =~= Seq::<(Seq<u8>, ObjV)>::empty());
    } else {
        lemma_view_pairs_push(s.skip(1), x);
        assert(s.push(x)[0] == s[0]);
        assert(s.push(x).skip(1) =~= s.skip(1).push(x));
        lemma_view_pairs_len(s.skip(1));
        lemma_view_pairs_len(s.skip(1).push(x));
        assert(view_pairs(s.push(x)) =~= seq![(s[0].0@, view_obj(s[0].1))] + view_pairs(
            s.skip(1).push(x),
        ));
        assert(view_pairs(s.skip(1).push(x)) =~= view_pairs(s.skip(1)).push(
            (x.0@, view_obj(x.1)),
        ));
    }
}

pub broadcast proof fn lemma_view_id_pairs_push(s: Seq<(ObjId, PdfObj)>, x: (ObjId, PdfObj))
    ensures
        #[trigger] view_id_pairs(s.push(x)) =~= view_id_pairs(s).push((x.0, view_obj(x.1))),
    decreases s.len(),
{
    lemma_view_id_pairs_len(s);
    lemma_view_id_pairs_len(s.push(x));
    if s.len() == 0 {
        assert(s.push(x)[0] == x);
        assert(s.push(x).skip(1) =~= Seq::<(ObjId, PdfObj)>::empty());
        assert(view_id_pairs(s.push(x).skip(1)) =~= Seq::<(ObjId, ObjV)>::empty());
        assert(view_id_pairs(s.push(x)) =~= seq![(x.0, view_obj(x.1))]);
        assert(view_id_pairs(s) =~= Seq::<(ObjId, ObjV)>::empty());
    } else {
        lemma_view_id_pairs_push(s.skip(1), x);
        assert(s.push(x)[0] == s[0]);
        assert(s.push(x).skip(1) =~= s.skip(1).push(x));
        lemma_view_id_pairs_len(s.skip(1));
        lemma_view_id_pairs_len(s.skip(1).push(x));
        assert(view_id_pairs(s.push(x)) =~= seq![(s[0].0, view_obj(s[0].1))] + view_id_pairs(
            s.skip(1).push(x),
        ));
        assert(view_id_pairs(s.skip(1).push(x)) =~= view_id_pairs(s.skip(1)).push(
            (x.0, view_obj(x.1)),
        ));
    }
}


pub proof fn lemma_view_id_pairs_concat(a: Seq<(ObjId, PdfObj)>, b: Seq<(ObjId, PdfObj)>)
    ensures
        view_id_pairs(a + b) =~= view_id_pairs(a) + view_id_pairs(b),
    decreases a.len(),
{
    lemma_view_id_pairs_len(a);
    lemma_view_id_pairs_len(b);
    lemma_view_id_pairs_len(a + b);
    if a.len() == 0 {
        assert(a + b =~= b);
        assert(view_id_pairs(a) =~= Seq::<(ObjId, ObjV)>::empty());
    } else {
        lemma_view_id_pairs_concat(a.skip(1), b);
        assert((a + b)[0] == a[0]);
        assert((a + b).skip(1) =~= a.skip(1) + b);
        assert(view_id_pairs(a + b) =~= seq![(a[0].0, view_obj(a[0].1))] + view_id_pairs(
            a.skip(1) + b,
        ));
        assert forall|k: int| 0 <= k < (view_id_pairs(a) + view_id_pairs(b)).len() implies (
        view_id_pairs(a) + view_id_pairs(b))[k] == view_id_pairs(a + b)[k] by {
            lemma_view_id_pairs_index(a + b, k);
            if k < a.len() {
                lemma_view_id_pairs_index(a, k);
            } else {
                lemma_view_id_pairs_index(b, k - a.len());
            }
            assert((a + b)[k] == if k < a.len() {
                a[k]
            } else {
                b[k - a.len()]
            });
        }
    }
}

/// The pointwise description of the view of object lists, entry lists and
/// object tables.
pub broadcast group group_pdf_views {
    lemma_view_objs_push,
    lemma_view_pairs_push,
    lemma_view_id_pairs_push,
    lemma_view_objs_len,
    lemma_view_objs_index,
    lemma_view_pairs_len,
    lemma_view_pairs_index,
    lemma_view_id_pairs_len,
    lemma_view_id_pairs_index,
}

impl View for PdfObj {
    type V = ObjV;

    open spec fn view(&self) -> ObjV {
        view_obj(*self)
    }
}

impl View for PdfDict {
    type V = Seq<(Seq<u8>, ObjV)>;

    open spec fn view(&self) -> Seq<(Seq<u8>, ObjV)> {
        view_pairs(self.entries@)
    }
}

impl View for PageDoc {
    type V = DocV;

    open spec fn view(&self) -> DocV {
        DocV { objects: view_id_pairs(self.objects@), trailer: view_pairs(self.trailer.entries@) }
    }
}

pub open spec fn view_table(objects: Vec<(ObjId, PdfObj)>) -> Seq<(ObjId, ObjV)> {
    view_id_pairs(objects@)
}

/// The largest object number that the serialized format can carry.
pub open spec fn max_obj_num() -> u64 {
    0xFFFF_FFFFu64
}

// ----------------------------------------------------------------------------
// Well-formedness
// ----------------------------------------------------------------------------

pub open spec fn keys_unique(d: Seq<(Seq<u8>, ObjV)>) -> bool {
    forall|i: int, j: int| 0 <= i < j < d.len() ==> d[i].0 != d[j].0
}

/// Every dictionary inside the object has distinct keys, and every reference
/// target fits the serialized format's identifier range.
pub open spec fn obj_wf(o: ObjV) -> bool
    decreases o,
{
    match o {
        ObjV::Ref(id) => id.num <= max_obj_num(),
        ObjV::Arr(items) => forall|i: int| 0 <= i < items.len() ==> obj_wf(#[trigger] items[i]),
        ObjV::Dict(d) => dict_wf(d),
        ObjV::Stream(d, _, _) => dict_wf(d),
        _ => true,
    }
}

pub open spec fn dict_wf(d: Seq<(Seq<u8>, ObjV)>) -> bool
    decreases d,
{
    keys_unique(d) && forall|i: int| 0 <= i < d.len() ==> obj_wf(#[trigger] d[i].1)
}

/// Order on identifiers: by number, then by generation.
pub open spec fn id_lt(a: ObjId, b: ObjId) -> bool {
    a.num < b.num || (a.num == b.num && a.gen < b.gen)
}

/// A well-formed document: the object table is strictly ordered by identifier
/// (so identifiers are unique), every number fits the serialized format, and
/// every object and the trailer are well-formed.
pub open spec fn doc_wf(d: DocV) -> bool {
    &&& forall|i: int, j: int|
        0 <= i < j < d.objects.len() ==> id_lt(#[trigger] d.objects[i].0, #[trigger] d.objects[j].0)
    &&& forall|i: int| 0 <= i < d.objects.len() ==> (#[trigger] d.objects[i].0).num <= max_obj_num()
    &&& forall|i: int| 0 <= i < d.objects.len() ==> obj_wf(#[trigger] d.objects[i].1)
    &&& dict_wf(d.trailer)
}

// ----------------------------------------------------------------------------
// Dictionary lookup, update, removal
// ----------------------------------------------------------------------------

/// The value of the first entry whose key matches, if any.
pub open spec fn spec_lookup(d: Seq<(Seq<u8>, ObjV)>, key: Seq<u8>) -> Option<ObjV>
    decreases d.len(),
{
    if d.len() == 0 {
        Option::None
    } else if d[0].0 == key {
        Option::Some(d[0].1)
    } else {
        spec_lookup(d.skip(1), key)
    }
}

/// Replace the value of the first entry whose key matches, or append a new
/// entry at the end.
pub open spec fn spec_set(d: Seq<(Seq<u8>, ObjV)>, key: Seq<u8>, val: ObjV) -> Seq<
    (Seq<u8>, ObjV),
>
    decreases d.len(),
{
    if d.len() == 0 {
        seq![(key, val)]
    } else if d[0].0 == key {
        seq![(key, val)] + d.skip(1)
    } else {
        seq![d[0]] + spec_set(d.skip(1), key, val)
    }
}

/// Remove every entry whose key matches.
pub open spec fn spec_remove(d: Seq<(Seq<u8>, ObjV)>, key: Seq<u8>) -> Seq<(Seq<u8>, ObjV)>
    decreases d.len(),
{
    if d.len() == 0 {
        d
    } else if d[0].0 == key {
        spec_remove(d.skip(1), key)
    } else {
        seq![d[0]] + spec_remove(d.skip(1), key)
    }
}

pub proof fn lemma_lookup_at(d: Seq<(Seq<u8>, ObjV)>, key: Seq<u8>, i: int)
    requires
        0 <= i < d.len(),
        forall|j: int| 0 <= j < i ==> d[j].0 != key,
        d[i].0 == key,
    ensures
        spec_lookup(d, key) == Option::Some(d[i].1),
    decreases i,
{
    if i > 0 {
        lemma_lookup_at(d.skip(1), key, i - 1);
    }
}

pub proof fn lemma_lookup_none(d: Seq<(Seq<u8>, ObjV)>, key: Seq<u8>)
    requires
        forall|j: int| 0 <= j < d.len() ==> d[j].0 != key,
    ensures
        spec_lookup(d, key) is None,
    decreases d.len(),
{
    if d.len() > 0 {
        lemma_lookup_none(d.skip(1), key);
    }
}

pub proof fn lemma_set_at(d: Seq<(Seq<u8>, ObjV)>, key: Seq<u8>, val: ObjV, i: int)
    requires
        0 <= i < d.len(),
        forall|j: int| 0 <= j < i ==> d[j].0 != key,
        d[i].0 == key,
    ensures
        spec_set(d, key, val) =~= d.update(i, (key, val)),
    decreases i,
{
    if i > 0 {
        lemma_set_at(d.skip(1), key, val, i - 1);
        assert(spec_set(d, key, val) =~= seq![d[0]] + spec_set(d.skip(1), key, val));
    }
}

pub proof fn lemma_set_absent(d: Seq<(Seq<u8>, ObjV)>, key: Seq<u8>, val: ObjV)
    requires
        forall|j: int| 0 <= j < d.len() ==> d[j].0 != key,
    ensures
        spec_set(d, key, val) =~= d.push((key, val)),
    decreases d.len(),
{
    if d.len() > 0 {
        lemma_set_absent(d.skip(1), key, val);
    }
}

pub proof fn lemma_remove_at(d: Seq<(Seq<u8>, ObjV)>, key: Seq<u8>, i: int)
    requires
        keys_unique(d),
        0 <= i < d.len(),
        forall|j: int| 0 <= j < i ==> d[j].0 != key,
        d[i].0 == key,
    ensures
        spec_remove(d, key) =~= d.take(i) + d.skip(i + 1),
    decreases i,
{
    if i == 0 {
        assert(forall|j: int| 0 <= j < d.skip(1).len() ==> d.skip(1)[j].0 != key);
        lemma_remove_absent(d.skip(1), key);
        assert(spec_remove(d, key) == spec_remove(d.skip(1), key));
        assert(d.take(0) + d.skip(1) =~= d.skip(1));
    } else {
        lemma_remove_at(d.skip(1), key, i - 1);
        assert(d.skip(1).take(i - 1) + d.skip(1).skip(i) =~= d.take(i).skip(1) + d.skip(i + 1));
    }
}

pub proof fn lemma_remove_absent(d: Seq<(Seq<u8>, ObjV)>, key: Seq<u8>)
    requires
        forall|j: int| 0 <= j < d.len() ==> d[j].0 != key,
    ensures
        spec_remove(d, key) =~= d,
    decreases d.len(),
{
    if d.len() > 0 {
        lemma_remove_absent(d.skip(1), key);
    }
}

/// Compare a dictionary key with a wanted key, byte for byte.
pub fn bytes_eq(a: &Vec<u8>, b: &Vec<u8>) -> (r: bool)
    ensures
        r == (a@ == b@),
{
    if a.len() != b.len() {
        proof {
            assert(a@ != b@);
        }
        return false;
    }
    let n = a.len();
    let mut i: usize = 0;
    while i < n
        invariant
            n == a@.len() == b@.len(),
            0 <= i <= n,
            forall|j: int| 0 <= j < i ==> a@[j] == b@[j],
        decreases n - i,
    {
        if a[i] != b[i] {
            return false;
        }
        i += 1;
    }
    proof {
        assert(a@ =~= b@);
    }
    true
}

impl PdfDict {
    pub open spec fn wf(&self) -> bool {
        dict_wf(self@)
    }

    pub fn empty() -> (r: PdfDict)
        ensures
            r@ =~= Seq::<(Seq<u8>, ObjV)>::empty(),
            r.wf(),
    {
        let r = PdfDict { entries: Vec::new() };
        proof {
            assert(r@ =~= Seq::<(Seq<u8>, ObjV)>::empty());
        }
        r
    }

    /// The value stored under `key`, if any.
    #[verifier::loop_isolation(false)]
    pub fn get(&self, key: &Vec<u8>) -> (r: Option<&PdfObj>)
        ensures
            match r {
                Option::Some(o) => spec_lookup(self@, key@) == Option::Some(o@),
                Option::None => spec_lookup(self@, key@) is None,
            },
    {
        broadcast use group_pdf_views;

        let n = self.entries.len();
        let mut i: usize = 0;
        while i < n
            invariant
                n == self.entries@.len(),
                0 <= i <= n,
                forall|j: int| 0 <= j < i ==> self@[j].0 != key@,
            decreases n - i,
        {
            if bytes_eq(&self.entries[i].0, key) {
                proof {
                    lemma_lookup_at(self@, key@, i as int);
                }
                return Option::Some(&self.entries[i].1);
            }
            i += 1;
        }
        proof {
            lemma_lookup_none(self@, key@);
        }
        Option::None
    }

    /// Store `val` under `key`: replace the first matching entry, or append.
    #[verifier::loop_isolation(false)]
    pub fn set(&mut self, key: Vec<u8>, val: PdfObj)
        ensures
            final(self)@ =~= spec_set(old(self)@, key@, val@),
            old(self).wf() && obj_wf(val@) ==> final(self).wf(),
            old(self).wf() ==> keys_unique(final(self)@),
    {
        broadcast use group_pdf_views;

        let ghost d0 = self@;
        let n = self.entries.len();
        let mut i: usize = 0;
        while i < n
            invariant
                n == self.entries@.len(),
                0 <= i <= n,
                self@ == d0,
                forall|j: int| 0 <= j < i ==> d0[j].0 != key@,
            decreases n - i,
        {
            if bytes_eq(&self.entries[i].0, &key) {
                proof {
                    lemma_set_at(d0, key@, val@, i as int);
                }
                self.entries.set(i, (key, val));
                proof {
                    assert(self@ =~= d0.update(i as int, (key@, val@)));
                    if dict_wf(d0) {
                        lemma_set_preserves_wf(d0, key@, val@, self@);
                    }
                }
                return ;
            }
            i += 1;
        }
        proof {
            lemma_set_absent(d0, key@, val@);
        }
        self.entries.push((key, val));
        proof {
            assert(self@ =~= d0.push((key@, val@)));
            if dict_wf(d0) {
                lemma_set_preserves_wf(d0, key@, val@, self@);
            }
        }
    }

    /// Remove the entries stored under `key`.
    #[verifier::loop_isolation(false)]
    pub fn remove(&mut self, key: &Vec<u8>)
        ensures
            final(self)@ =~= spec_remove(old(self)@, key@),
            old(self).wf() ==> final(self).wf(),
    {
        broadcast use group_pdf_views;

        let ghost d0 = self@;
        let n = self.entries.len();
        let mut out: Vec<(Vec<u8>, PdfObj)> = Vec::new();
        let mut i: usize = 0;
        proof {
            assert(d0.skip(0) =~= d0);
            assert(view_pairs(out@) + spec_remove(d0, key@) =~= spec_remove(d0, key@));
        }
        while i < n
            invariant
                0 <= i <= n,
                n == self.entries@.len(),
                self@ == d0,
                spec_remove(d0, key@) =~= view_pairs(out@) + spec_remove(d0.skip(i as int), key@),
            decreases n - i,
        {
            proof {
                assert(d0.skip(i as int)[0] == d0[i as int]);
                assert(d0.skip(i as int).skip(1) =~= d0.skip(i as int + 1));
            }
            if !bytes_eq(&self.entries[i].0, key) {
                let ghost out0 = out@;
                let e = (self.entries[i].0.clone(), crate::merge::clone_obj(&self.entries[i].1));
                out.push(e);
                proof {
                    assert(view_pairs(out@) =~= view_pairs(out0).push(
                        (d0[i as int].0, d0[i as int].1),
                    ));
                    assert(view_pairs(out@) + spec_remove(d0.skip(i as int + 1), key@)
                        =~= view_pairs(out0) + spec_remove(d0.skip(i as int), key@));
                }
            }
            i += 1;
        }
        proof {
            assert(d0.skip(n as int) =~= Seq::<(Seq<u8>, ObjV)>::empty());
            assert(view_pairs(out@) =~= spec_remove(d0, key@));
            if dict_wf(d0) {
                lemma_remove_wf(d0, key@);
            }
        }
        self.entries = out;
    }
}

/// Removal keeps a dictionary well-formed: what remains is a subsequence of
/// what was there.
pub proof fn lemma_remove_wf(d: Seq<(Seq<u8>, ObjV)>, key: Seq<u8>)
    requires
        dict_wf(d),
    ensures
        dict_wf(spec_remove(d, key)),
        forall|p: int|
            0 <= p < spec_remove(d, key).len() ==> exists|q: int|
                0 <= q < d.len() && #[trigger] spec_remove(d, key)[p] == d[q],
    decreases d.len(),
{
    if d.len() > 0 {
        assert(dict_wf(d.skip(1))) by {
            assert(forall|j: int|
                0 <= j < d.skip(1).len() ==> d.skip(1)[j] == d[j + 1]);
        }
        lemma_remove_wf(d.skip(1), key);
        let r = spec_remove(d, key);
        let rr = spec_remove(d.skip(1), key);
        if d[0].0 == key {
            assert forall|p: int| 0 <= p < r.len() implies exists|q: int|
                0 <= q < d.len() && #[trigger] r[p] == d[q] by {
                let q0 = choose|q: int| 0 <= q < d.skip(1).len() && rr[p] == d.skip(1)[q];
                assert(r[p] == d[q0 + 1]);
            }
        } else {
            assert(r =~= seq![d[0]] + rr);
            assert forall|p: int| 0 <= p < r.len() implies exists|q: int|
                0 <= q < d.len() && #[trigger] r[p] == d[q] by {
                if p == 0 {
                    assert(r[0] == d[0]);
                } else {
                    let q0 = choose|q: int|
                        0 <= q < d.skip(1).len() && rr[p - 1] == d.skip(1)[q];
                    assert(r[p] == d[q0 + 1]);
                }
            }
            assert forall|p: int, q: int| 0 <= p < q < r.len() implies r[p].0 != r[q].0 by {
                if p == 0 {
                    let w = choose|w: int| 0 <= w < d.skip(1).len() && rr[q - 1] == d.skip(1)[w];
                    assert(r[q] == d[w + 1]);
                    assert(d[0].0 != d[w + 1].0);
                }
            }
            assert forall|p: int| 0 <= p < r.len() implies obj_wf(#[trigger] r[p].1) by {
                if p > 0 {
                    assert(r[p] == rr[p - 1]);
                }
            }
        }
    }
}


proof fn lemma_set_preserves_wf(
    d0: Seq<(Seq<u8>, ObjV)>,
    key: Seq<u8>,
    val: ObjV,
    d1: Seq<(Seq<u8>, ObjV)>,
)
    requires
        dict_wf(d0),
        ({
            ||| (exists|i: int|
                0 <= i < d0.len() && d0[i].0 == key && d1 =~= d0.update(i, (key, val)) && (forall|
                    j: int,
                |
                    0 <= j < i ==> d0[j].0 != key))
            ||| ((forall|j: int| 0 <= j < d0.len() ==> d0[j].0 != key) && d1 =~= d0.push(
                (key, val),
            ))
        }),
    ensures
        obj_wf(val) ==> dict_wf(d1),
        keys_unique(d1),
{
    if exists|i: int|
        0 <= i < d0.len() && d0[i].0 == key && d1 =~= d0.update(i, (key, val)) && (forall|j: int|
            0 <= j < i ==> d0[j].0 != key) {
        let i = choose|i: int|
            0 <= i < d0.len() && d0[i].0 == key && d1 =~= d0.update(i, (key, val)) && (forall|
                j: int,
            |
                0 <= j < i ==> d0[j].0 != key);
        assert forall|p: int, q: int| 0 <= p < q < d1.len() implies d1[p].0 != d1[q].0 by {
            assert(d0[p].0 == d1[p].0 || p == i);
            assert(d0[q].0 == d1[q].0 || q == i);
        }
    } else {
        assert forall|p: int, q: int| 0 <= p < q < d1.len() implies d1[p].0 != d1[q].0 by {
            if q == d0.len() {
                assert(d1[p].0 == d0[p].0 && d1[q].0 == key);
            }
        }
    }
}

// ----------------------------------------------------------------------------
// Object table lookup
// ----------------------------------------------------------------------------

/// The object stored under `id` in a table, if any: the first match.
pub open spec fn spec_find(t: Seq<(ObjId, ObjV)>, id: ObjId) -> Option<ObjV>
    decreases t.len(),
{
    if t.len() == 0 {
        Option::None
    } else if t[0].0 == id {
        Option::Some(t[0].1)
    } else {
        spec_find(t.skip(1), id)
    }
}

pub proof fn lemma_find_at(t: Seq<(ObjId, ObjV)>, id: ObjId, i: int)
    requires
        0 <= i < t.len(),
        forall|j: int| 0 <= j < i ==> t[j].0 != id,
        t[i].0 == id,
    ensures
        spec_find(t, id) == Option::Some(t[i].1),
    decreases i,
{
    if i > 0 {
        lemma_find_at(t.skip(1), id, i - 1);
    }
}

pub proof fn lemma_find_none(t: Seq<(ObjId, ObjV)>, id: ObjId)
    requires
        forall|j: int| 0 <= j < t.len() ==> t[j].0 != id,
    ensures
        spec_find(t, id) is None,
    decreases t.len(),
{
    if t.len() > 0 {
        lemma_find_none(t.skip(1), id);
    }
}

/// Look an object up in a table by identifier.
#[verifier::loop_isolation(false)]
pub fn table_find(t: &Vec<(ObjId, PdfObj)>, id: ObjId) -> (r: Option<&PdfObj>)
    ensures
        match r {
            Option::Some(o) => spec_find(view_table(*t), id) == Option::Some(o@),
            Option::None => spec_find(view_table(*t), id) is None,
        },
{
    broadcast use group_pdf_views;

    let n = t.len();
    let mut i: usize = 0;
    while i < n
        invariant
            n == t@.len(),
            0 <= i <= n,
            forall|j: int| 0 <= j < i ==> view_table(*t)[j].0 != id,
        decreases n - i,
    {
        if t[i].0.num == id.num && t[i].0.gen == id.gen {
            proof {
                lemma_find_at(view_table(*t), id, i as int);
            }
            return Option::Some(&t[i].1);
        }
        i += 1;
    }
    proof {
        lemma_find_none(view_table(*t), id);
    }
    Option::None
}

// ----------------------------------------------------------------------------
// Decimal rendering of a number, for bookmark titles
// ----------------------------------------------------------------------------

/// The decimal digits of `n`, as bytes.
pub open spec fn spec_dec(n: nat) -> Seq<u8>
    decreases n,
{
    if n < 10 {
        seq![(48 + n) as u8]
    } else {
        spec_dec(n / 10).push((48 + n % 10) as u8)
    }
}

pub fn dec_bytes(n: u64) -> (r: Vec<u8>)
    ensures
        r@ == spec_dec(n as nat),
    decreases n,
{
    if n < 10 {
        let mut v: Vec<u8> = Vec::new();
        v.push(48 + n as u8);
        proof {
            assert(v@ =~= spec_dec(n as nat));
        }
        v
    } else {
        let mut v = dec_bytes(n / 10);
        v.push(48 + (n % 10) as u8);
        v
    }
}

} // verus!
