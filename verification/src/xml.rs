//! The markup normalizer: parses a vector-graphics document tree, inlines
//! every base64-embedded vector payload found inside image references
//! (bottom-up, so nested embeddings are resolved), and writes the tree back
//! out.
//!
//! The tree model holds tag names, attribute names and values, and text as
//! bytes (UTF-8); namespace declarations are carried through opaquely.

use vstd::prelude::*;

use base64::Engine;
use vstd::string::StringSliceAdditionalSpecFns;

verus! {

/// One element of a markup tree: a tag name, an ordered attribute list with
/// distinct names, and an ordered list of children. The prefix, namespace
/// and namespace-declaration fields are carried through unchanged; the
/// normalizer never reads them.
pub struct Elem {
    pub name: Vec<u8>,
    pub prefix: Option<Vec<u8>>,
    pub namespace: Option<Vec<u8>>,
    pub ns_decls: Option<xmltree::Namespace>,
    pub attrs: Vec<(Vec<u8>, Vec<u8>)>,
    pub children: Vec<XmlNode>,
}

/// One node of a markup tree.
pub enum XmlNode {
    Elem(Elem),
    Text(Vec<u8>),
    Comment(Vec<u8>),
    CData(Vec<u8>),
    ProcInst(Vec<u8>, Option<Vec<u8>>),
}

/// The markup library's namespace table, carried opaquely.
#[verifier::external_type_specification]
#[verifier::external_body]
pub struct ExXmlNamespace(xmltree::Namespace);

/// The markup library's element type, converted to and from at the parse
/// and write boundary.
#[verifier::external_type_specification]
#[verifier::external_body]
pub struct ExXmlElement(xmltree::Element);

/// The markup library's node type.
#[verifier::external_type_specification]
#[verifier::external_body]
pub struct ExXmlNode(xmltree::XMLNode);

/// Relies on the markup library's derived `Clone` for its namespace table:
/// the clone is the same value (plain owned data).
pub assume_specification[ <xmltree::Namespace as core::clone::Clone>::clone ](
    n: &xmltree::Namespace,
) -> (r: xmltree::Namespace)
    ensures
        r == *n,
;

/// The mathematical value of an `Elem`.
#[verifier::ext_equal]
pub struct ElemV {
    pub name: Seq<u8>,
    pub prefix: Option<Seq<u8>>,
    pub namespace: Option<Seq<u8>>,
    pub ns_decls: Option<xmltree::Namespace>,
    pub attrs: Seq<(Seq<u8>, Seq<u8>)>,
    pub children: Seq<NodeV>,
}

/// The mathematical value of an `XmlNode`.
#[verifier::ext_equal]
pub enum NodeV {
    Elem(ElemV),
    Text(Seq<u8>),
    Comment(Seq<u8>),
    CData(Seq<u8>),
    ProcInst(Seq<u8>, Option<Seq<u8>>),
}

pub open spec fn bytes_opt_view(o: Option<Vec<u8>>) -> Option<Seq<u8>> {
    match o {
        Option::Some(v) => Option::Some(v@),
        Option::None => Option::None,
    }
}

pub open spec fn attrs_view(attrs: Vec<(Vec<u8>, Vec<u8>)>) -> Seq<(Seq<u8>, Seq<u8>)> {
    Seq::new(attrs@.len(), |i: int| (attrs@[i].0@, attrs@[i].1@))
}

pub open spec fn view_elem(e: Elem) -> ElemV
    decreases e,
{
    proof {
        assert(decreases_to!(e => e.children));
    }
    ElemV {
        name: e.name@,
        prefix: bytes_opt_view(e.prefix),
        namespace: bytes_opt_view(e.namespace),
        ns_decls: e.ns_decls,
        attrs: attrs_view(e.attrs),
        children: view_nodes(e.children@),
    }
}

pub open spec fn view_nodes(s: Seq<XmlNode>) -> Seq<NodeV>
    decreases s,
{
    if s.len() == 0 {
        Seq::empty()
    } else {
        proof {
            assert(decreases_to!(s => s[0]));
            assert(decreases_to!(s => s.subrange(1, s.len() as int)));
        }
        seq![view_node(s[0])] + view_nodes(s.skip(1))
    }
}

pub open spec fn view_node(n: XmlNode) -> NodeV
    decreases n,
{
    match n {
        XmlNode::Elem(e) => {
            proof {
                assert(decreases_to!(n => n->Elem_0));
            }
            NodeV::Elem(view_elem(e))
        },
        XmlNode::Text(t) => NodeV::Text(t@),
        XmlNode::Comment(t) => NodeV::Comment(t@),
        XmlNode::CData(t) => NodeV::CData(t@),
        XmlNode::ProcInst(a, b) => NodeV::ProcInst(a@, bytes_opt_view(b)),
    }
}

impl View for Elem {
    type V = ElemV;

    open spec fn view(&self) -> ElemV {
        view_elem(*self)
    }
}

impl View for XmlNode {
    type V = NodeV;

    open spec fn view(&self) -> NodeV {
        view_node(*self)
    }
}

pub broadcast proof fn lemma_view_nodes_len(s: Seq<XmlNode>)
    ensures
        (#[trigger] view_nodes(s)).len() == s.len(),
    decreases s.len(),
{
    if s.len() > 0 {
        lemma_view_nodes_len(s.skip(1));
    }
}

pub broadcast proof fn lemma_view_nodes_index(s: Seq<XmlNode>, i: int)
    requires
        0 <= i < s.len(),
    ensures
        #[trigger] view_nodes(s)[i] == view_node(s[i]),
    decreases i,
{
    lemma_view_nodes_len(s.skip(1));
    if i > 0 {
        lemma_view_nodes_index(s.skip(1), i - 1);
    }
}

pub broadcast proof fn lemma_view_nodes_push(s: Seq<XmlNode>, x: XmlNode)
    ensures
        #[trigger] view_nodes(s.push(x)) =~= view_nodes(s).push(view_node(x)),
    decreases s.len(),
{
    lemma_view_nodes_len(s);
    lemma_view_nodes_len(s.push(x));
    if s.len() == 0 {
        assert(s.push(x)[0] == x);
        assert(s.push(x).skip(1) =~= Seq::<XmlNode>::empty());
        assert(view_nodes(s.push(x).skip(1)) =~= Seq::<NodeV>::empty());
        assert(view_nodes(s.push(x)) =~= seq![view_node(x)]);
        assert(view_nodes(s) =~= Seq::<NodeV>::empty());
    } else {
        lemma_view_nodes_push(s.skip(1), x);
        assert(s.push(x)[0] == s[0]);
        assert(s.push(x).skip(1) =~= s.skip(1).push(x));
        lemma_view_nodes_len(s.skip(1));
        lemma_view_nodes_len(s.skip(1).push(x));
        assert(view_nodes(s.push(x)) =~= seq![view_node(s[0])] + view_nodes(s.skip(1).push(x)));
        assert(view_nodes(s.skip(1).push(x)) =~= view_nodes(s.skip(1)).push(view_node(x)));
    }
}

/// The pointwise description of node-list views.
pub broadcast group group_xml_views {
    lemma_view_nodes_len,
    lemma_view_nodes_index,
    lemma_view_nodes_push,
}

// ----------------------------------------------------------------------------
// Names
// ----------------------------------------------------------------------------

/// The byte string "image".
pub open spec fn n_image() -> Seq<u8> {
    seq![105u8, 109u8, 97u8, 103u8, 101u8]
}

pub fn name_image() -> (r: Vec<u8>)
    ensures
        r@ == n_image(),
{
    let mut v: Vec<u8> = Vec::new();
    v.push(105u8);
    v.push(109u8);
    v.push(97u8);
    v.push(103u8);
    v.push(101u8);
    proof {
        assert(v@ =~= n_image());
    }
    v
}

/// The byte string "href".
pub open spec fn n_href() -> Seq<u8> {
    seq![104u8, 114u8, 101u8, 102u8]
}

pub fn name_href() -> (r: Vec<u8>)
    ensures
        r@ == n_href(),
{
    let mut v: Vec<u8> = Vec::new();
    v.push(104u8);
    v.push(114u8);
    v.push(101u8);
    v.push(102u8);
    proof {
        assert(v@ =~= n_href());
    }
    v
}

/// The byte string "xlink:href".
pub open spec fn n_xlink_href() -> Seq<u8> {
    seq![120u8, 108u8, 105u8, 110u8, 107u8, 58u8, 104u8, 114u8, 101u8, 102u8]
}

pub fn name_xlink_href() -> (r: Vec<u8>)
    ensures
        r@ == n_xlink_href(),
{
    let mut v: Vec<u8> = Vec::new();
    v.push(120u8);
    v.push(108u8);
    v.push(105u8);
    v.push(110u8);
    v.push(107u8);
    v.push(58u8);
    v.push(104u8);
    v.push(114u8);
    v.push(101u8);
    v.push(102u8);
    proof {
        assert(v@ =~= n_xlink_href());
    }
    v
}

/// The byte string "svg".
pub open spec fn n_svg() -> Seq<u8> {
    seq![115u8, 118u8, 103u8]
}

pub fn name_svg() -> (r: Vec<u8>)
    ensures
        r@ == n_svg(),
{
    let mut v: Vec<u8> = Vec::new();
    v.push(115u8);
    v.push(118u8);
    v.push(103u8);
    proof {
        assert(v@ =~= n_svg());
    }
    v
}

/// The byte string "xmlns".
pub open spec fn n_xmlns() -> Seq<u8> {
    seq![120u8, 109u8, 108u8, 110u8, 115u8]
}

pub fn name_xmlns() -> (r: Vec<u8>)
    ensures
        r@ == n_xmlns(),
{
    let mut v: Vec<u8> = Vec::new();
    v.push(120u8);
    v.push(109u8);
    v.push(108u8);
    v.push(110u8);
    v.push(115u8);
    proof {
        assert(v@ =~= n_xmlns());
    }
    v
}

/// The byte string "data:image/svg+xml;base64,".
pub open spec fn n_data_prefix() -> Seq<u8> {
    seq![100u8, 97u8, 116u8, 97u8, 58u8, 105u8, 109u8, 97u8, 103u8, 101u8, 47u8, 115u8, 118u8, 103u8, 43u8, 120u8, 109u8, 108u8, 59u8, 98u8, 97u8, 115u8, 101u8, 54u8, 52u8, 44u8]
}

pub fn name_data_prefix() -> (r: Vec<u8>)
    ensures
        r@ == n_data_prefix(),
{
    let mut v: Vec<u8> = Vec::new();
    v.push(100u8);
    v.push(97u8);
    v.push(116u8);
    v.push(97u8);
    v.push(58u8);
    v.push(105u8);
    v.push(109u8);
    v.push(97u8);
    v.push(103u8);
    v.push(101u8);
    v.push(47u8);
    v.push(115u8);
    v.push(118u8);
    v.push(103u8);
    v.push(43u8);
    v.push(120u8);
    v.push(109u8);
    v.push(108u8);
    v.push(59u8);
    v.push(98u8);
    v.push(97u8);
    v.push(115u8);
    v.push(101u8);
    v.push(54u8);
    v.push(52u8);
    v.push(44u8);
    proof {
        assert(v@ =~= n_data_prefix());
    }
    v
}

// ----------------------------------------------------------------------------
// Attribute lookup
// ----------------------------------------------------------------------------

/// The value of the first attribute with the given name, if any.
pub open spec fn attr_lookup(attrs: Seq<(Seq<u8>, Seq<u8>)>, key: Seq<u8>) -> Option<Seq<u8>>
    decreases attrs.len(),
{
    if attrs.len() == 0 {
        Option::None
    } else if attrs[0].0 == key {
        Option::Some(attrs[0].1)
    } else {
        attr_lookup(attrs.skip(1), key)
    }
}

pub proof fn lemma_attr_at(attrs: Seq<(Seq<u8>, Seq<u8>)>, key: Seq<u8>, i: int)
    requires
        0 <= i < attrs.len(),
        forall|j: int| 0 <= j < i ==> attrs[j].0 != key,
        attrs[i].0 == key,
    ensures
        attr_lookup(attrs, key) == Option::Some(attrs[i].1),
    decreases i,
{
    if i > 0 {
        lemma_attr_at(attrs.skip(1), key, i - 1);
    }
}

pub proof fn lemma_attr_none(attrs: Seq<(Seq<u8>, Seq<u8>)>, key: Seq<u8>)
    requires
        forall|j: int| 0 <= j < attrs.len() ==> attrs[j].0 != key,
    ensures
        attr_lookup(attrs, key) is None,
    decreases attrs.len(),
{
    if attrs.len() > 0 {
        lemma_attr_none(attrs.skip(1), key);
    }
}

/// The value of the first attribute with the given name, if any.
#[verifier::loop_isolation(false)]
pub fn get_attr<'a>(attrs: &'a Vec<(Vec<u8>, Vec<u8>)>, key: &Vec<u8>) -> (r: Option<&'a Vec<u8>>)
    ensures
        match r {
            Option::Some(v) => attr_lookup(attrs_view(*attrs), key@) == Option::Some(v@),
            Option::None => attr_lookup(attrs_view(*attrs), key@) is None,
        },
{
    let n = attrs.len();
    let mut i: usize = 0;
    while i < n
        invariant
            0 <= i <= n,
            n == attrs@.len(),
            forall|j: int| 0 <= j < i ==> attrs_view(*attrs)[j].0 != key@,
        decreases n - i,
    {
        if crate::pdf::bytes_eq(&attrs[i].0, key) {
            proof {
                lemma_attr_at(attrs_view(*attrs), key@, i as int);
            }
            return Option::Some(&attrs[i].1);
        }
        i += 1;
    }
    proof {
        lemma_attr_none(attrs_view(*attrs), key@);
    }
    Option::None
}


// ----------------------------------------------------------------------------
// The outside calls: base64, UTF-8, parsing, emission
// ----------------------------------------------------------------------------

/// What a byte string decodes to under standard base64 with padding, if it
/// decodes: a function of the input alone.
pub uninterp spec fn b64_decoded(s: Seq<u8>) -> Option<Seq<u8>>;

/// Relies on the base64 crate's standard-alphabet engine with padding
/// (`BASE64_STANDARD.decode`): whether and to what the input decodes depends
/// on the input alone.
#[verifier::external_body]
fn decode_base64(s: &[u8]) -> (r: Option<Vec<u8>>)
    ensures
        match r {
            Option::Some(v) => b64_decoded(s@) == Option::Some(v@),
            Option::None => b64_decoded(s@) is None,
        },
{
    match base64::prelude::BASE64_STANDARD.decode(s) {
        Ok(v) => Some(v),
        Err(_) => None,
    }
}

/// Relies on `str::from_utf8`: it succeeds exactly on valid UTF-8.
#[verifier::external_body]
fn check_utf8(b: &[u8]) -> (r: bool)
    ensures
        r == vstd::utf8::valid_utf8(b@),
{
    core::str::from_utf8(b).is_ok()
}

/// The tree a byte buffer parses to, if it is well-formed markup: a function
/// of the bytes alone.
pub uninterp spec fn xml_parsed(b: Seq<u8>) -> Option<ElemV>;

/// Relies on xmltree's `Element::parse` (with attribute order kept): the
/// outcome depends on the bytes alone.
#[verifier::external_body]
pub(crate) fn parse_markup(b: &[u8]) -> (r: Option<Elem>)
    ensures
        match r {
            Option::Some(e) => xml_parsed(b@) == Option::Some(e@),
            Option::None => xml_parsed(b@) is None,
        },
{
    match xmltree::Element::parse(std::io::Cursor::new(b)) {
        Ok(e) => Some(elem_of_xml(e)),
        Err(_) => None,
    }
}

/// Relies on xmltree's element type: converts one element to the model,
/// field by field; attribute order is the document order.
#[verifier::external_body]
fn elem_of_xml(e: xmltree::Element) -> Elem {
    let mut attrs: Vec<(Vec<u8>, Vec<u8>)> = Vec::new();
    for (k, v) in e.attributes {
        attrs.push((k.into_bytes(), v.into_bytes()));
    }
    let mut children: Vec<XmlNode> = Vec::new();
    for c in e.children {
        children.push(node_of_xml(c));
    }
    let name = e.name.into_bytes();
    let prefix = e.prefix.map(String::into_bytes);
    let namespace = e.namespace.map(String::into_bytes);
    Elem { name, prefix, namespace, ns_decls: e.namespaces, attrs, children }
}

/// Relies on xmltree's node type: converts one node, variant by variant.
#[verifier::external_body]
fn node_of_xml(n: xmltree::XMLNode) -> XmlNode {
    match n {
        xmltree::XMLNode::Element(e) => XmlNode::Elem(elem_of_xml(e)),
        xmltree::XMLNode::Text(t) => XmlNode::Text(t.into_bytes()),
        xmltree::XMLNode::Comment(t) => XmlNode::Comment(t.into_bytes()),
        xmltree::XMLNode::CData(t) => XmlNode::CData(t.into_bytes()),
        xmltree::XMLNode::ProcessingInstruction(a, b) => {
            XmlNode::ProcInst(a.into_bytes(), b.map(String::into_bytes))
        },
    }
}

/// The serialized form of a tree, if it can be written: a function of the
/// tree alone.
pub uninterp spec fn xml_emitted(e: ElemV) -> Option<Seq<char>>;

/// Relies on xmltree's `write_with_config` with the default emitter
/// configuration: the output depends on the tree alone; writing fails when
/// a name or text is not valid UTF-8 or the emitter rejects the tree.
#[verifier::external_body]
pub(crate) fn emit_markup(e: &Elem) -> (r: Option<String>)
    ensures
        match r {
            Option::Some(s) => xml_emitted(e@) == Option::Some(s@),
            Option::None => xml_emitted(e@) is None,
        },
{
    let x = xml_of_elem(e)?;
    let mut buf: Vec<u8> = Vec::new();
    match x.write_with_config(&mut buf, xmltree::EmitterConfig::default()) {
        Ok(_) => String::from_utf8(buf).ok(),
        Err(_) => None,
    }
}

/// Relies on xmltree's element type: converts one model element back, field
/// by field; fails on bytes that are not valid UTF-8.
#[verifier::external_body]
fn xml_of_elem(e: &Elem) -> Option<xmltree::Element> {
    let mut x = xmltree::Element::new(&utf8_string(&e.name)?);
    x.prefix = opt_utf8_string(&e.prefix)?;
    x.namespace = opt_utf8_string(&e.namespace)?;
    x.namespaces = e.ns_decls.clone();
    for (k, v) in e.attrs.iter() {
        x.attributes.insert(utf8_string(k)?, utf8_string(v)?);
    }
    for c in e.children.iter() {
        x.children.push(xml_of_node(c)?);
    }
    Some(x)
}

/// Relies on `String::from_utf8`: the bytes as text, if they are valid
/// UTF-8.
#[verifier::external_body]
fn utf8_string(v: &Vec<u8>) -> Option<String> {
    String::from_utf8(v.clone()).ok()
}

/// Converts an optional byte string the same way.
#[verifier::external_body]
fn opt_utf8_string(v: &Option<Vec<u8>>) -> Option<Option<String>> {
    match v {
        Some(b) => Some(Some(utf8_string(b)?)),
        None => Some(None),
    }
}

/// Relies on xmltree's node type: converts one model node back.
#[verifier::external_body]
fn xml_of_node(n: &XmlNode) -> Option<xmltree::XMLNode> {
    Some(match n {
        XmlNode::Elem(e) => xmltree::XMLNode::Element(xml_of_elem(e)?),
        XmlNode::Text(t) => xmltree::XMLNode::Text(utf8_string(t)?),
        XmlNode::Comment(t) => xmltree::XMLNode::Comment(utf8_string(t)?),
        XmlNode::CData(t) => xmltree::XMLNode::CData(utf8_string(t)?),
        XmlNode::ProcInst(a, b) => {
            xmltree::XMLNode::ProcessingInstruction(utf8_string(a)?, opt_utf8_string(b)?)
        },
    })
}

// ----------------------------------------------------------------------------
// Normalization
// ----------------------------------------------------------------------------

/// How deep embedded payloads may nest; deeper nesting is a fatal error.
pub open spec fn max_embed_depth() -> nat {
    64
}

/// An attribute value carrying an embedded base64 vector payload.
pub open spec fn has_data_prefix(v: Seq<u8>) -> bool {
    v.len() >= n_data_prefix().len() && v.take(n_data_prefix().len() as int) == n_data_prefix()
}

/// The base64 payload behind the data-URI prefix.
pub open spec fn payload_of(v: Seq<u8>) -> Seq<u8> {
    v.skip(n_data_prefix().len() as int)
}

/// An image element whose href carries an embedded base64 payload.
pub open spec fn is_b64_image(e: ElemV) -> bool {
    e.name == n_image() && match attr_lookup(e.attrs, n_href()) {
        Option::Some(v) => has_data_prefix(v),
        Option::None => false,
    }
}

/// The outer element's attributes without its href attributes.
pub open spec fn strip_href_attrs(attrs: Seq<(Seq<u8>, Seq<u8>)>) -> Seq<(Seq<u8>, Seq<u8>)>
    decreases attrs.len(),
{
    if attrs.len() == 0 {
        attrs
    } else {
        let rest = strip_href_attrs(attrs.skip(1));
        if attrs[0].0 == n_href() || attrs[0].0 == n_xlink_href() {
            rest
        } else {
            seq![attrs[0]] + rest
        }
    }
}

/// Append the inner root's attributes, excluding the namespace declaration,
/// without overwriting an outer attribute (outer attributes take priority on
/// a name collision).
pub open spec fn add_inner_attrs(
    base: Seq<(Seq<u8>, Seq<u8>)>,
    inner: Seq<(Seq<u8>, Seq<u8>)>,
) -> Seq<(Seq<u8>, Seq<u8>)>
    decreases inner.len(),
{
    if inner.len() == 0 {
        base
    } else {
        let base1 = if inner[0].0 == n_xmlns() || attr_lookup(base, inner[0].0) is Some {
            base
        } else {
            base.push(inner[0])
        };
        add_inner_attrs(base1, inner.skip(1))
    }
}

/// The element that replaces a resolved image reference: a plain `svg`
/// wrapper carrying the outer attributes (minus the href), optionally the
/// inner root's attributes (minus the namespace declaration), and the inner
/// root's children.
pub open spec fn replacement_elem(outer: ElemV, inner: ElemV, inline_attrs: bool) -> ElemV {
    ElemV {
        name: n_svg(),
        prefix: Option::None,
        namespace: Option::None,
        ns_decls: Option::None,
        attrs: if inline_attrs {
            add_inner_attrs(strip_href_attrs(outer.attrs), inner.attrs)
        } else {
            strip_href_attrs(outer.attrs)
        },
        children: inner.children,
    }
}

/// Normalize one element, children first. At an image reference with an
/// embedded payload: an undecodable or non-text payload leaves the element
/// as it stands (the reference is preserved); a payload that decodes but
/// does not parse as markup is a fatal error (`None`); a payload that
/// parses is itself normalized and then replaces the element. `fuel` bounds
/// the embedding depth; exhausting it is fatal.
pub open spec fn norm_elem(e: ElemV, inline_attrs: bool, fuel: nat) -> Option<ElemV>
    decreases fuel, e,
{
    proof {
        assert(decreases_to!(e => e.children));
    }
    match norm_children(e.children, inline_attrs, fuel) {
        Option::None => Option::None,
        Option::Some(cs2) => {
            let e1 = ElemV { children: cs2, ..e };
            if is_b64_image(e) {
                let v = attr_lookup(e.attrs, n_href())->0;
                match b64_decoded(payload_of(v)) {
                    Option::None => Option::Some(e1),
                    Option::Some(bytes) => {
                        if !vstd::utf8::valid_utf8(bytes) {
                            Option::Some(e1)
                        } else {
                            match xml_parsed(bytes) {
                                Option::None => Option::None,
                                Option::Some(inner) => {
                                    if fuel == 0 {
                                        Option::None
                                    } else {
                                        match norm_elem(inner, inline_attrs, (fuel - 1) as nat) {
                                            Option::None => Option::None,
                                            Option::Some(inner2) => Option::Some(
                                                replacement_elem(e1, inner2, inline_attrs),
                                            ),
                                        }
                                    }
                                },
                            }
                        }
                    },
                }
            } else {
                Option::Some(e1)
            }
        },
    }
}

pub open spec fn norm_children(cs: Seq<NodeV>, inline_attrs: bool, fuel: nat) -> Option<
    Seq<NodeV>,
>
    decreases fuel, cs,
{
    if cs.len() == 0 {
        Option::Some(cs)
    } else {
        proof {
            assert(decreases_to!(cs => cs[0]));
            assert(decreases_to!(cs => cs.subrange(1, cs.len() as int)));
        }
        match norm_node(cs[0], inline_attrs, fuel) {
            Option::None => Option::None,
            Option::Some(h) => {
                match norm_children(cs.skip(1), inline_attrs, fuel) {
                    Option::None => Option::None,
                    Option::Some(t) => Option::Some(seq![h] + t),
                }
            },
        }
    }
}

/// Normalize one node: only elements change.
pub open spec fn norm_node(n: NodeV, inline_attrs: bool, fuel: nat) -> Option<NodeV>
    decreases fuel, n,
{
    match n {
        NodeV::Elem(e) => {
            proof {
                assert(decreases_to!(n => n->Elem_0));
            }
            match norm_elem(e, inline_attrs, fuel) {
                Option::None => Option::None,
                Option::Some(e2) => Option::Some(NodeV::Elem(e2)),
            }
        },
        other => Option::Some(other),
    }
}


// ----------------------------------------------------------------------------
// Executable normalization
// ----------------------------------------------------------------------------

fn clone_bytes(v: &Vec<u8>) -> (r: Vec<u8>)
    ensures
        r@ == v@,
{
    let mut out: Vec<u8> = Vec::new();
    let n = v.len();
    let mut i: usize = 0;
    while i < n
        invariant
            0 <= i <= n,
            n == v@.len(),
            out@ =~= v@.take(i as int),
        decreases n - i,
    {
        out.push(v[i]);
        proof {
            assert(out@ =~= v@.take(i as int + 1));
        }
        i += 1;
    }
    proof {
        assert(v@.take(n as int) =~= v@);
    }
    out
}

fn clone_opt_bytes(o: &Option<Vec<u8>>) -> (r: Option<Vec<u8>>)
    ensures
        bytes_opt_view(r) == bytes_opt_view(*o),
{
    match o {
        Option::Some(v) => Option::Some(clone_bytes(v)),
        Option::None => Option::None,
    }
}

#[verifier::loop_isolation(false)]
fn clone_attrs(a: &Vec<(Vec<u8>, Vec<u8>)>) -> (r: Vec<(Vec<u8>, Vec<u8>)>)
    ensures
        attrs_view(r) =~= attrs_view(*a),
{
    let mut out: Vec<(Vec<u8>, Vec<u8>)> = Vec::new();
    let n = a.len();
    let mut i: usize = 0;
    while i < n
        invariant
            0 <= i <= n,
            n == a@.len(),
            out@.len() == i,
            forall|k: int| 0 <= k < i ==> attrs_view(out)[k] == attrs_view(*a)[k],
        decreases n - i,
    {
        out.push((clone_bytes(&a[i].0), clone_bytes(&a[i].1)));
        i += 1;
    }
    out
}

/// Whether `v` starts with `p`.
#[verifier::loop_isolation(false)]
fn bytes_has_prefix(v: &Vec<u8>, p: &Vec<u8>) -> (r: bool)
    ensures
        r == (v@.len() >= p@.len() && v@.take(p@.len() as int) == p@),
{
    if v.len() < p.len() {
        return false;
    }
    let n = p.len();
    let mut i: usize = 0;
    while i < n
        invariant
            0 <= i <= n,
            n == p@.len() <= v@.len(),
            forall|j: int| 0 <= j < i ==> v@[j] == p@[j],
        decreases n - i,
    {
        if v[i] != p[i] {
            proof {
                assert(v@.take(p@.len() as int)[i as int] != p@[i as int]);
            }
            return false;
        }
        i += 1;
    }
    proof {
        assert(v@.take(p@.len() as int) =~= p@);
    }
    true
}

/// The bytes of `v` after the first `k`.
#[verifier::loop_isolation(false)]
fn bytes_after(v: &Vec<u8>, k: usize) -> (r: Vec<u8>)
    requires
        k <= v@.len(),
    ensures
        r@ =~= v@.skip(k as int),
{
    let mut out: Vec<u8> = Vec::new();
    let n = v.len();
    let mut i: usize = k;
    while i < n
        invariant
            k <= i <= n,
            n == v@.len(),
            out@ =~= v@.subrange(k as int, i as int),
        decreases n - i,
    {
        out.push(v[i]);
        proof {
            assert(out@ =~= v@.subrange(k as int, i as int + 1));
        }
        i += 1;
    }
    out
}

/// The outer element's attributes without its href attributes.
#[verifier::loop_isolation(false)]
fn strip_href_attrs_exec(a: &Vec<(Vec<u8>, Vec<u8>)>) -> (r: Vec<(Vec<u8>, Vec<u8>)>)
    ensures
        attrs_view(r) =~= strip_href_attrs(attrs_view(*a)),
{
    let ghost av = attrs_view(*a);
    let href = name_href();
    let xhref = name_xlink_href();
    let mut out: Vec<(Vec<u8>, Vec<u8>)> = Vec::new();
    let n = a.len();
    let mut i: usize = 0;
    proof {
        assert(av.skip(0) =~= av);
        assert(attrs_view(out) + strip_href_attrs(av) =~= strip_href_attrs(av));
    }
    while i < n
        invariant
            0 <= i <= n,
            n == av.len(),
            av == attrs_view(*a),
            href@ == n_href(),
            xhref@ == n_xlink_href(),
            strip_href_attrs(av) =~= attrs_view(out) + strip_href_attrs(av.skip(i as int)),
        decreases n - i,
    {
        proof {
            assert(av.skip(i as int)[0] == av[i as int]);
            assert(av.skip(i as int).skip(1) =~= av.skip(i as int + 1));
        }
        let ghost out0 = attrs_view(out);
        if !crate::pdf::bytes_eq(&a[i].0, &href) && !crate::pdf::bytes_eq(&a[i].0, &xhref) {
            out.push((clone_bytes(&a[i].0), clone_bytes(&a[i].1)));
            proof {
                assert(attrs_view(out) =~= out0.push(av[i as int]));
            }
        }
        i += 1;
    }
    proof {
        assert(av.skip(n as int) =~= Seq::<(Seq<u8>, Seq<u8>)>::empty());
    }
    out
}

/// Append the inner root's attributes as `add_inner_attrs` describes.
#[verifier::loop_isolation(false)]
fn add_inner_attrs_exec(base: Vec<(Vec<u8>, Vec<u8>)>, inner: &Vec<(Vec<u8>, Vec<u8>)>) -> (r: Vec<
    (Vec<u8>, Vec<u8>),
>)
    ensures
        attrs_view(r) == add_inner_attrs(attrs_view(base), attrs_view(*inner)),
{
    let ghost b0 = attrs_view(base);
    let ghost iv = attrs_view(*inner);
    let xmlns = name_xmlns();
    let mut cur = base;
    let n = inner.len();
    let mut i: usize = 0;
    proof {
        assert(iv.skip(0) =~= iv);
    }
    while i < n
        invariant
            0 <= i <= n,
            n == iv.len(),
            iv == attrs_view(*inner),
            xmlns@ == n_xmlns(),
            add_inner_attrs(b0, iv) == add_inner_attrs(attrs_view(cur), iv.skip(i as int)),
        decreases n - i,
    {
        proof {
            assert(iv.skip(i as int)[0] == iv[i as int]);
            assert(iv.skip(i as int).skip(1) =~= iv.skip(i as int + 1));
        }
        let ghost cur0 = attrs_view(cur);
        if !crate::pdf::bytes_eq(&inner[i].0, &xmlns) {
            match get_attr(&cur, &inner[i].0) {
                Option::Some(_) => {},
                Option::None => {
                    cur.push((clone_bytes(&inner[i].0), clone_bytes(&inner[i].1)));
                    proof {
                        assert(attrs_view(cur) =~= cur0.push(iv[i as int]));
                    }
                },
            }
        }
        i += 1;
    }
    proof {
        assert(iv.skip(n as int) =~= Seq::<(Seq<u8>, Seq<u8>)>::empty());
    }
    cur
}

/// Normalize one element, as `norm_elem` describes.
#[verifier::loop_isolation(false)]
pub fn normalize_elem(e: &Elem, inline_attrs: bool, fuel: u64) -> (r: Option<Elem>)
    ensures
        match r {
            Option::Some(e2) => norm_elem(e@, inline_attrs, fuel as nat) == Option::Some(e2@),
            Option::None => norm_elem(e@, inline_attrs, fuel as nat) is None,
        },
    decreases fuel, *e,
{
    broadcast use group_xml_views;

    let ghost csv = view_nodes(e.children@);
    let mut out_children: Vec<XmlNode> = Vec::new();
    let n = e.children.len();
    let mut i: usize = 0;
    proof {
        assert(csv.skip(0) =~= csv);
        assert(view_nodes(out_children@) + csv =~= csv);
    }
    while i < n
        invariant
            0 <= i <= n,
            n == e.children@.len(),
            csv == view_nodes(e.children@),
            norm_children(csv, inline_attrs, fuel as nat) == (match norm_children(
                csv.skip(i as int),
                inline_attrs,
                fuel as nat,
            ) {
                Option::None => Option::<Seq<NodeV>>::None,
                Option::Some(t) => Option::Some(view_nodes(out_children@) + t),
            }),
        decreases n - i,
    {
        proof {
            assert(csv.skip(i as int)[0] == csv[i as int]);
            assert(csv.skip(i as int).skip(1) =~= csv.skip(i as int + 1));
        }
        let ghost oc0 = view_nodes(out_children@);
        match normalize_node(&e.children[i], inline_attrs, fuel) {
            Option::None => {
                return Option::None;
            },
            Option::Some(c2) => {
                out_children.push(c2);
            },
        }
        proof {
            assert(view_nodes(out_children@) =~= oc0.push(
                norm_node(csv[i as int], inline_attrs, fuel as nat)->0,
            ));
            if norm_children(csv.skip(i as int + 1), inline_attrs, fuel as nat) is Some {
                assert(view_nodes(out_children@) + norm_children(
                    csv.skip(i as int + 1),
                    inline_attrs,
                    fuel as nat,
                )->0 =~= oc0 + (seq![
                    norm_node(csv[i as int], inline_attrs, fuel as nat)->0,
                ] + norm_children(csv.skip(i as int + 1), inline_attrs, fuel as nat)->0));
            }
        }
        i += 1;
    }
    proof {
        assert(csv.skip(n as int) =~= Seq::<NodeV>::empty());
        assert(norm_children(csv, inline_attrs, fuel as nat) == Option::Some(
            view_nodes(out_children@),
        )) by {
            assert(view_nodes(out_children@) + Seq::<NodeV>::empty() =~= view_nodes(
                out_children@,
            ));
        }
    }
    let e1 = Elem {
        name: clone_bytes(&e.name),
        prefix: clone_opt_bytes(&e.prefix),
        namespace: clone_opt_bytes(&e.namespace),
        ns_decls: match &e.ns_decls {
            Option::Some(x) => Option::Some(x.clone()),
            Option::None => Option::None,
        },
        attrs: clone_attrs(&e.attrs),
        children: out_children,
    };
    proof {
        assert(e1@ =~= (ElemV { children: view_nodes(e1.children@), ..e@ }));
    }
    let img = name_image();
    if !crate::pdf::bytes_eq(&e.name, &img) {
        proof {
            assert(!is_b64_image(e@));
        }
        return Option::Some(e1);
    }
    let href = name_href();
    let pfx = name_data_prefix();
    match get_attr(&e.attrs, &href) {
        Option::None => {
            proof {
                assert(!is_b64_image(e@));
            }
            Option::Some(e1)
        },
        Option::Some(v) => {
            if !bytes_has_prefix(v, &pfx) {
                proof {
                    assert(!is_b64_image(e@));
                }
                return Option::Some(e1);
            }
            proof {
                assert(is_b64_image(e@));
            }
            let payload = bytes_after(v, pfx.len());
            proof {
                assert(payload@ == payload_of(attr_lookup(e@.attrs, n_href())->0));
            }
            match decode_base64(payload.as_slice()) {
                Option::None => Option::Some(e1),
                Option::Some(bytes) => {
                    if !check_utf8(bytes.as_slice()) {
                        return Option::Some(e1);
                    }
                    match parse_markup(bytes.as_slice()) {
                        Option::None => Option::None,
                        Option::Some(inner) => {
                            if fuel == 0 {
                                return Option::None;
                            }
                            match normalize_elem(&inner, inline_attrs, fuel - 1) {
                                Option::None => Option::None,
                                Option::Some(inner2) => {
                                    let out = build_replacement(e1, inner2, inline_attrs);
                                    Option::Some(out)
                                },
                            }
                        },
                    }
                },
            }
        },
    }
}

/// Build the replacement for a resolved image reference.
fn build_replacement(outer: Elem, inner: Elem, inline_attrs: bool) -> (r: Elem)
    ensures
        r@ == replacement_elem(outer@, inner@, inline_attrs),
{
    let stripped = strip_href_attrs_exec(&outer.attrs);
    let attrs = if inline_attrs {
        add_inner_attrs_exec(stripped, &inner.attrs)
    } else {
        stripped
    };
    let r = Elem {
        name: name_svg(),
        prefix: Option::None,
        namespace: Option::None,
        ns_decls: Option::None,
        attrs,
        children: inner.children,
    };
    proof {
        assert(r@ =~= replacement_elem(outer@, inner@, inline_attrs));
    }
    r
}

/// Normalize one node, as `norm_node` describes.
pub fn normalize_node(n: &XmlNode, inline_attrs: bool, fuel: u64) -> (r: Option<XmlNode>)
    ensures
        match r {
            Option::Some(n2) => norm_node(n@, inline_attrs, fuel as nat) == Option::Some(n2@),
            Option::None => norm_node(n@, inline_attrs, fuel as nat) is None,
        },
    decreases fuel, *n,
{
    match n {
        XmlNode::Elem(e) => {
            match normalize_elem(e, inline_attrs, fuel) {
                Option::None => Option::None,
                Option::Some(e2) => Option::Some(XmlNode::Elem(e2)),
            }
        },
        XmlNode::Text(t) => Option::Some(XmlNode::Text(clone_bytes(t))),
        XmlNode::Comment(t) => Option::Some(XmlNode::Comment(clone_bytes(t))),
        XmlNode::CData(t) => Option::Some(XmlNode::CData(clone_bytes(t))),
        XmlNode::ProcInst(a, b) => Option::Some(
            XmlNode::ProcInst(clone_bytes(a), clone_opt_bytes(b)),
        ),
    }
}

// ----------------------------------------------------------------------------
// The public entry point
// ----------------------------------------------------------------------------

/// Why markup could not be normalized.
#[derive(Clone, Copy, PartialEq, Eq, Structural, Debug)]
pub enum MarkupError {
    /// The input is not well-formed markup, a decoded payload is not
    /// well-formed markup, or embeddings nest deeper than the depth bound.
    Parse,
    /// The normalized tree could not be written back out.
    Emit,
}

/// Normalize markup text: inline every embedded base64 vector payload, as
/// `norm_elem` describes, and write the tree back out. `inline_attrs` says
/// whether the inner root's attributes are carried onto the replacement
/// element.
pub fn normalize_markup(svg_content: &str, inline_attrs: bool) -> (r: Result<String, MarkupError>)
    ensures
        ({
            let parsed = xml_parsed(svg_content.spec_bytes());
            match r {
                Result::Ok(out) => parsed is Some && norm_elem(
                    parsed->0,
                    inline_attrs,
                    max_embed_depth(),
                ) is Some && xml_emitted(
                    norm_elem(parsed->0, inline_attrs, max_embed_depth())->0,
                ) == Option::Some(out@),
                Result::Err(MarkupError::Parse) => parsed is None || norm_elem(
                    parsed->0,
                    inline_attrs,
                    max_embed_depth(),
                ) is None,
                Result::Err(MarkupError::Emit) => parsed is Some && norm_elem(
                    parsed->0,
                    inline_attrs,
                    max_embed_depth(),
                ) is Some && xml_emitted(
                    norm_elem(parsed->0, inline_attrs, max_embed_depth())->0,
                ) is None,
            }
        }),
{
    match parse_markup(svg_content.as_bytes()) {
        Option::None => Result::Err(MarkupError::Parse),
        Option::Some(root) => {
            match normalize_elem(&root, inline_attrs, 64) {
                Option::None => Result::Err(MarkupError::Parse),
                Option::Some(root2) => {
                    match emit_markup(&root2) {
                        Option::Some(out) => Result::Ok(out),
                        Option::None => Result::Err(MarkupError::Emit),
                    }
                },
            }
        },
    }
}

/// Normalize markup text, carrying inner attributes onto replacements.
pub fn expand_base64_svgs(svg_content: &str) -> (r: Result<String, MarkupError>)
    ensures
        ({
            let parsed = xml_parsed(svg_content.spec_bytes());
            match r {
                Result::Ok(out) => parsed is Some && norm_elem(
                    parsed->0,
                    true,
                    max_embed_depth(),
                ) is Some && xml_emitted(norm_elem(parsed->0, true, max_embed_depth())->0)
                    == Option::Some(out@),
                Result::Err(MarkupError::Parse) => parsed is None || norm_elem(
                    parsed->0,
                    true,
                    max_embed_depth(),
                ) is None,
                Result::Err(MarkupError::Emit) => parsed is Some && norm_elem(
                    parsed->0,
                    true,
                    max_embed_depth(),
                ) is Some && xml_emitted(norm_elem(parsed->0, true, max_embed_depth())->0)
                    is None,
            }
        }),
{
    normalize_markup(svg_content, true)
}


// ----------------------------------------------------------------------------
// Laws
// ----------------------------------------------------------------------------

/// Whether any element of the tree is an image reference with an embedded
/// base64 payload.
pub open spec fn tree_has_b64_image(e: ElemV) -> bool
    decreases e,
{
    is_b64_image(e) || exists|i: int|
        0 <= i < e.children.len() && (#[trigger] e.children[i]) is Elem && tree_has_b64_image(
            e.children[i]->Elem_0,
        )
}

/// An image reference whose embedded payload decodes to text.
pub open spec fn is_decodable_b64_image(e: ElemV) -> bool {
    is_b64_image(e) && match b64_decoded(payload_of(attr_lookup(e.attrs, n_href())->0)) {
        Option::Some(bytes) => vstd::utf8::valid_utf8(bytes),
        Option::None => false,
    }
}

/// Whether any element of the tree is an image reference whose embedded
/// payload decodes to text.
pub open spec fn tree_has_decodable_b64_image(e: ElemV) -> bool
    decreases e,
{
    is_decodable_b64_image(e) || exists|i: int|
        0 <= i < e.children.len() && (#[trigger] e.children[i]) is Elem
            && tree_has_decodable_b64_image(e.children[i]->Elem_0)
}

/// On a tree with no embedded base64 image references, normalization is a
/// no-op: the result is the tree itself, structurally identical.
pub proof fn lemma_normalize_no_refs_identity(e: ElemV, inline_attrs: bool, fuel: nat)
    requires
        !tree_has_b64_image(e),
    ensures
        norm_elem(e, inline_attrs, fuel) == Option::Some(e),
    decreases fuel, e,
{
    assert(decreases_to!(e => e.children));
    lemma_norm_children_no_refs(e.children, inline_attrs, fuel);
    assert((ElemV { children: e.children, ..e }) =~= e);
}

pub proof fn lemma_norm_children_no_refs(cs: Seq<NodeV>, inline_attrs: bool, fuel: nat)
    requires
        forall|i: int|
            0 <= i < cs.len() ==> ((#[trigger] cs[i]) is Elem ==> !tree_has_b64_image(
                cs[i]->Elem_0,
            )),
    ensures
        norm_children(cs, inline_attrs, fuel) == Option::Some(cs),
    decreases fuel, cs,
{
    if cs.len() > 0 {
        assert(decreases_to!(cs => cs[0]));
        assert(decreases_to!(cs => cs.subrange(1, cs.len() as int)));
        match cs[0] {
            NodeV::Elem(e) => {
                assert(decreases_to!(cs[0] => cs[0]->Elem_0));
                lemma_normalize_no_refs_identity(e, inline_attrs, fuel);
                assert(norm_node(cs[0], inline_attrs, fuel) == Option::Some(cs[0]));
            },
            _ => {
                assert(norm_node(cs[0], inline_attrs, fuel) == Option::Some(cs[0]));
            },
        }
        assert(forall|i: int| 0 <= i < cs.skip(1).len() ==> cs.skip(1)[i] == cs[i + 1]);
        lemma_norm_children_no_refs(cs.skip(1), inline_attrs, fuel);
        assert(seq![cs[0]] + cs.skip(1) =~= cs);
        assert(norm_children(cs, inline_attrs, fuel) == Option::Some(seq![cs[0]] + cs.skip(1)));
    }
}

/// After a successful normalization, no image element with a decodable
/// embedded payload remains anywhere in the tree: every payload that can be
/// resolved has been, at every nesting depth. (References whose payload does
/// not decode, or does not decode to text, are preserved by design.)
pub proof fn lemma_normalized_no_decodable(e: ElemV, inline_attrs: bool, fuel: nat, e2: ElemV)
    requires
        norm_elem(e, inline_attrs, fuel) == Option::Some(e2),
    ensures
        !tree_has_decodable_b64_image(e2),
    decreases fuel, e,
{
    assert(decreases_to!(e => e.children));
    let cs2 = norm_children(e.children, inline_attrs, fuel)->0;
    lemma_norm_children_no_decodable(e.children, inline_attrs, fuel, cs2);
    let e1 = ElemV { children: cs2, ..e };
    if is_b64_image(e) {
        let v = attr_lookup(e.attrs, n_href())->0;
        match b64_decoded(payload_of(v)) {
            Option::None => {
                assert(e2 == e1);
                assert(!is_decodable_b64_image(e2));
            },
            Option::Some(bytes) => {
                if !vstd::utf8::valid_utf8(bytes) {
                    assert(e2 == e1);
                    assert(!is_decodable_b64_image(e2));
                } else {
                    let inner = xml_parsed(bytes)->0;
                    let inner2 = norm_elem(inner, inline_attrs, (fuel - 1) as nat)->0;
                    lemma_normalized_no_decodable(inner, inline_attrs, (fuel - 1) as nat, inner2);
                    assert(e2 == replacement_elem(e1, inner2, inline_attrs));
                    assert(e2.name == n_svg());
                    assert(n_svg().len() != n_image().len());
                    assert(!is_b64_image(e2));
                    assert(e2.children == inner2.children);
                    assert(!tree_has_decodable_b64_image(e2));
                }
            },
        }
    } else {
        assert(e2 == e1);
        assert(is_b64_image(e1) == is_b64_image(e));
        assert(!is_decodable_b64_image(e2));
    }
}

pub proof fn lemma_norm_children_no_decodable(
    cs: Seq<NodeV>,
    inline_attrs: bool,
    fuel: nat,
    cs2: Seq<NodeV>,
)
    requires
        norm_children(cs, inline_attrs, fuel) == Option::Some(cs2),
    ensures
        forall|i: int|
            0 <= i < cs2.len() ==> ((#[trigger] cs2[i]) is Elem ==> !tree_has_decodable_b64_image(
                cs2[i]->Elem_0,
            )),
    decreases fuel, cs,
{
    if cs.len() > 0 {
        assert(decreases_to!(cs => cs[0]));
        assert(decreases_to!(cs => cs.subrange(1, cs.len() as int)));
        let h = norm_node(cs[0], inline_attrs, fuel)->0;
        let t = norm_children(cs.skip(1), inline_attrs, fuel)->0;
        assert(cs2 == seq![h] + t);
        match cs[0] {
            NodeV::Elem(e) => {
                assert(decreases_to!(cs[0] => cs[0]->Elem_0));
                let e2 = norm_elem(e, inline_attrs, fuel)->0;
                lemma_normalized_no_decodable(e, inline_attrs, fuel, e2);
                assert(h == NodeV::Elem(e2));
            },
            _ => {
                assert(h == cs[0]);
                assert(!(h is Elem));
            },
        }
        lemma_norm_children_no_decodable(cs.skip(1), inline_attrs, fuel, t);
        assert(forall|i: int| 1 <= i < cs2.len() ==> cs2[i] == t[i - 1]);
    }
}


/// Stripping the href attributes removes them: the replacement element
/// never keeps the outer element's reference.
pub proof fn lemma_strip_href(attrs: Seq<(Seq<u8>, Seq<u8>)>)
    ensures
        attr_lookup(strip_href_attrs(attrs), n_href()) is None,
        attr_lookup(strip_href_attrs(attrs), n_xlink_href()) is None,
    decreases attrs.len(),
{
    if attrs.len() > 0 {
        lemma_strip_href(attrs.skip(1));
        let rest = strip_href_attrs(attrs.skip(1));
        if !(attrs[0].0 == n_href() || attrs[0].0 == n_xlink_href()) {
            assert((seq![attrs[0]] + rest)[0] == attrs[0]);
            assert((seq![attrs[0]] + rest).skip(1) =~= rest);
        }
    }
}

} // verus!
