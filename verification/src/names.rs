//! The dictionary keys and name values that the merge engine reads and
//! writes, as byte strings: a spec constant and a matching builder for each.

use vstd::prelude::*;

verus! {

/// The name "Type" as bytes.
pub open spec fn k_type() -> Seq<u8> {
    seq![84u8, 121u8, 112u8, 101u8]
}

pub fn key_type() -> (r: Vec<u8>)
    ensures
        r@ == k_type(),
{
    let mut v: Vec<u8> = Vec::new();
    v.push(84u8);
    v.push(121u8);
    v.push(112u8);
    v.push(101u8);
    proof {
        assert(v@ =~= k_type());
    }
    v
}

/// The name "Catalog" as bytes.
pub open spec fn k_catalog() -> Seq<u8> {
    seq![67u8, 97u8, 116u8, 97u8, 108u8, 111u8, 103u8]
}

pub fn key_catalog() -> (r: Vec<u8>)
    ensures
        r@ == k_catalog(),
{
    let mut v: Vec<u8> = Vec::new();
    v.push(67u8);
    v.push(97u8);
    v.push(116u8);
    v.push(97u8);
    v.push(108u8);
    v.push(111u8);
    v.push(103u8);
    proof {
        assert(v@ =~= k_catalog());
    }
    v
}

/// The name "Pages" as bytes.
pub open spec fn k_pages() -> Seq<u8> {
    seq![80u8, 97u8, 103u8, 101u8, 115u8]
}

pub fn key_pages() -> (r: Vec<u8>)
    ensures
        r@ == k_pages(),
{
    let mut v: Vec<u8> = Vec::new();
    v.push(80u8);
    v.push(97u8);
    v.push(103u8);
    v.push(101u8);
    v.push(115u8);
    proof {
        assert(v@ =~= k_pages());
    }
    v
}

/// The name "Page" as bytes.
pub open spec fn k_page() -> Seq<u8> {
    seq![80u8, 97u8, 103u8, 101u8]
}

pub fn key_page() -> (r: Vec<u8>)
    ensures
        r@ == k_page(),
{
    let mut v: Vec<u8> = Vec::new();
    v.push(80u8);
    v.push(97u8);
    v.push(103u8);
    v.push(101u8);
    proof {
        assert(v@ =~= k_page());
    }
    v
}

/// The name "Outlines" as bytes.
pub open spec fn k_outlines() -> Seq<u8> {
    seq![79u8, 117u8, 116u8, 108u8, 105u8, 110u8, 101u8, 115u8]
}

pub fn key_outlines() -> (r: Vec<u8>)
    ensures
        r@ == k_outlines(),
{
    let mut v: Vec<u8> = Vec::new();
    v.push(79u8);
    v.push(117u8);
    v.push(116u8);
    v.push(108u8);
    v.push(105u8);
    v.push(110u8);
    v.push(101u8);
    v.push(115u8);
    proof {
        assert(v@ =~= k_outlines());
    }
    v
}

/// The name "Outline" as bytes.
pub open spec fn k_outline() -> Seq<u8> {
    seq![79u8, 117u8, 116u8, 108u8, 105u8, 110u8, 101u8]
}

pub fn key_outline() -> (r: Vec<u8>)
    ensures
        r@ == k_outline(),
{
    let mut v: Vec<u8> = Vec::new();
    v.push(79u8);
    v.push(117u8);
    v.push(116u8);
    v.push(108u8);
    v.push(105u8);
    v.push(110u8);
    v.push(101u8);
    proof {
        assert(v@ =~= k_outline());
    }
    v
}

/// The name "Count" as bytes.
pub open spec fn k_count() -> Seq<u8> {
    seq![67u8, 111u8, 117u8, 110u8, 116u8]
}

pub fn key_count() -> (r: Vec<u8>)
    ensures
        r@ == k_count(),
{
    let mut v: Vec<u8> = Vec::new();
    v.push(67u8);
    v.push(111u8);
    v.push(117u8);
    v.push(110u8);
    v.push(116u8);
    proof {
        assert(v@ =~= k_count());
    }
    v
}

/// The name "Kids" as bytes.
pub open spec fn k_kids() -> Seq<u8> {
    seq![75u8, 105u8, 100u8, 115u8]
}

pub fn key_kids() -> (r: Vec<u8>)
    ensures
        r@ == k_kids(),
{
    let mut v: Vec<u8> = Vec::new();
    v.push(75u8);
    v.push(105u8);
    v.push(100u8);
    v.push(115u8);
    proof {
        assert(v@ =~= k_kids());
    }
    v
}

/// The name "Parent" as bytes.
pub open spec fn k_parent() -> Seq<u8> {
    seq![80u8, 97u8, 114u8, 101u8, 110u8, 116u8]
}

pub fn key_parent() -> (r: Vec<u8>)
    ensures
        r@ == k_parent(),
{
    let mut v: Vec<u8> = Vec::new();
    v.push(80u8);
    v.push(97u8);
    v.push(114u8);
    v.push(101u8);
    v.push(110u8);
    v.push(116u8);
    proof {
        assert(v@ =~= k_parent());
    }
    v
}

/// The name "Root" as bytes.
pub open spec fn k_root() -> Seq<u8> {
    seq![82u8, 111u8, 111u8, 116u8]
}

pub fn key_root() -> (r: Vec<u8>)
    ensures
        r@ == k_root(),
{
    let mut v: Vec<u8> = Vec::new();
    v.push(82u8);
    v.push(111u8);
    v.push(111u8);
    v.push(116u8);
    proof {
        assert(v@ =~= k_root());
    }
    v
}

/// The name "Title" as bytes.
pub open spec fn k_title() -> Seq<u8> {
    seq![84u8, 105u8, 116u8, 108u8, 101u8]
}

pub fn key_title() -> (r: Vec<u8>)
    ensures
        r@ == k_title(),
{
    let mut v: Vec<u8> = Vec::new();
    v.push(84u8);
    v.push(105u8);
    v.push(116u8);
    v.push(108u8);
    v.push(101u8);
    proof {
        assert(v@ =~= k_title());
    }
    v
}

/// The name "Dest" as bytes.
pub open spec fn k_dest() -> Seq<u8> {
    seq![68u8, 101u8, 115u8, 116u8]
}

pub fn key_dest() -> (r: Vec<u8>)
    ensures
        r@ == k_dest(),
{
    let mut v: Vec<u8> = Vec::new();
    v.push(68u8);
    v.push(101u8);
    v.push(115u8);
    v.push(116u8);
    proof {
        assert(v@ =~= k_dest());
    }
    v
}

/// The name "First" as bytes.
pub open spec fn k_first() -> Seq<u8> {
    seq![70u8, 105u8, 114u8, 115u8, 116u8]
}

pub fn key_first() -> (r: Vec<u8>)
    ensures
        r@ == k_first(),
{
    let mut v: Vec<u8> = Vec::new();
    v.push(70u8);
    v.push(105u8);
    v.push(114u8);
    v.push(115u8);
    v.push(116u8);
    proof {
        assert(v@ =~= k_first());
    }
    v
}

/// The name "Last" as bytes.
pub open spec fn k_last() -> Seq<u8> {
    seq![76u8, 97u8, 115u8, 116u8]
}

pub fn key_last() -> (r: Vec<u8>)
    ensures
        r@ == k_last(),
{
    let mut v: Vec<u8> = Vec::new();
    v.push(76u8);
    v.push(97u8);
    v.push(115u8);
    v.push(116u8);
    proof {
        assert(v@ =~= k_last());
    }
    v
}

/// The name "Next" as bytes.
pub open spec fn k_next() -> Seq<u8> {
    seq![78u8, 101u8, 120u8, 116u8]
}

pub fn key_next() -> (r: Vec<u8>)
    ensures
        r@ == k_next(),
{
    let mut v: Vec<u8> = Vec::new();
    v.push(78u8);
    v.push(101u8);
    v.push(120u8);
    v.push(116u8);
    proof {
        assert(v@ =~= k_next());
    }
    v
}

/// The name "Prev" as bytes.
pub open spec fn k_prev() -> Seq<u8> {
    seq![80u8, 114u8, 101u8, 118u8]
}

pub fn key_prev() -> (r: Vec<u8>)
    ensures
        r@ == k_prev(),
{
    let mut v: Vec<u8> = Vec::new();
    v.push(80u8);
    v.push(114u8);
    v.push(101u8);
    v.push(118u8);
    proof {
        assert(v@ =~= k_prev());
    }
    v
}

/// The name "C" as bytes.
pub open spec fn k_color() -> Seq<u8> {
    seq![67u8]
}

pub fn key_color() -> (r: Vec<u8>)
    ensures
        r@ == k_color(),
{
    let mut v: Vec<u8> = Vec::new();
    v.push(67u8);
    proof {
        assert(v@ =~= k_color());
    }
    v
}

/// The name "F" as bytes.
pub open spec fn k_flags() -> Seq<u8> {
    seq![70u8]
}

pub fn key_flags() -> (r: Vec<u8>)
    ensures
        r@ == k_flags(),
{
    let mut v: Vec<u8> = Vec::new();
    v.push(70u8);
    proof {
        assert(v@ =~= k_flags());
    }
    v
}

/// The name "Fit" as bytes.
pub open spec fn k_fit() -> Seq<u8> {
    seq![70u8, 105u8, 116u8]
}

pub fn key_fit() -> (r: Vec<u8>)
    ensures
        r@ == k_fit(),
{
    let mut v: Vec<u8> = Vec::new();
    v.push(70u8);
    v.push(105u8);
    v.push(116u8);
    proof {
        assert(v@ =~= k_fit());
    }
    v
}

/// The name "Page_" as bytes.
pub open spec fn k_page_prefix() -> Seq<u8> {
    seq![80u8, 97u8, 103u8, 101u8, 95u8]
}

pub fn key_page_prefix() -> (r: Vec<u8>)
    ensures
        r@ == k_page_prefix(),
{
    let mut v: Vec<u8> = Vec::new();
    v.push(80u8);
    v.push(97u8);
    v.push(103u8);
    v.push(101u8);
    v.push(95u8);
    proof {
        assert(v@ =~= k_page_prefix());
    }
    v
}

} // verus!
