//! Deterministic ordering of rendered pages: the collector sorts the
//! (source path, page bytes) results by path, byte-lexicographically, so the
//! merged page order does not depend on discovery order.

use vstd::multiset::Multiset;
use vstd::prelude::*;

verus! {

/// Byte-lexicographic order: `a` comes no later than `b`.
pub open spec fn lex_le(a: Seq<u8>, b: Seq<u8>) -> bool
    decreases a.len(),
{
    if a.len() == 0 {
        true
    } else if b.len() == 0 {
        false
    } else if a[0] < b[0] {
        true
    } else if a[0] > b[0] {
        false
    } else {
        lex_le(a.skip(1), b.skip(1))
    }
}

/// Lexicographic order is total.
pub proof fn lemma_lex_total(a: Seq<u8>, b: Seq<u8>)
    ensures
        lex_le(a, b) || lex_le(b, a),
    decreases a.len(),
{
    if a.len() > 0 && b.len() > 0 && a[0] == b[0] {
        lemma_lex_total(a.skip(1), b.skip(1));
    }
}

/// The view of a (path, data) pair list.
pub open spec fn page_views(s: Seq<(Vec<u8>, Vec<u8>)>) -> Seq<(Seq<u8>, Seq<u8>)> {
    Seq::new(s.len(), |i: int| (s[i].0@, s[i].1@))
}

/// Sorted by path: each entry's path comes no later than the next one's.
pub open spec fn pages_sorted(s: Seq<(Seq<u8>, Seq<u8>)>) -> bool {
    forall|i: int| 0 <= i < s.len() - 1 ==> lex_le(#[trigger] s[i].0, s[i + 1].0)
}

/// Insert a page into a sorted list: before the first entry whose path
/// comes strictly later (so an equal path keeps earlier entries first).
pub open spec fn spec_insert_page(s: Seq<(Seq<u8>, Seq<u8>)>, x: (Seq<u8>, Seq<u8>)) -> Seq<
    (Seq<u8>, Seq<u8>),
>
    decreases s.len(),
{
    if s.len() == 0 {
        seq![x]
    } else if !lex_le(s[0].0, x.0) {
        seq![x] + s
    } else {
        seq![s[0]] + spec_insert_page(s.skip(1), x)
    }
}

/// Sort pages by path: insert each entry, in order, into the sorted prefix.
pub open spec fn spec_sort_pages(s: Seq<(Seq<u8>, Seq<u8>)>) -> Seq<(Seq<u8>, Seq<u8>)>
    decreases s.len(),
{
    if s.len() == 0 {
        s
    } else {
        spec_insert_page(spec_sort_pages(s.drop_last()), s.last())
    }
}


proof fn lemma_empty_multiset()
    ensures
        Seq::<(Seq<u8>, Seq<u8>)>::empty().to_multiset() =~= Multiset::<(Seq<u8>, Seq<u8>)>::empty(),
{
    broadcast use vstd::seq_lib::group_to_multiset_ensures;
    broadcast use vstd::multiset::group_multiset_axioms;

    assert forall|a: (Seq<u8>, Seq<u8>)|
        Seq::<(Seq<u8>, Seq<u8>)>::empty().to_multiset().count(a) == Multiset::<
            (Seq<u8>, Seq<u8>),
        >::empty().count(a) by {
        assert(!Seq::<(Seq<u8>, Seq<u8>)>::empty().contains(a));
    }
}

proof fn lemma_singleton_multiset(x: (Seq<u8>, Seq<u8>))
    ensures
        seq![x].to_multiset() =~= Multiset::<(Seq<u8>, Seq<u8>)>::empty().insert(x),
{
    broadcast use vstd::seq_lib::group_to_multiset_ensures;
    broadcast use vstd::multiset::group_multiset_axioms;

    lemma_empty_multiset();
    assert(seq![x] =~= Seq::<(Seq<u8>, Seq<u8>)>::empty().push(x));
}

pub proof fn lemma_insert_page_sorted(s: Seq<(Seq<u8>, Seq<u8>)>, x: (Seq<u8>, Seq<u8>))
    requires
        pages_sorted(s),
    ensures
        pages_sorted(spec_insert_page(s, x)),
        spec_insert_page(s, x).to_multiset() =~= s.to_multiset().insert(x),
        spec_insert_page(s, x).len() == s.len() + 1,
    decreases s.len(),
{
    broadcast use vstd::seq_lib::group_to_multiset_ensures;

    broadcast use vstd::multiset::group_multiset_axioms;

    let r = spec_insert_page(s, x);
    if s.len() == 0 {
        assert(r =~= seq![x]);
        assert(s =~= Seq::<(Seq<u8>, Seq<u8>)>::empty());
        lemma_empty_multiset();
        lemma_singleton_multiset(x);
        assert(r.to_multiset() =~= s.to_multiset().insert(x));
    } else if !lex_le(s[0].0, x.0) {
        lemma_lex_total(s[0].0, x.0);
        assert(r == seq![x] + s);
        vstd::seq_lib::lemma_multiset_commutative(seq![x], s);
        lemma_singleton_multiset(x);
        assert(r.to_multiset() =~= s.to_multiset().insert(x));
        assert forall|i: int| 0 <= i < r.len() - 1 implies lex_le(#[trigger] r[i].0, r[i + 1].0) by {
            if i > 0 {
                assert(r[i] == s[i - 1] && r[i + 1] == s[i]);
            }
        }
    } else {
        assert(pages_sorted(s.skip(1))) by {
            assert(forall|i: int| 0 <= i < s.skip(1).len() ==> s.skip(1)[i] == s[i + 1]);
        }
        lemma_insert_page_sorted(s.skip(1), x);
        let rr = spec_insert_page(s.skip(1), x);
        assert(r == seq![s[0]] + rr);
        vstd::seq_lib::lemma_multiset_commutative(seq![s[0]], rr);
        assert(s =~= seq![s[0]] + s.skip(1));
        vstd::seq_lib::lemma_multiset_commutative(seq![s[0]], s.skip(1));
        lemma_singleton_multiset(s[0]);
        assert(r.to_multiset() =~= s.to_multiset().insert(x));
        assert forall|i: int| 0 <= i < r.len() - 1 implies lex_le(#[trigger] r[i].0, r[i + 1].0) by {
            if i == 0 {
                if rr.len() > 0 {
                    if s.skip(1).len() == 0 {
                        assert(rr == seq![x]);
                        assert(r[1] == x);
                    } else if !lex_le(s.skip(1)[0].0, x.0) {
                        assert(rr[0] == x);
                    } else {
                        assert(rr[0] == s.skip(1)[0]);
                        assert(lex_le(s[0].0, s[1].0));
                    }
                }
            } else {
                assert(r[i] == rr[i - 1] && r[i + 1] == rr[i]);
            }
        }
    }
}

pub proof fn lemma_sort_pages(s: Seq<(Seq<u8>, Seq<u8>)>)
    ensures
        pages_sorted(spec_sort_pages(s)),
        spec_sort_pages(s).to_multiset() =~= s.to_multiset(),
        spec_sort_pages(s).len() == s.len(),
    decreases s.len(),
{
    broadcast use vstd::seq_lib::group_to_multiset_ensures;

    if s.len() > 0 {
        lemma_sort_pages(s.drop_last());
        lemma_insert_page_sorted(spec_sort_pages(s.drop_last()), s.last());
        assert(s =~= s.drop_last().push(s.last()));
        assert(s.drop_last().push(s.last()).to_multiset() =~= s.drop_last().to_multiset().insert(
            s.last(),
        ));
    }
}

fn copy_bytes(v: &Vec<u8>) -> (r: Vec<u8>)
    ensures
        r@ == v@,
{
    let mut out: Vec<u8> = Vec::new();
    let n = v.len();
    let mut i: usize = 0;
    while i < n
        invariant
            0 <= i <= n,
            n == v@.len(),
            out@ =~= v@.take(i as int),
        decreases n - i,
    {
        out.push(v[i]);
        proof {
            assert(out@ =~= v@.take(i as int + 1));
        }
        i += 1;
    }
    proof {
        assert(v@.take(n as int) =~= v@);
    }
    out
}

/// Whether `a` comes no later than `b`, byte-lexicographically.
#[verifier::loop_isolation(false)]
pub fn lex_le_exec(a: &Vec<u8>, b: &Vec<u8>) -> (r: bool)
    ensures
        r == lex_le(a@, b@),
{
    let na = a.len();
    let nb = b.len();
    let mut i: usize = 0;
    proof {
        assert(a@.skip(0) =~= a@);
        assert(b@.skip(0) =~= b@);
    }
    while i < na && i < nb
        invariant
            0 <= i <= na,
            0 <= i <= nb,
            na == a@.len(),
            nb == b@.len(),
            lex_le(a@, b@) == lex_le(a@.skip(i as int), b@.skip(i as int)),
        decreases na - i,
    {
        proof {
            assert(a@.skip(i as int)[0] == a@[i as int]);
            assert(b@.skip(i as int)[0] == b@[i as int]);
            assert(a@.skip(i as int).skip(1) =~= a@.skip(i as int + 1));
            assert(b@.skip(i as int).skip(1) =~= b@.skip(i as int + 1));
        }
        if a[i] < b[i] {
            return true;
        }
        if a[i] > b[i] {
            return false;
        }
        i += 1;
    }
    proof {
        if i >= na {
            assert(a@.skip(i as int).len() == 0);
        } else {
            assert(b@.skip(i as int).len() == 0);
            assert(a@.skip(i as int).len() > 0);
        }
    }
    i >= na
}

/// Sort rendered pages by source path, byte-lexicographically: the result
/// is sorted and holds exactly the given pages.
#[verifier::loop_isolation(false)]
pub fn sort_rendered_pages(pages: &Vec<(Vec<u8>, Vec<u8>)>) -> (r: Vec<(Vec<u8>, Vec<u8>)>)
    ensures
        page_views(r@) == spec_sort_pages(page_views(pages@)),
        pages_sorted(page_views(r@)),
        page_views(r@).to_multiset() =~= page_views(pages@).to_multiset(),
        r@.len() == pages@.len(),
{
    let ghost pv = page_views(pages@);
    let n = pages.len();
    let mut out: Vec<(Vec<u8>, Vec<u8>)> = Vec::new();
    let mut i: usize = 0;
    proof {
        assert(pv.take(0) =~= Seq::<(Seq<u8>, Seq<u8>)>::empty());
        assert(page_views(out@) =~= spec_sort_pages(pv.take(0)));
    }
    while i < n
        invariant
            0 <= i <= n,
            n == pages@.len(),
            pv == page_views(pages@),
            page_views(out@) == spec_sort_pages(pv.take(i as int)),
        decreases n - i,
    {
        let x = (copy_bytes(&pages[i].0), copy_bytes(&pages[i].1));
        proof {
            assert((x.0@, x.1@) == pv[i as int]);
        }
        insert_page(&mut out, x);
        proof {
            assert(pv.take(i as int + 1).drop_last() =~= pv.take(i as int));
            assert(pv.take(i as int + 1).last() == pv[i as int]);
        }
        i += 1;
    }
    proof {
        assert(pv.take(n as int) =~= pv);
        lemma_sort_pages(pv);
    }
    out
}

/// Insert one page into a sorted list, keeping it sorted.
#[verifier::loop_isolation(false)]
fn insert_page(v: &mut Vec<(Vec<u8>, Vec<u8>)>, x: (Vec<u8>, Vec<u8>))
    ensures
        page_views(final(v)@) =~= spec_insert_page(page_views(old(v)@), (x.0@, x.1@)),
{
    let ghost v0 = page_views(v@);
    let ghost xv = (x.0@, x.1@);
    let n = v.len();
    let mut i: usize = 0;
    while i < n
        invariant
            0 <= i <= n,
            n == v@.len(),
            page_views(v@) == v0,
            forall|j: int| 0 <= j < i ==> lex_le((#[trigger] v0[j]).0, xv.0),
        decreases n - i,
    {
        if !lex_le_exec(&v[i].0, &x.0) {
            proof {
                lemma_insert_page_at(v0, xv, i as int);
            }
            v.insert(i, x);
            proof {
                assert(page_views(v@) =~= v0.take(i as int) + seq![xv] + v0.skip(i as int));
            }
            return ;
        }
        i += 1;
    }
    proof {
        lemma_insert_page_at(v0, xv, n as int);
    }
    v.push(x);
    proof {
        assert(page_views(v@) =~= v0.take(n as int) + seq![xv] + v0.skip(n as int));
    }
}

pub proof fn lemma_insert_page_at(s: Seq<(Seq<u8>, Seq<u8>)>, x: (Seq<u8>, Seq<u8>), i: int)
    requires
        0 <= i <= s.len(),
        forall|j: int| 0 <= j < i ==> lex_le((#[trigger] s[j]).0, x.0),
        i < s.len() ==> !lex_le(s[i].0, x.0),
    ensures
        spec_insert_page(s, x) =~= s.take(i) + seq![x] + s.skip(i),
    decreases i,
{
    if i == 0 {
        if s.len() == 0 {
            assert(spec_insert_page(s, x) =~= seq![x]);
        }
        assert(s.take(0) =~= Seq::<(Seq<u8>, Seq<u8>)>::empty());
        assert(s.skip(0) =~= s);
    } else {
        assert(forall|j: int| 0 <= j < s.skip(1).len() ==> s.skip(1)[j] == s[j + 1]);
        lemma_insert_page_at(s.skip(1), x, i - 1);
        assert(spec_insert_page(s, x) == seq![s[0]] + spec_insert_page(s.skip(1), x));
        assert(s.skip(1).take(i - 1) =~= s.take(i).skip(1));
        assert(s.skip(1).skip(i - 1) =~= s.skip(i));
    }
}

} // verus!
