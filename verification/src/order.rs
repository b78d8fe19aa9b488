//! The canonical order of byte strings, and sorting by it.

use vstd::prelude::*;
use vstd::relations::{sorted_by, total_ordering};
use vstd::seq_lib::{lemma_multiset_commutative, lemma_sorted_unique, to_multiset_build};
use vstd::slice::slice_to_vec;

verus! {

/// Lexicographic order on byte strings, compared from position `i` onward.
pub open spec fn lex_le_from(a: Seq<u8>, b: Seq<u8>, i: int) -> bool
    decreases a.len() - i,
{
    if i < 0 || i >= a.len() {
        true
    } else if i >= b.len() {
        false
    } else if a[i] != b[i] {
        a[i] < b[i]
    } else {
        lex_le_from(a, b, i + 1)
    }
}

/// Lexicographic order on byte strings: a proper prefix comes first, and
/// otherwise the first differing byte decides.
pub open spec fn lex_le(a: Seq<u8>, b: Seq<u8>) -> bool {
    lex_le_from(a, b, 0)
}

/// The order by which every sorted encoding is sorted.
pub open spec fn byte_order() -> spec_fn(Seq<u8>, Seq<u8>) -> bool {
    |a: Seq<u8>, b: Seq<u8>| lex_le(a, b)
}

/// The one ascending arrangement of a collection of byte strings.
pub open spec fn canonical(items: Seq<Seq<u8>>) -> Seq<Seq<u8>> {
    items.sort_by(byte_order())
}

/// The members of a collection in ascending order, one after another with
/// nothing between them.
pub open spec fn sorted_concat(items: Seq<Seq<u8>>) -> Seq<u8> {
    canonical(items).flatten()
}

/// The byte strings held by a vector of byte vectors.
pub open spec fn byte_strings(v: Seq<Vec<u8>>) -> Seq<Seq<u8>> {
    Seq::new(v.len(), |i: int| v[i]@)
}

proof fn lemma_lex_refl(a: Seq<u8>, i: int)
    ensures
        lex_le_from(a, a, i),
    decreases a.len() - i,
{
    if 0 <= i < a.len() {
        lemma_lex_refl(a, i + 1);
    }
}

proof fn lemma_lex_connected(a: Seq<u8>, b: Seq<u8>, i: int)
    ensures
        lex_le_from(a, b, i) || lex_le_from(b, a, i),
    decreases a.len() - i,
{
    if 0 <= i < a.len() && i < b.len() && a[i] == b[i] {
        lemma_lex_connected(a, b, i + 1);
    }
}

proof fn lemma_lex_antisym(a: Seq<u8>, b: Seq<u8>, i: int)
    requires
        0 <= i <= a.len(),
        i <= b.len(),
        lex_le_from(a, b, i),
        lex_le_from(b, a, i),
    ensures
        a.len() == b.len(),
        forall|j: int| i <= j < a.len() ==> a[j] == b[j],
    decreases a.len() - i,
{
    if i < a.len() {
        lemma_lex_antisym(a, b, i + 1);
    }
}

proof fn lemma_lex_trans(a: Seq<u8>, b: Seq<u8>, c: Seq<u8>, i: int)
    requires
        lex_le_from(a, b, i),
        lex_le_from(b, c, i),
    ensures
        lex_le_from(a, c, i),
    decreases a.len() - i,
{
    if 0 <= i < a.len() && a[i] == b[i] && b[i] == c[i] {
        lemma_lex_trans(a, b, c, i + 1);
    }
}

/// The lexicographic order is a total order, so a collection has exactly one
/// ascending arrangement.
pub proof fn lemma_byte_order_total()
    ensures
        total_ordering(byte_order()),
{
    let r = byte_order();
    assert forall|x: Seq<u8>| #[trigger] r(x, x) by {
        lemma_lex_refl(x, 0);
    }
    assert forall|x: Seq<u8>, y: Seq<u8>| #[trigger] r(x, y) && #[trigger] r(y, x) implies x
        == y by {
        lemma_lex_antisym(x, y, 0);
        assert(x =~= y);
    }
    assert forall|x: Seq<u8>, y: Seq<u8>, z: Seq<u8>| #[trigger] r(x, y) && #[trigger] r(
        y,
        z,
    ) implies r(x, z) by {
        lemma_lex_trans(x, y, z, 0);
    }
    assert forall|x: Seq<u8>, y: Seq<u8>| #[trigger] r(x, y) || #[trigger] r(y, x) by {
        lemma_lex_connected(x, y, 0);
    }
}

/// Two collections with the same members have the same ascending arrangement,
/// in whatever order the members were given.
pub proof fn lemma_canonical_ignores_order(a: Seq<Seq<u8>>, b: Seq<Seq<u8>>)
    requires
        a.to_multiset() == b.to_multiset(),
    ensures
        canonical(a) == canonical(b),
{
    lemma_byte_order_total();
    a.lemma_sort_by_ensures(byte_order());
    b.lemma_sort_by_ensures(byte_order());
    lemma_sorted_unique(canonical(a), canonical(b), byte_order());
}

/// An ascending arrangement of the members of `items` is the canonical one.
pub proof fn lemma_canonical_unique(items: Seq<Seq<u8>>, arranged: Seq<Seq<u8>>)
    requires
        sorted_by(arranged, byte_order()),
        arranged.to_multiset() == items.to_multiset(),
    ensures
        arranged == canonical(items),
{
    lemma_byte_order_total();
    items.lemma_sort_by_ensures(byte_order());
    lemma_sorted_unique(arranged, canonical(items), byte_order());
}

/// Strings of one width, put one after another, take that width each.
pub proof fn lemma_uniform_flatten_len(items: Seq<Seq<u8>>, width: nat)
    requires
        forall|i: int| 0 <= i < items.len() ==> (#[trigger] items[i]).len() == width,
    ensures
        items.flatten().len() == width * items.len(),
    decreases items.len(),
{
    if items.len() > 0 {
        let rest = items.drop_first();
        assert forall|i: int| 0 <= i < rest.len() implies (#[trigger] rest[i]).len() == width by {
            assert(rest[i] == items[i + 1]);
        }
        lemma_uniform_flatten_len(rest, width);
        assert(width * items.len() == width + width * rest.len()) by (nonlinear_arith)
            requires
                items.len() == rest.len() + 1,
        ;
    }
}

/// The sorted encoding of a set of strings of one width takes that width
/// for each member.
pub proof fn lemma_sorted_concat_len(items: Seq<Seq<u8>>, width: nat)
    requires
        forall|i: int| 0 <= i < items.len() ==> (#[trigger] items[i]).len() == width,
    ensures
        sorted_concat(items).len() == width * items.len(),
{
    lemma_byte_order_total();
    items.lemma_sort_by_ensures(byte_order());
    let arranged = canonical(items);
    items.to_multiset_ensures();
    arranged.to_multiset_ensures();
    assert forall|i: int| 0 <= i < arranged.len() implies (#[trigger] arranged[i]).len()
        == width by {
        assert(arranged.contains(arranged[i]));
        assert(items.contains(arranged[i]));
        let k = choose|k: int| 0 <= k < items.len() && items[k] == arranged[i];
        assert(items[k].len() == width);
    }
    lemma_uniform_flatten_len(arranged, width);
}

/// Whether `a` comes before or equals `b` in lexicographic order.
pub fn bytes_le(a: &[u8], b: &[u8]) -> (r: bool)
    ensures
        r == lex_le(a@, b@),
{
    let mut i: usize = 0;
    while i < a.len() && i < b.len()
        invariant
            0 <= i <= a@.len(),
            i <= b@.len(),
            lex_le(a@, b@) == lex_le_from(a@, b@, i as int),
        decreases a@.len() - i,
    {
        if a[i] != b[i] {
            return a[i] < b[i];
        }
        i += 1;
    }
    i >= a.len()
}

fn merge(left: &Vec<Vec<u8>>, right: &Vec<Vec<u8>>) -> (out: Vec<Vec<u8>>)
    requires
        sorted_by(byte_strings(left@), byte_order()),
        sorted_by(byte_strings(right@), byte_order()),
    ensures
        sorted_by(byte_strings(out@), byte_order()),
        byte_strings(out@).to_multiset() == byte_strings(left@).to_multiset().add(
            byte_strings(right@).to_multiset(),
        ),
{
    broadcast use vstd::seq_lib::group_to_multiset_ensures;

    let ghost l = byte_strings(left@);
    let ghost r = byte_strings(right@);
    let mut out: Vec<Vec<u8>> = Vec::new();
    let mut i: usize = 0;
    let mut j: usize = 0;
    proof {
        lemma_byte_order_total();
        assert(byte_strings(out@) =~= Seq::<Seq<u8>>::empty());
        assert(l.take(0) =~= Seq::<Seq<u8>>::empty());
        assert(r.take(0) =~= Seq::<Seq<u8>>::empty());
    }
    while i < left.len() || j < right.len()
        invariant
            l == byte_strings(left@),
            r == byte_strings(right@),
            0 <= i <= left@.len(),
            0 <= j <= right@.len(),
            total_ordering(byte_order()),
            sorted_by(l, byte_order()),
            sorted_by(r, byte_order()),
            sorted_by(byte_strings(out@), byte_order()),
            byte_strings(out@).to_multiset() == l.take(i as int).to_multiset().add(
                r.take(j as int).to_multiset(),
            ),
            forall|p: int, q: int|
                0 <= p < out@.len() && i <= q < l.len() ==> lex_le(
                    #[trigger] byte_strings(out@)[p],
                    #[trigger] l[q],
                ),
            forall|p: int, q: int|
                0 <= p < out@.len() && j <= q < r.len() ==> lex_le(
                    #[trigger] byte_strings(out@)[p],
                    #[trigger] r[q],
                ),
        decreases left@.len() - i + right@.len() - j,
    {
        let ghost before = byte_strings(out@);
        let take_left: bool = if i >= left.len() {
            false
        } else if j >= right.len() {
            true
        } else {
            bytes_le(left[i].as_slice(), right[j].as_slice())
        };
        if take_left {
            let item: Vec<u8> = slice_to_vec(left[i].as_slice());
            out.push(item);
            proof {
                let x = l[i as int];
                assert(byte_strings(out@) =~= before.push(x));
                assert(l.take(i + 1) =~= l.take(i as int).push(x));
                to_multiset_build(before, x);
                to_multiset_build(l.take(i as int), x);
                assert(byte_strings(out@).to_multiset() =~= l.take(i + 1).to_multiset().add(
                    r.take(j as int).to_multiset(),
                ));
                assert(byte_order()(x, x));
                assert forall|q: int| i + 1 <= q < l.len() implies lex_le(x, #[trigger] l[q]) by {
                    assert(byte_order()(l[i as int], l[q]));
                }
                assert forall|q: int| j <= q < r.len() implies lex_le(x, #[trigger] r[q]) by {
                    assert(byte_order()(l[i as int], r[j as int]));
                    if q > j {
                        assert(byte_order()(r[j as int], r[q]));
                    }
                    assert(byte_order()(x, r[q]));
                }
                assert forall|p: int, q: int|
                    0 <= p < q < before.push(x).len() implies #[trigger] byte_order()(
                    before.push(x)[p],
                    before.push(x)[q],
                ) by {
                    if q < before.len() {
                        assert(byte_order()(before[p], before[q]));
                    } else {
                        assert(lex_le(before[p], l[i as int]));
                    }
                }
            }
            i += 1;
        } else {
            let item: Vec<u8> = slice_to_vec(right[j].as_slice());
            out.push(item);
            proof {
                let x = r[j as int];
                assert(byte_strings(out@) =~= before.push(x));
                assert(r.take(j + 1) =~= r.take(j as int).push(x));
                to_multiset_build(before, x);
                to_multiset_build(r.take(j as int), x);
                assert(byte_strings(out@).to_multiset() =~= l.take(i as int).to_multiset().add(
                    r.take(j + 1).to_multiset(),
                ));
                assert(byte_order()(x, x));
                assert forall|q: int| j + 1 <= q < r.len() implies lex_le(x, #[trigger] r[q]) by {
                    assert(byte_order()(r[j as int], r[q]));
                }
                assert forall|q: int| i <= q < l.len() implies lex_le(x, #[trigger] l[q]) by {
                    assert(byte_order()(l[i as int], r[j as int]) || byte_order()(
                        r[j as int],
                        l[i as int],
                    ));
                    if q > i {
                        assert(byte_order()(l[i as int], l[q]));
                    }
                    assert(byte_order()(x, l[q]));
                }
                assert forall|p: int, q: int|
                    0 <= p < q < before.push(x).len() implies #[trigger] byte_order()(
                    before.push(x)[p],
                    before.push(x)[q],
                ) by {
                    if q < before.len() {
                        assert(byte_order()(before[p], before[q]));
                    } else {
                        assert(lex_le(before[p], r[j as int]));
                    }
                }
            }
            j += 1;
        }
    }
    proof {
        assert(l.take(i as int) =~= l);
        assert(r.take(j as int) =~= r);
    }
    out
}

fn sort_range(items: &Vec<Vec<u8>>, lo: usize, hi: usize) -> (out: Vec<Vec<u8>>)
    requires
        lo <= hi <= items@.len(),
    ensures
        sorted_by(byte_strings(out@), byte_order()),
        byte_strings(out@).to_multiset() == byte_strings(items@).subrange(
            lo as int,
            hi as int,
        ).to_multiset(),
    decreases hi - lo,
{
    let ghost all = byte_strings(items@);
    if hi - lo == 0 {
        let out: Vec<Vec<u8>> = Vec::new();
        assert(byte_strings(out@) =~= all.subrange(lo as int, hi as int));
        out
    } else if hi - lo == 1 {
        let mut out: Vec<Vec<u8>> = Vec::new();
        out.push(slice_to_vec(items[lo].as_slice()));
        assert(byte_strings(out@) =~= all.subrange(lo as int, hi as int));
        out
    } else {
        let mid: usize = lo + (hi - lo) / 2;
        let left = sort_range(items, lo, mid);
        let right = sort_range(items, mid, hi);
        proof {
            assert(all.subrange(lo as int, hi as int) =~= all.subrange(lo as int, mid as int)
                + all.subrange(mid as int, hi as int));
            lemma_multiset_commutative(
                all.subrange(lo as int, mid as int),
                all.subrange(mid as int, hi as int),
            );
        }
        merge(&left, &right)
    }
}

/// Arranges byte strings in ascending lexicographic order.
pub fn sort_byte_strings(items: &Vec<Vec<u8>>) -> (out: Vec<Vec<u8>>)
    ensures
        byte_strings(out@) == canonical(byte_strings(items@)),
{
    let out = sort_range(items, 0, items.len());
    proof {
        let all = byte_strings(items@);
        assert(all.subrange(0, items@.len() as int) =~= all);
        lemma_canonical_unique(all, byte_strings(out@));
    }
    out
}

/// Writes byte strings one after another with nothing between them.
pub fn concatenate(items: &Vec<Vec<u8>>) -> (out: Vec<u8>)
    ensures
        out@ == byte_strings(items@).flatten(),
{
    let ghost all = byte_strings(items@);
    let mut out: Vec<u8> = Vec::new();
    let mut n: usize = 0;
    assert(all.take(0) =~= Seq::<Seq<u8>>::empty());
    while n < items.len()
        invariant
            n <= items@.len(),
            all == byte_strings(items@),
            out@ == all.take(n as int).flatten(),
        decreases items@.len() - n,
    {
        let ghost before = out@;
        out.extend_from_slice(items[n].as_slice());
        proof {
            assert(out@ =~= before + all[n as int]);
            assert(all.take(n + 1) =~= all.take(n as int).push(all[n as int]));
            all.take(n as int).lemma_flatten_push(all[n as int]);
        }
        n += 1;
    }
    assert(all.take(items@.len() as int) =~= all);
    out
}

/// Encodes a set of byte strings: its members in ascending order, one after
/// another. The order in which the members are given does not matter.
pub fn encode_sorted(items: &Vec<Vec<u8>>) -> (out: Vec<u8>)
    ensures
        out@ == sorted_concat(byte_strings(items@)),
{
    let sorted = sort_byte_strings(items);
    concatenate(&sorted)
}

} // verus!
