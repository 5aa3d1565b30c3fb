//! Lexicographic ordering of task ids.
//!
//! Ids are compared by their UTF-8 bytes, the order `String` comparison and
//! sorting give, so reported critical paths come out in a stable order.

use vstd::multiset::Multiset;
use vstd::prelude::*;
use vstd::utf8::encode_utf8;

verus! {

broadcast use vstd::seq_lib::group_to_multiset_ensures;

/// The UTF-8 bytes of an id.
pub open spec fn id_bytes(s: String) -> Seq<u8> {
    encode_utf8(s@)
}

/// Byte-wise lexicographic order: `a` is empty, or its first byte is
/// smaller, or the first bytes agree and the tails compare.
pub open spec fn lex_le(a: Seq<u8>, b: Seq<u8>) -> bool
    decreases a.len(),
{
    if a.len() == 0 {
        true
    } else if b.len() == 0 {
        false
    } else if a[0] < b[0] {
        true
    } else if a[0] > b[0] {
        false
    } else {
        lex_le(a.skip(1), b.skip(1))
    }
}

/// The order is total.
pub proof fn lemma_lex_le_total(a: Seq<u8>, b: Seq<u8>)
    ensures
        lex_le(a, b) || lex_le(b, a),
    decreases a.len(),
{
    if a.len() > 0 && b.len() > 0 && a[0] == b[0] {
        lemma_lex_le_total(a.skip(1), b.skip(1));
    }
}

/// The order is reflexive.
pub proof fn lemma_lex_le_refl(a: Seq<u8>)
    ensures
        lex_le(a, a),
    decreases a.len(),
{
    if a.len() > 0 {
        lemma_lex_le_refl(a.skip(1));
    }
}

/// The order is transitive.
pub proof fn lemma_lex_le_trans(a: Seq<u8>, b: Seq<u8>, c: Seq<u8>)
    requires
        lex_le(a, b),
        lex_le(b, c),
    ensures
        lex_le(a, c),
    decreases a.len(),
{
    if a.len() > 0 {
        assert(b.len() > 0);
        assert(c.len() > 0);
        if !(a[0] < c[0]) {
            assert(a[0] == b[0] && b[0] == c[0]);
            lemma_lex_le_trans(a.skip(1), b.skip(1), c.skip(1));
        }
    }
}

/// Stepping both sequences past an equal byte keeps the comparison.
proof fn lemma_lex_skip_step(a: Seq<u8>, b: Seq<u8>, i: int)
    requires
        0 <= i < a.len(),
        i < b.len(),
        a[i] == b[i],
    ensures
        lex_le(a.skip(i), b.skip(i)) == lex_le(a.skip(i + 1), b.skip(i + 1)),
{
    assert(a.skip(i)[0] == a[i]);
    assert(b.skip(i)[0] == b[i]);
    assert(a.skip(i).skip(1) =~= a.skip(i + 1));
    assert(b.skip(i).skip(1) =~= b.skip(i + 1));
}

/// Byte-slice comparison implementing `lex_le`.
fn bytes_le(a: &[u8], b: &[u8]) -> (r: bool)
    ensures
        r == lex_le(a@, b@),
{
    let la = a.len();
    let lb = b.len();
    let mut i: usize = 0;
    proof {
        assert(a@.skip(0) =~= a@);
        assert(b@.skip(0) =~= b@);
    }
    while i < la && i < lb
        invariant
            la == a@.len(),
            lb == b@.len(),
            i <= la,
            i <= lb,
            lex_le(a@, b@) == lex_le(a@.skip(i as int), b@.skip(i as int)),
        decreases la - i,
    {
        let x = a[i];
        let y = b[i];
        proof {
            assert(a@.skip(i as int)[0] == a@[i as int]);
            assert(b@.skip(i as int)[0] == b@[i as int]);
        }
        if x < y {
            return true;
        }
        if x > y {
            return false;
        }
        proof {
            lemma_lex_skip_step(a@, b@, i as int);
        }
        i += 1;
    }
    proof {
        if la <= lb {
            assert(a@.skip(i as int).len() == 0);
        } else {
            assert(b@.skip(i as int).len() == 0);
            assert(a@.skip(i as int).len() > 0);
        }
    }
    la <= lb
}

/// Id comparison by UTF-8 bytes.
pub fn id_le(a: &String, b: &String) -> (r: bool)
    ensures
        r == lex_le(id_bytes(*a), id_bytes(*b)),
{
    bytes_le(a.as_str().as_bytes(), b.as_str().as_bytes())
}

/// The ids stand in ascending lexicographic order.
pub open spec fn sorted_ids(ids: Seq<String>) -> bool {
    forall|p: int, q: int|
        0 <= p < q < ids.len() ==> lex_le(id_bytes(#[trigger] ids[p]), id_bytes(#[trigger] ids[q]))
}

/// Index of a smallest id.
fn min_id_index(v: &Vec<String>) -> (m: usize)
    requires
        v@.len() >= 1,
    ensures
        m < v@.len(),
        forall|q: int| 0 <= q < v@.len() ==> lex_le(id_bytes(v@[m as int]), id_bytes(#[trigger] v@[q])),
{
    let n = v.len();
    let mut m: usize = 0;
    proof {
        lemma_lex_le_refl(id_bytes(v@[0]));
    }
    let mut j: usize = 1;
    while j < n
        invariant
            n == v@.len(),
            m < j <= n,
            forall|q: int| 0 <= q < j ==> lex_le(id_bytes(v@[m as int]), id_bytes(#[trigger] v@[q])),
        decreases n - j,
    {
        if id_le(&v[j], &v[m]) {
            proof {
                assert forall|q: int|
                    0 <= q < j implies lex_le(id_bytes(v@[j as int]), id_bytes(#[trigger] v@[q])) by {
                    lemma_lex_le_trans(
                        id_bytes(v@[j as int]),
                        id_bytes(v@[m as int]),
                        id_bytes(v@[q]),
                    );
                }
                lemma_lex_le_refl(id_bytes(v@[j as int]));
            }
            m = j;
        } else {
            proof {
                lemma_lex_le_total(id_bytes(v@[j as int]), id_bytes(v@[m as int]));
            }
        }
        j += 1;
    }
    m
}

/// Sorts ids ascending by UTF-8 bytes; the result is a permutation of the
/// input.
pub fn sort_task_ids(ids: Vec<String>) -> (r: Vec<String>)
    ensures
        sorted_ids(r@),
        r@.to_multiset() == ids@.to_multiset(),
        r@.len() == ids@.len(),
{
    let ghost orig = ids@;
    let mut rest = ids;
    let mut out: Vec<String> = Vec::new();
    proof {
        assert(out@.to_multiset().add(rest@.to_multiset()) =~= orig.to_multiset());
    }
    while rest.len() > 0
        invariant
            sorted_ids(out@),
            forall|p: int, q: int|
                0 <= p < out@.len() && 0 <= q < rest@.len() ==> lex_le(
                    id_bytes(#[trigger] out@[p]),
                    id_bytes(#[trigger] rest@[q]),
                ),
            out@.to_multiset().add(rest@.to_multiset()) =~= orig.to_multiset(),
            out@.len() + rest@.len() == orig.len(),
        decreases rest@.len(),
    {
        let m = min_id_index(&rest);
        let ghost rest_pre = rest@;
        let ghost out_pre = out@;
        let v = rest.remove(m);
        out.push(v);
        proof {
            // Order: the extracted minimum follows everything sorted so far
            // and precedes everything still unsorted.
            assert forall|p: int, q: int|
                0 <= p < q < out@.len() implies lex_le(
                id_bytes(#[trigger] out@[p]),
                id_bytes(#[trigger] out@[q]),
            ) by {
                if q < out_pre.len() {
                    assert(out@[p] == out_pre[p] && out@[q] == out_pre[q]);
                } else {
                    assert(out@[q] == rest_pre[m as int]);
                    assert(out@[p] == out_pre[p]);
                }
            }
            assert forall|p: int, q: int|
                0 <= p < out@.len() && 0 <= q < rest@.len() implies lex_le(
                id_bytes(#[trigger] out@[p]),
                id_bytes(#[trigger] rest@[q]),
            ) by {
                let w = if q < m { rest_pre[q] } else { rest_pre[q + 1] };
                assert(rest@[q] == w);
                if p < out_pre.len() {
                    assert(out@[p] == out_pre[p]);
                } else {
                    assert(out@[p] == rest_pre[m as int]);
                }
            }
            // Contents: one element moved from `rest` to `out`.
            assert(out@.to_multiset() =~= out_pre.to_multiset().insert(rest_pre[m as int]));
            assert(rest@.to_multiset() =~= rest_pre.to_multiset().remove(rest_pre[m as int]));
            assert(rest_pre.to_multiset().count(rest_pre[m as int]) >= 1);
            assert(out@.to_multiset().add(rest@.to_multiset()) =~= orig.to_multiset());
        }
    }
    proof {
        assert(rest@.to_multiset() =~= Multiset::empty());
        assert(out@.to_multiset() =~= orig.to_multiset());
        assert(out@.to_multiset().len() == orig.to_multiset().len());
    }
    out
}

} // verus!
