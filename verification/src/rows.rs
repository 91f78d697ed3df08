//! The order of the rows the simulator reads and writes: by timestamp, then
//! by product name, rows with equal keys in the order they came.

use vstd::prelude::*;
use vstd::utf8::encode_utf8;
use crate::columns::{
    lemma_bytes_le_reflexive, lemma_bytes_le_total, lemma_bytes_le_transitive, name_le,
    name_le_exec,
};

verus! {

/// `a` comes no later than `b`: an earlier timestamp, or the same timestamp
/// and a name no later in `String` order.
pub open spec fn key_le(a: (i32, Seq<char>), b: (i32, Seq<char>)) -> bool {
    a.0 < b.0 || (a.0 == b.0 && name_le(a.1, b.1))
}

/// The keys with their names as character sequences.
pub open spec fn keys_view(keys: Seq<(i32, String)>) -> Seq<(i32, Seq<char>)> {
    Seq::new(keys.len(), |i: int| (keys[i].0, keys[i].1@))
}

/// `order` lists distinct positions of `keys`, their keys in order, and
/// positions with equal keys in increasing order.
pub open spec fn stable_sorted_by(keys: Seq<(i32, Seq<char>)>, order: Seq<usize>) -> bool {
    &&& forall|i: int| 0 <= i < order.len() ==> #[trigger] order[i] < keys.len()
    &&& forall|i: int, j: int|
        0 <= i < j < order.len() ==> #[trigger] order[i] != #[trigger] order[j]
    &&& forall|i: int, j: int|
        0 <= i < j < order.len() ==> key_le(
            keys[#[trigger] order[i] as int],
            keys[#[trigger] order[j] as int],
        )
    &&& forall|i: int, j: int|
        0 <= i < j < order.len() && key_le(
            keys[#[trigger] order[j] as int],
            keys[#[trigger] order[i] as int],
        ) ==> order[i] < order[j]
}

proof fn lemma_key_le_total(a: (i32, Seq<char>), b: (i32, Seq<char>))
    ensures
        key_le(a, b) || key_le(b, a),
{
    lemma_bytes_le_total(encode_utf8(a.1), encode_utf8(b.1));
}

proof fn lemma_key_le_transitive(a: (i32, Seq<char>), b: (i32, Seq<char>), c: (i32, Seq<char>))
    requires
        key_le(a, b),
        key_le(b, c),
    ensures
        key_le(a, c),
{
    if a.0 == b.0 && b.0 == c.0 {
        lemma_bytes_le_transitive(encode_utf8(a.1), encode_utf8(b.1), encode_utf8(c.1));
    }
}

/// Compares two keys.
fn key_le_exec(a: &(i32, String), b: &(i32, String)) -> (r: bool)
    ensures
        r == key_le((a.0, a.1@), (b.0, b.1@)),
{
    if a.0 < b.0 {
        true
    } else if a.0 == b.0 {
        name_le_exec(&a.1, &b.1)
    } else {
        false
    }
}

/// Puts position `i` into a stably sorted order of earlier positions, after
/// every position whose key comes no later than its own.
fn insert_in_order(order: &mut Vec<usize>, keys: &Vec<(i32, String)>, i: usize)
    requires
        i < keys.len(),
        stable_sorted_by(keys_view(keys@), old(order)@),
        forall|k: int| 0 <= k < old(order)@.len() ==> #[trigger] old(order)@[k] < i,
    ensures
        stable_sorted_by(keys_view(keys@), final(order)@),
        final(order)@.len() == old(order)@.len() + 1,
        final(order)@.contains(i),
        forall|k: int|
            0 <= k < final(order)@.len() ==> #[trigger] final(order)@[k] == i || old(
                order,
            )@.contains(final(order)@[k]),
        forall|x: usize| #[trigger] old(order)@.contains(x) ==> final(order)@.contains(x),
        forall|k: int|
            0 <= k < final(order)@.len() ==> #[trigger] final(order)@[k] <= i,
{
    let ghost kv = keys_view(keys@);
    let ghost old_order = order@;
    let mut p: usize = order.len();
    while p > 0 && !key_le_exec(&keys[order[p - 1]], &keys[i])
        invariant
            order@ == old_order,
            i < keys@.len(),
            p <= order@.len(),
            kv == keys_view(keys@),
            stable_sorted_by(kv, order@),
            forall|k: int| 0 <= k < order@.len() ==> #[trigger] order@[k] < keys@.len(),
            forall|k: int| p <= k < order@.len() ==> !key_le(kv[#[trigger] order@[k] as int], kv[i as int]),
        decreases p,
    {
        proof {
            assert(kv[order@[p - 1] as int] == (keys@[order@[p - 1] as int].0, keys@[order@[p - 1] as int].1@));
            assert(kv[i as int] == (keys@[i as int].0, keys@[i as int].1@));
        }
        p = p - 1;
    }
    proof {
        if p > 0 {
            assert(kv[order@[p - 1] as int] == (keys@[order@[p - 1] as int].0, keys@[order@[p - 1] as int].1@));
            assert(kv[i as int] == (keys@[i as int].0, keys@[i as int].1@));
            assert(key_le(kv[order@[p - 1] as int], kv[i as int]));
        }
        // Every earlier entry comes no later than `i`; every later one comes after it.
        assert forall|k: int| 0 <= k < p implies key_le(kv[#[trigger] old_order[k] as int], kv[i as int]) by {
            if k < p - 1 {
                assert(key_le(kv[old_order[k] as int], kv[old_order[p - 1] as int]));
                lemma_key_le_transitive(kv[old_order[k] as int], kv[old_order[p - 1] as int], kv[i as int]);
            }
        }
        assert forall|k: int| p <= k < old_order.len() implies key_le(kv[i as int], kv[#[trigger] old_order[k] as int]) by {
            lemma_key_le_total(kv[i as int], kv[old_order[k] as int]);
        }
    }
    order.insert(p, i);
    proof {
        let n = order@;
        assert(n == old_order.insert(p as int, i));
        assert(n[p as int] == i);
        assert forall|k: int| 0 <= k < n.len() implies #[trigger] n[k] <= i && (n[k] == i || old_order.contains(n[k])) by {
            if k < p {
                assert(n[k] == old_order[k]);
            } else if k > p {
                assert(n[k] == old_order[k - 1]);
            }
        }
        assert forall|x: usize| #[trigger] old_order.contains(x) implies n.contains(x) by {
            let k = choose|k: int| 0 <= k < old_order.len() && old_order[k] == x;
            if k < p {
                assert(n[k] == x);
            } else {
                assert(n[k + 1] == x);
            }
        }
        assert forall|a: int, b: int| 0 <= a < b < n.len() implies #[trigger] n[a] != #[trigger] n[b] && key_le(
            kv[n[a] as int],
            kv[n[b] as int],
        ) && (key_le(kv[n[b] as int], kv[n[a] as int]) ==> n[a] < n[b]) by {
            if b < p {
                assert(n[a] == old_order[a] && n[b] == old_order[b]);
            } else if b == p {
                assert(n[a] == old_order[a]);
            } else if a < p {
                assert(n[a] == old_order[a] && n[b] == old_order[b - 1]);
                lemma_key_le_transitive(kv[n[a] as int], kv[i as int], kv[n[b] as int]);
            } else if a == p {
                assert(n[b] == old_order[b - 1]);
            } else {
                assert(n[a] == old_order[a - 1] && n[b] == old_order[b - 1]);
            }
        }
        assert forall|k: int| 0 <= k < n.len() implies #[trigger] n[k] < kv.len() by {
            if k < p {
                assert(n[k] == old_order[k]);
            } else if k > p {
                assert(n[k] == old_order[k - 1]);
            }
        }
    }
}

/// The positions of `keys` in stable sorted order: by timestamp, then by
/// name in `String` order, equal keys in the order they came.
pub fn stable_order(keys: &Vec<(i32, String)>) -> (order: Vec<usize>)
    ensures
        order@.len() == keys@.len(),
        stable_sorted_by(keys_view(keys@), order@),
{
    let mut order: Vec<usize> = Vec::new();
    let mut i: usize = 0;
    while i < keys.len()
        invariant
            i <= keys.len(),
            order@.len() == i,
            stable_sorted_by(keys_view(keys@), order@),
            forall|k: int| 0 <= k < order@.len() ==> #[trigger] order@[k] < i,
        decreases keys.len() - i,
    {
        insert_in_order(&mut order, keys, i);
        proof {
            assert forall|k: int| 0 <= k < order@.len() implies #[trigger] order@[k] < i + 1 by {
                assert(order@[k] <= i);
            }
        }
        i = i + 1;
    }
    order
}

/// The positions of the rows of `product`, in stable timestamp order: rows
/// are `(timestamp, product)` pairs.
pub fn product_rows_by_time(rows: &Vec<(i32, String)>, product: &String) -> (order: Vec<usize>)
    ensures
        stable_sorted_by(keys_view(rows@), order@),
        forall|k: int| 0 <= k < order@.len() ==> #[trigger] rows@[order@[k] as int].1@ == product@,
        forall|j: int|
            0 <= j < rows@.len() && #[trigger] rows@[j].1@ == product@ ==> order@.contains(
                j as usize,
            ),
        forall|a: int, b: int|
            0 <= a < b < order@.len() ==> rows@[#[trigger] order@[a] as int].0 <= rows@[#[trigger] order@[b] as int].0,
        forall|a: int, b: int|
            0 <= a < b < order@.len() && rows@[#[trigger] order@[a] as int].0 == rows@[#[trigger] order@[b] as int].0
                ==> order@[a] < order@[b],
{
    let ghost kv = keys_view(rows@);
    let mut order: Vec<usize> = Vec::new();
    let mut i: usize = 0;
    while i < rows.len()
        invariant
            i <= rows.len(),
            kv == keys_view(rows@),
            stable_sorted_by(kv, order@),
            forall|k: int| 0 <= k < order@.len() ==> #[trigger] order@[k] < i,
            forall|k: int| 0 <= k < order@.len() ==> #[trigger] rows@[order@[k] as int].1@ == product@,
            forall|j: int| 0 <= j < i && #[trigger] rows@[j].1@ == product@ ==> order@.contains(j as usize),
        decreases rows.len() - i,
    {
        if rows[i].1 == *product {
            let ghost before = order@;
            insert_in_order(&mut order, rows, i);
            proof {
                assert forall|k: int| 0 <= k < order@.len() implies #[trigger] order@[k] < i + 1 && rows@[order@[k] as int].1@ == product@ by {
                    if order@[k] != i {
                        assert(before.contains(order@[k]));
                        let m = choose|m: int| 0 <= m < before.len() && before[m] == order@[k];
                        assert(before[m] < i);
                    }
                }
                assert forall|j: int| 0 <= j < i + 1 && #[trigger] rows@[j].1@ == product@ implies order@.contains(j as usize) by {
                    if j < i {
                        assert(before.contains(j as usize));
                    }
                }
            }
        }
        i = i + 1;
    }
    proof {
        assert forall|a: int, b: int| 0 <= a < b < order@.len() implies rows@[#[trigger] order@[a] as int].0 <= rows@[#[trigger] order@[b] as int].0 && (rows@[order@[a] as int].0 == rows@[order@[b] as int].0 ==> order@[a] < order@[b]) by {
            assert(kv[order@[a] as int] == (rows@[order@[a] as int].0, rows@[order@[a] as int].1@));
            assert(kv[order@[b] as int] == (rows@[order@[b] as int].0, rows@[order@[b] as int].1@));
            assert(key_le(kv[order@[a] as int], kv[order@[b] as int]));
            lemma_bytes_le_reflexive(encode_utf8(product@));
        }
    }
    order
}

} // verus!
