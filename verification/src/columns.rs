//! Column names of the summary tables: one column per product and measure,
//! products in the byte order of their names.

use vstd::prelude::*;
use vstd::utf8::encode_utf8;

verus! {

broadcast use vstd::seq_lib::group_to_multiset_ensures;

/// `a` comes no later than `b` in lexicographic byte order.
pub open spec fn bytes_le(a: Seq<u8>, b: Seq<u8>) -> bool
    decreases a.len(),
{
    if a.len() == 0 {
        true
    } else if b.len() == 0 {
        false
    } else if a[0] != b[0] {
        a[0] < b[0]
    } else {
        bytes_le(a.drop_first(), b.drop_first())
    }
}

/// `a` comes no later than `b` in the order of `String`s: that of their
/// UTF-8 bytes.
pub open spec fn name_le(a: Seq<char>, b: Seq<char>) -> bool {
    bytes_le(encode_utf8(a), encode_utf8(b))
}

/// Inserts `x` just before the first name that comes strictly after it.
pub open spec fn insert_name(s: Seq<Seq<char>>, x: Seq<char>) -> Seq<Seq<char>>
    decreases s.len(),
{
    if s.len() == 0 {
        seq![x]
    } else if !name_le(s[0], x) {
        seq![x] + s
    } else {
        seq![s[0]] + insert_name(s.drop_first(), x)
    }
}

/// The names in `String` order.
pub open spec fn sorted_names(s: Seq<Seq<char>>) -> Seq<Seq<char>>
    decreases s.len(),
{
    if s.len() == 0 {
        s
    } else {
        insert_name(sorted_names(s.drop_last()), s.last())
    }
}

/// The names are in `String` order.
pub open spec fn names_ordered(s: Seq<Seq<char>>) -> bool {
    forall|i: int, j: int| 0 <= i < j < s.len() ==> name_le(#[trigger] s[i], #[trigger] s[j])
}

/// The strings as character sequences.
pub open spec fn names_view(v: Seq<String>) -> Seq<Seq<char>> {
    Seq::new(v.len(), |i: int| v[i]@)
}

/// Each name followed by the suffix.
pub open spec fn suffixed_all(names: Seq<Seq<char>>, suffix: Seq<char>) -> Seq<Seq<char>> {
    Seq::new(names.len(), |i: int| names[i] + suffix)
}

/// Columns of the session summary: the session, its total, each product's
/// PnL, position and cash, the total's trend, and each product's trend.
pub open spec fn session_columns(names: Seq<Seq<char>>) -> Seq<Seq<char>> {
    let s = sorted_names(names);
    seq!["session_id"@, "total_pnl"@] + suffixed_all(s, "_pnl"@) + suffixed_all(s, "_position"@)
        + suffixed_all(s, "_cash"@) + seq!["total_slope_per_step"@, "total_r2"@] + suffixed_all(
        s,
        "_slope_per_step"@,
    ) + suffixed_all(s, "_r2"@)
}

/// Columns of the run summary: the session, the day, its total, each
/// product's PnL, the total's trend, and each product's trend.
pub open spec fn run_columns(names: Seq<Seq<char>>) -> Seq<Seq<char>> {
    let s = sorted_names(names);
    seq!["session_id"@, "day"@, "total_pnl"@] + suffixed_all(s, "_pnl"@) + seq![
        "total_slope_per_step"@,
        "total_r2"@,
    ] + suffixed_all(s, "_slope_per_step"@) + suffixed_all(s, "_r2"@)
}

// ---------------------------------------------------------------------------
// The byte order
// ---------------------------------------------------------------------------

/// The byte order is total.
pub proof fn lemma_bytes_le_total(a: Seq<u8>, b: Seq<u8>)
    ensures
        bytes_le(a, b) || bytes_le(b, a),
    decreases a.len(),
{
    if a.len() > 0 && b.len() > 0 && a[0] == b[0] {
        lemma_bytes_le_total(a.drop_first(), b.drop_first());
    }
}

/// The byte order is reflexive.
pub proof fn lemma_bytes_le_reflexive(a: Seq<u8>)
    ensures
        bytes_le(a, a),
    decreases a.len(),
{
    if a.len() > 0 {
        lemma_bytes_le_reflexive(a.drop_first());
    }
}

/// The byte order is transitive.
pub proof fn lemma_bytes_le_transitive(a: Seq<u8>, b: Seq<u8>, c: Seq<u8>)
    requires
        bytes_le(a, b),
        bytes_le(b, c),
    ensures
        bytes_le(a, c),
    decreases a.len(),
{
    if a.len() > 0 && b.len() > 0 && c.len() > 0 && a[0] == b[0] && b[0] == c[0] {
        lemma_bytes_le_transitive(a.drop_first(), b.drop_first(), c.drop_first());
    }
}

proof fn lemma_insert_name_at(s: Seq<Seq<char>>, x: Seq<char>, p: int)
    requires
        0 <= p <= s.len(),
        forall|j: int| 0 <= j < p ==> name_le(#[trigger] s[j], x),
        p < s.len() ==> !name_le(s[p], x),
    ensures
        insert_name(s, x) == s.insert(p, x),
    decreases s.len(),
{
    if s.len() == 0 {
        assert(s.insert(p, x) =~= seq![x]);
    } else if p == 0 {
        assert(s.insert(p, x) =~= seq![x] + s);
    } else {
        let t = s.drop_first();
        assert forall|j: int| 0 <= j < p - 1 implies name_le(#[trigger] t[j], x) by {
            assert(t[j] == s[j + 1]);
        }
        lemma_insert_name_at(t, x, p - 1);
        assert(seq![s[0]] + t.insert(p - 1, x) =~= s.insert(p, x));
    }
}

proof fn lemma_insert_name_props(s: Seq<Seq<char>>, x: Seq<char>)
    requires
        names_ordered(s),
    ensures
        names_ordered(insert_name(s, x)),
        insert_name(s, x).to_multiset() == s.to_multiset().insert(x),
        insert_name(s, x).len() == s.len() + 1,
    decreases s.len(),
{
    let r = insert_name(s, x);
    if s.len() == 0 {
        assert(seq![x] =~= Seq::<Seq<char>>::empty().push(x));
    } else if !name_le(s[0], x) {
        lemma_bytes_le_total(encode_utf8(s[0]), encode_utf8(x));
        assert(r =~= s.insert(0, x));
        assert forall|i: int, j: int| 0 <= i < j < r.len() implies name_le(
            #[trigger] r[i],
            #[trigger] r[j],
        ) by {
            if i == 0 {
                assert(r[j] == s[j - 1]);
                if j - 1 > 0 {
                    lemma_bytes_le_transitive(
                        encode_utf8(x),
                        encode_utf8(s[0]),
                        encode_utf8(s[j - 1]),
                    );
                }
            } else {
                assert(r[i] == s[i - 1]);
                assert(r[j] == s[j - 1]);
            }
        }
    } else {
        let t = s.drop_first();
        assert forall|i: int, j: int| 0 <= i < j < t.len() implies name_le(
            #[trigger] t[i],
            #[trigger] t[j],
        ) by {
            assert(t[i] == s[i + 1]);
            assert(t[j] == s[j + 1]);
        }
        lemma_insert_name_props(t, x);
        let rt = insert_name(t, x);
        assert(r == seq![s[0]] + rt);
        assert forall|k: int| 0 <= k < rt.len() implies name_le(s[0], #[trigger] rt[k]) by {
            assert(rt.to_multiset().count(rt[k]) > 0);
            assert(rt.contains(rt[k]));
            if rt[k] != x {
                assert(t.to_multiset().count(rt[k]) > 0);
                assert(t.contains(rt[k]));
                let m = choose|m: int| 0 <= m < t.len() && t[m] == rt[k];
                assert(t[m] == s[m + 1]);
            }
        }
        assert forall|i: int, j: int| 0 <= i < j < r.len() implies name_le(
            #[trigger] r[i],
            #[trigger] r[j],
        ) by {
            assert(r[j] == rt[j - 1]);
            if i > 0 {
                assert(r[i] == rt[i - 1]);
            }
        }
        assert(r =~= rt.insert(0, s[0]));
        assert(s =~= t.insert(0, s[0]));
    }
}

/// Sorting the names puts them in `String` order and keeps exactly the
/// names given.
pub proof fn lemma_sorted_names(s: Seq<Seq<char>>)
    ensures
        names_ordered(sorted_names(s)),
        sorted_names(s).to_multiset() == s.to_multiset(),
        sorted_names(s).len() == s.len(),
    decreases s.len(),
{
    if s.len() > 0 {
        lemma_sorted_names(s.drop_last());
        lemma_insert_name_props(sorted_names(s.drop_last()), s.last());
        assert(s.drop_last().push(s.last()) =~= s);
    }
}

// ---------------------------------------------------------------------------
// Executable code
// ---------------------------------------------------------------------------

/// Compares two names in `String` order.
pub(crate) fn name_le_exec(a: &String, b: &String) -> (r: bool)
    ensures
        r == name_le(a@, b@),
{
    let x = a.as_str().as_bytes();
    let y = b.as_str().as_bytes();
    let mut i: usize = 0;
    proof {
        assert(x@.skip(0) =~= x@);
        assert(y@.skip(0) =~= y@);
    }
    while i < x.len() && i < y.len()
        invariant
            i <= x@.len(),
            i <= y@.len(),
            x@ == encode_utf8(a@),
            y@ == encode_utf8(b@),
            bytes_le(x@, y@) == bytes_le(x@.skip(i as int), y@.skip(i as int)),
        decreases x.len() - i,
    {
        proof {
            assert(x@.skip(i as int)[0] == x@[i as int]);
            assert(y@.skip(i as int)[0] == y@[i as int]);
        }
        if x[i] != y[i] {
            return x[i] < y[i];
        }
        proof {
            assert(x@.skip(i as int).drop_first() =~= x@.skip(i + 1));
            assert(y@.skip(i as int).drop_first() =~= y@.skip(i + 1));
        }
        i = i + 1;
    }
    i == x.len()
}

/// The product names in `String` order.
pub fn sorted_product_names(names: &Vec<String>) -> (r: Vec<String>)
    ensures
        names_view(r@) == sorted_names(names_view(names@)),
{
    let mut sorted: Vec<String> = Vec::new();
    let mut i: usize = 0;
    while i < names.len()
        invariant
            i <= names.len(),
            names_view(sorted@) == sorted_names(names_view(names@).take(i as int)),
        decreases names.len() - i,
    {
        let x = &names[i];
        let mut p: usize = 0;
        while p < sorted.len() && name_le_exec(&sorted[p], x)
            invariant
                p <= sorted.len(),
                forall|j: int| 0 <= j < p ==> name_le(#[trigger] names_view(sorted@)[j], x@),
            decreases sorted.len() - p,
        {
            p = p + 1;
        }
        let ghost before = names_view(sorted@);
        proof {
            lemma_insert_name_at(before, x@, p as int);
            let pre = names_view(names@).take(i as int);
            let next = names_view(names@).take(i + 1);
            assert(next.drop_last() =~= pre);
            assert(next.last() == x@);
        }
        sorted.insert(p, x.clone());
        proof {
            assert(names_view(sorted@) =~= before.insert(p as int, x@));
        }
        i = i + 1;
    }
    proof {
        assert(names_view(names@).take(names.len() as int) =~= names_view(names@));
    }
    sorted
}

/// Appends `name + suffix` for each name.
fn push_suffixed(cols: &mut Vec<String>, names: &Vec<String>, suffix: &str)
    ensures
        names_view(final(cols)@) == names_view(old(cols)@) + suffixed_all(names_view(names@), suffix@),
{
    let ghost start = names_view(cols@);
    let mut i: usize = 0;
    while i < names.len()
        invariant
            i <= names.len(),
            names_view(cols@) == start + suffixed_all(names_view(names@).take(i as int), suffix@),
        decreases names.len() - i,
    {
        let mut col = names[i].clone();
        col.append(suffix);
        let ghost before = names_view(cols@);
        cols.push(col);
        proof {
            assert(names_view(cols@) =~= before.push(names@[i as int]@ + suffix@));
            assert(suffixed_all(names_view(names@).take(i + 1), suffix@) =~= suffixed_all(
                names_view(names@).take(i as int),
                suffix@,
            ).push(names@[i as int]@ + suffix@));
        }
        i = i + 1;
    }
    assert(names_view(names@).take(names.len() as int) =~= names_view(names@));
}

/// Appends one fixed column.
fn push_column(cols: &mut Vec<String>, name: &str)
    ensures
        names_view(final(cols)@) == names_view(old(cols)@).push(name@),
{
    let ghost before = names_view(cols@);
    cols.push(name.to_owned());
    assert(names_view(cols@) =~= before.push(name@));
}

/// Header of the session summary table (see `session_columns`).
pub fn session_summary_header(product_names: &Vec<String>) -> (cols: Vec<String>)
    ensures
        names_view(cols@) == session_columns(names_view(product_names@)),
{
    let sorted = sorted_product_names(product_names);
    let mut cols: Vec<String> = Vec::new();
    push_column(&mut cols, "session_id");
    push_column(&mut cols, "total_pnl");
    push_suffixed(&mut cols, &sorted, "_pnl");
    push_suffixed(&mut cols, &sorted, "_position");
    push_suffixed(&mut cols, &sorted, "_cash");
    push_column(&mut cols, "total_slope_per_step");
    push_column(&mut cols, "total_r2");
    push_suffixed(&mut cols, &sorted, "_slope_per_step");
    push_suffixed(&mut cols, &sorted, "_r2");
    proof {
        let s = names_view(sorted@);
        assert(names_view(cols@) =~= seq!["session_id"@, "total_pnl"@] + suffixed_all(s, "_pnl"@)
            + suffixed_all(s, "_position"@) + suffixed_all(s, "_cash"@) + seq![
            "total_slope_per_step"@,
            "total_r2"@,
        ] + suffixed_all(s, "_slope_per_step"@) + suffixed_all(s, "_r2"@));
    }
    cols
}

/// Header of the run summary table (see `run_columns`).
pub fn run_summary_header(product_names: &Vec<String>) -> (cols: Vec<String>)
    ensures
        names_view(cols@) == run_columns(names_view(product_names@)),
{
    let sorted = sorted_product_names(product_names);
    let mut cols: Vec<String> = Vec::new();
    push_column(&mut cols, "session_id");
    push_column(&mut cols, "day");
    push_column(&mut cols, "total_pnl");
    push_suffixed(&mut cols, &sorted, "_pnl");
    push_column(&mut cols, "total_slope_per_step");
    push_column(&mut cols, "total_r2");
    push_suffixed(&mut cols, &sorted, "_slope_per_step");
    push_suffixed(&mut cols, &sorted, "_r2");
    proof {
        let s = names_view(sorted@);
        assert(names_view(cols@) =~= seq!["session_id"@, "day"@, "total_pnl"@] + suffixed_all(
            s,
            "_pnl"@,
        ) + seq!["total_slope_per_step"@, "total_r2"@] + suffixed_all(s, "_slope_per_step"@)
            + suffixed_all(s, "_r2"@));
    }
    cols
}

} // verus!
