//! Ordering request parameters by name, as the request signature needs them:
//! names compare as their UTF-8 bytes, and parameters with equal names keep
//! their relative order.
use vstd::prelude::*;
use vstd::utf8::encode_utf8;
use vstd::multiset::Multiset;

verus! {

/// A parameter as a pair of character sequences: name and value.
pub type ParamView = (Seq<char>, Seq<char>);

/// Lexicographic order on byte sequences, a prefix coming first.
pub open spec fn bytes_le(a: Seq<u8>, b: Seq<u8>) -> bool
    decreases a.len(),
{
    if a.len() == 0 {
        true
    } else if b.len() == 0 {
        false
    } else if a[0] != b[0] {
        a[0] < b[0]
    } else {
        bytes_le(a.drop_first(), b.drop_first())
    }
}

/// The order of `str` values: lexicographic on their UTF-8 encodings.
pub open spec fn name_le(a: Seq<char>, b: Seq<char>) -> bool {
    bytes_le(encode_utf8(a), encode_utf8(b))
}

/// Where a stable insertion puts `x` into `s`: after every element, counted from
/// the end, up to the last one whose name is not greater than that of `x`.
pub open spec fn insertion_point(s: Seq<ParamView>, x: ParamView) -> int
    decreases s.len(),
{
    if s.len() == 0 || name_le(s.last().0, x.0) {
        s.len() as int
    } else {
        insertion_point(s.drop_last(), x)
    }
}

/// The parameters ordered by name; parameters with equal names keep their order.
pub open spec fn sort_by_name(s: Seq<ParamView>) -> Seq<ParamView>
    decreases s.len(),
{
    if s.len() == 0 {
        s
    } else {
        let r = sort_by_name(s.drop_last());
        r.insert(insertion_point(r, s.last()), s.last())
    }
}

/// The views of a sequence of borrowed parameters.
pub open spec fn str_param_views(v: Seq<(&str, &str)>) -> Seq<ParamView> {
    v.map_values(|p: (&str, &str)| (p.0@, p.1@))
}

/// Names in ascending order.
pub open spec fn sorted_by_name(s: Seq<ParamView>) -> bool {
    forall|i: int, j: int| 0 <= i < j < s.len() ==> name_le(#[trigger] s[i].0, #[trigger] s[j].0)
}

proof fn lemma_bytes_le_total(a: Seq<u8>, b: Seq<u8>)
    ensures
        bytes_le(a, b) || bytes_le(b, a),
    decreases a.len(),
{
    if a.len() > 0 && b.len() > 0 && a[0] == b[0] {
        lemma_bytes_le_total(a.drop_first(), b.drop_first());
    }
}

proof fn lemma_bytes_le_trans(a: Seq<u8>, b: Seq<u8>, c: Seq<u8>)
    requires
        bytes_le(a, b),
        bytes_le(b, c),
    ensures
        bytes_le(a, c),
    decreases a.len(),
{
    if a.len() > 0 && b.len() > 0 && c.len() > 0 && a[0] == b[0] && b[0] == c[0] {
        lemma_bytes_le_trans(a.drop_first(), b.drop_first(), c.drop_first());
    }
}

proof fn lemma_bytes_le_antisym(a: Seq<u8>, b: Seq<u8>)
    requires
        bytes_le(a, b),
        bytes_le(b, a),
    ensures
        a == b,
    decreases a.len(),
{
    if a.len() > 0 && b.len() > 0 {
        lemma_bytes_le_antisym(a.drop_first(), b.drop_first());
        assert(a =~= seq![a[0]] + a.drop_first());
        assert(b =~= seq![b[0]] + b.drop_first());
    } else {
        assert(a =~= b);
    }
}

/// What the byte order is: a sequence comes before another exactly when it is
/// a prefix of it, or when at the first position where they differ its byte is
/// the smaller number.
proof fn lemma_bytes_le_first_difference(a: Seq<u8>, b: Seq<u8>, i: int)
    requires
        0 <= i <= a.len(),
        i <= b.len(),
        a.take(i) == b.take(i),
    ensures
        i == a.len() ==> bytes_le(a, b),
        i == b.len() && i < a.len() ==> !bytes_le(a, b),
        i < a.len() && i < b.len() && a[i] != b[i] ==> (bytes_le(a, b) <==> a[i] < b[i]),
    decreases i,
{
    if i > 0 {
        assert(a[0] == a.take(i)[0] && b[0] == b.take(i)[0]);
        assert(a.drop_first().take(i - 1) =~= a.take(i).drop_first());
        assert(b.drop_first().take(i - 1) =~= b.take(i).drop_first());
        lemma_bytes_le_first_difference(a.drop_first(), b.drop_first(), i - 1);
    }
}

/// The order of names is the order of `str`: compare the UTF-8 encodings byte by
/// byte as unsigned numbers; at the first byte where they differ the smaller
/// byte comes first, and a name that is a prefix of the other comes first.
pub proof fn lemma_name_le_bytes(a: Seq<char>, b: Seq<char>, i: int)
    requires
        0 <= i <= encode_utf8(a).len(),
        i <= encode_utf8(b).len(),
        encode_utf8(a).take(i) == encode_utf8(b).take(i),
    ensures
        i == encode_utf8(a).len() ==> name_le(a, b),
        i == encode_utf8(b).len() && i < encode_utf8(a).len() ==> !name_le(a, b),
        i < encode_utf8(a).len() && i < encode_utf8(b).len() && encode_utf8(a)[i]
            != encode_utf8(b)[i] ==> (name_le(a, b) <==> encode_utf8(a)[i] < encode_utf8(b)[i]),
{
    lemma_bytes_le_first_difference(encode_utf8(a), encode_utf8(b), i);
}

/// The name order is total.
pub proof fn lemma_name_le_total(a: Seq<char>, b: Seq<char>)
    ensures
        name_le(a, b) || name_le(b, a),
{
    lemma_bytes_le_total(encode_utf8(a), encode_utf8(b));
}

/// The name order is transitive.
pub proof fn lemma_name_le_trans(a: Seq<char>, b: Seq<char>, c: Seq<char>)
    requires
        name_le(a, b),
        name_le(b, c),
    ensures
        name_le(a, c),
{
    lemma_bytes_le_trans(encode_utf8(a), encode_utf8(b), encode_utf8(c));
}

/// Two names each not greater than the other are equal.
pub proof fn lemma_name_le_antisym(a: Seq<char>, b: Seq<char>)
    requires
        name_le(a, b),
        name_le(b, a),
    ensures
        a == b,
{
    lemma_bytes_le_antisym(encode_utf8(a), encode_utf8(b));
    vstd::utf8::encode_utf8_decode_utf8(a);
    vstd::utf8::encode_utf8_decode_utf8(b);
}

/// What the insertion point is: elements before it are not greater than `x`
/// (the one just before it compares so), elements from it on are greater.
proof fn lemma_insertion_point(s: Seq<ParamView>, x: ParamView)
    ensures
        0 <= insertion_point(s, x) <= s.len(),
        insertion_point(s, x) > 0 ==> name_le(s[insertion_point(s, x) - 1].0, x.0),
        forall|i: int|
            insertion_point(s, x) <= i < s.len() ==> !name_le(#[trigger] s[i].0, x.0),
    decreases s.len(),
{
    if s.len() > 0 && !name_le(s.last().0, x.0) {
        lemma_insertion_point(s.drop_last(), x);
        assert forall|i: int| insertion_point(s, x) <= i < s.len() implies !name_le(
            #[trigger] s[i].0,
            x.0,
        ) by {
            if i < s.len() - 1 {
                assert(s[i] == s.drop_last()[i]);
            }
        }
    }
}

/// Inserting at the insertion point keeps a sequence sorted.
proof fn lemma_insert_sorted(s: Seq<ParamView>, x: ParamView)
    requires
        sorted_by_name(s),
    ensures
        sorted_by_name(s.insert(insertion_point(s, x), x)),
{
    let p = insertion_point(s, x);
    lemma_insertion_point(s, x);
    let r = s.insert(p, x);
    assert forall|i: int, j: int| 0 <= i < j < r.len() implies name_le(
        #[trigger] r[i].0,
        #[trigger] r[j].0,
    ) by {
        if j < p {
            assert(r[i] == s[i] && r[j] == s[j]);
        } else if j == p {
            assert(r[i] == s[i]);
            if i < p - 1 {
                lemma_name_le_trans(s[i].0, s[p - 1].0, x.0);
            }
        } else if i < p {
            assert(r[i] == s[i] && r[j] == s[j - 1]);
        } else if i == p {
            assert(r[j] == s[j - 1]);
            lemma_name_le_total(s[j - 1].0, x.0);
        } else {
            assert(r[i] == s[i - 1] && r[j] == s[j - 1]);
        }
    }
}

/// The result of sorting is in ascending name order.
pub proof fn lemma_sort_by_name_sorted(s: Seq<ParamView>)
    ensures
        sorted_by_name(sort_by_name(s)),
    decreases s.len(),
{
    if s.len() > 0 {
        lemma_sort_by_name_sorted(s.drop_last());
        lemma_insert_sorted(sort_by_name(s.drop_last()), s.last());
    }
}

/// Sorting keeps every parameter, as often as it occurs.
pub proof fn lemma_sort_by_name_permutes(s: Seq<ParamView>)
    ensures
        sort_by_name(s).to_multiset() == s.to_multiset(),
    decreases s.len(),
{
    broadcast use vstd::seq_lib::group_to_multiset_ensures;

    if s.len() > 0 {
        lemma_sort_by_name_permutes(s.drop_last());
        let r = sort_by_name(s.drop_last());
        lemma_insertion_point(r, s.last());
        vstd::seq_lib::to_multiset_insert(r, insertion_point(r, s.last()), s.last());
        assert(s.drop_last().push(s.last()) =~= s);
    }
}

/// No two parameters share a name.
pub open spec fn names_distinct(s: Seq<ParamView>) -> bool {
    forall|i: int, j: int| 0 <= i < j < s.len() ==> #[trigger] s[i].0 != #[trigger] s[j].0
}

/// Parameters of a multiset that share a name are the same parameter.
spec fn distinct_names_in(m: Multiset<ParamView>) -> bool {
    forall|x: ParamView, y: ParamView|
        #![trigger m.count(x), m.count(y)]
        m.count(x) > 0 && m.count(y) > 0 && x.0 == y.0 ==> x == y
}

proof fn lemma_distinct_names_in(s: Seq<ParamView>)
    requires
        names_distinct(s),
    ensures
        distinct_names_in(s.to_multiset()),
{
    broadcast use vstd::seq_lib::group_to_multiset_ensures;

    let m = s.to_multiset();
    assert forall|x: ParamView, y: ParamView|
        m.count(x) > 0 && m.count(y) > 0 && x.0 == y.0 implies x == y by {
        assert(s.contains(x));
        assert(s.contains(y));
        let i = choose|i: int| 0 <= i < s.len() && s[i] == x;
        let j = choose|j: int| 0 <= j < s.len() && s[j] == y;
        if i < j {
            assert(s[i].0 != s[j].0);
        } else if j < i {
            assert(s[j].0 != s[i].0);
        }
    }
}

/// Two sequences sorted by name, holding the same parameters, where parameters
/// that share a name are the same, are equal.
proof fn lemma_sorted_unique(a: Seq<ParamView>, b: Seq<ParamView>)
    requires
        sorted_by_name(a),
        sorted_by_name(b),
        a.to_multiset() == b.to_multiset(),
        distinct_names_in(a.to_multiset()),
    ensures
        a == b,
    decreases a.len(),
{
    broadcast use vstd::seq_lib::group_to_multiset_ensures;
    broadcast use vstd::multiset::group_multiset_axioms;

    let m = a.to_multiset();
    assert(a.len() == m.len() && b.len() == m.len());
    if a.len() == 0 {
        assert(a =~= b);
    } else {
        let x = a.last();
        let y = b.last();
        assert(a.drop_last().push(x) =~= a);
        assert(b.drop_last().push(y) =~= b);
        assert(m.count(x) > 0);
        assert(b.contains(x));
        let j = choose|j: int| 0 <= j < b.len() && b[j] == x;
        assert(m.count(y) > 0);
        assert(a.contains(y));
        let i = choose|i: int| 0 <= i < a.len() && a[i] == y;
        if j < b.len() - 1 {
            assert(name_le(b[j].0, b[b.len() - 1].0));
        } else {
            lemma_bytes_le_total(encode_utf8(x.0), encode_utf8(x.0));
        }
        if i < a.len() - 1 {
            assert(name_le(a[i].0, a[a.len() - 1].0));
        } else {
            lemma_bytes_le_total(encode_utf8(y.0), encode_utf8(y.0));
        }
        lemma_name_le_antisym(x.0, y.0);
        assert(x == y);
        let a2 = a.drop_last();
        let b2 = b.drop_last();
        assert(a2.to_multiset() =~= m.remove(x));
        assert(b2.to_multiset() =~= m.remove(x));
        assert forall|u: ParamView, v: ParamView|
            #![trigger a2.to_multiset().count(u), a2.to_multiset().count(v)]
            a2.to_multiset().count(u) > 0 && a2.to_multiset().count(v) > 0 && u.0 == v.0 implies u
            == v by {
            assert(m.count(u) > 0 && m.count(v) > 0);
        }
        assert(sorted_by_name(a2)) by {
            assert forall|p: int, q: int| 0 <= p < q < a2.len() implies name_le(
                #[trigger] a2[p].0,
                #[trigger] a2[q].0,
            ) by {
                assert(a2[p] == a[p] && a2[q] == a[q]);
            }
        }
        assert(sorted_by_name(b2)) by {
            assert forall|p: int, q: int| 0 <= p < q < b2.len() implies name_le(
                #[trigger] b2[p].0,
                #[trigger] b2[q].0,
            ) by {
                assert(b2[p] == b[p] && b2[q] == b[q]);
            }
        }
        lemma_sorted_unique(a2, b2);
    }
}

/// Where no two parameters share a name, the order in which the parameters
/// are given does not matter: any reordering sorts to the same sequence.
pub proof fn lemma_sort_order_independent(s1: Seq<ParamView>, s2: Seq<ParamView>)
    requires
        s1.to_multiset() == s2.to_multiset(),
        names_distinct(s1),
    ensures
        sort_by_name(s1) == sort_by_name(s2),
{
    lemma_sort_by_name_sorted(s1);
    lemma_sort_by_name_sorted(s2);
    lemma_sort_by_name_permutes(s1);
    lemma_sort_by_name_permutes(s2);
    lemma_distinct_names_in(s1);
    lemma_sorted_unique(sort_by_name(s1), sort_by_name(s2));
}

/// The parameters named `name`, in their order.
pub open spec fn with_name(s: Seq<ParamView>, name: Seq<char>) -> Seq<ParamView>
    decreases s.len(),
{
    if s.len() == 0 {
        Seq::empty()
    } else if s.last().0 == name {
        with_name(s.drop_last(), name).push(s.last())
    } else {
        with_name(s.drop_last(), name)
    }
}

/// Two orders of the same parameters that keep the parameters of each name in
/// the same relative order.
pub open spec fn same_per_name(s1: Seq<ParamView>, s2: Seq<ParamView>) -> bool {
    forall|name: Seq<char>| #[trigger] with_name(s1, name) == with_name(s2, name)
}

proof fn lemma_with_name_concat(a: Seq<ParamView>, b: Seq<ParamView>, name: Seq<char>)
    ensures
        with_name(a + b, name) == with_name(a, name) + with_name(b, name),
    decreases b.len(),
{
    if b.len() == 0 {
        assert(a + b =~= a);
        assert(with_name(a, name) + with_name(b, name) =~= with_name(a, name));
    } else {
        lemma_with_name_concat(a, b.drop_last(), name);
        assert((a + b).drop_last() =~= a + b.drop_last());
        if b.last().0 == name {
            assert(with_name(a, name) + with_name(b.drop_last(), name).push(b.last()) =~= (with_name(
                a,
                name,
            ) + with_name(b.drop_last(), name)).push(b.last()));
        }
    }
}

proof fn lemma_with_name_none(s: Seq<ParamView>, name: Seq<char>)
    requires
        forall|i: int| 0 <= i < s.len() ==> #[trigger] s[i].0 != name,
    ensures
        with_name(s, name) == Seq::<ParamView>::empty(),
    decreases s.len(),
{
    if s.len() > 0 {
        lemma_with_name_none(s.drop_last(), name);
    }
}

proof fn lemma_with_name_nonempty(s: Seq<ParamView>, name: Seq<char>)
    requires
        with_name(s, name).len() > 0,
    ensures
        exists|i: int| 0 <= i < s.len() && #[trigger] s[i].0 == name,
    decreases s.len(),
{
    if s.last().0 != name {
        lemma_with_name_nonempty(s.drop_last(), name);
        let i = choose|i: int| 0 <= i < s.drop_last().len() && #[trigger] s.drop_last()[i].0 == name;
        assert(s[i].0 == name);
    } else {
        assert(s[s.len() - 1].0 == name);
    }
}

/// Inserting `x` at its insertion point puts it after every parameter of its name.
proof fn lemma_with_name_insert(r: Seq<ParamView>, x: ParamView, name: Seq<char>)
    ensures
        with_name(r.insert(insertion_point(r, x), x), name) == (if x.0 == name {
            with_name(r, name).push(x)
        } else {
            with_name(r, name)
        }),
{
    let p = insertion_point(r, x);
    lemma_insertion_point(r, x);
    let t = r.take(p);
    let k = r.skip(p);
    assert(r.insert(p, x) =~= t + (seq![x] + k));
    assert(r =~= t + k);
    lemma_with_name_concat(t, seq![x] + k, name);
    lemma_with_name_concat(seq![x], k, name);
    lemma_with_name_concat(t, k, name);
    assert(seq![x].drop_last() =~= Seq::<ParamView>::empty());
    assert(with_name(Seq::<ParamView>::empty(), name) == Seq::<ParamView>::empty());
    assert(seq![x].last() == x);
    let wt = with_name(t, name);
    let wk = with_name(k, name);
    if x.0 == name {
        assert forall|i: int| 0 <= i < k.len() implies #[trigger] k[i].0 != name by {
            assert(k[i] == r[p + i]);
            lemma_bytes_le_total(encode_utf8(x.0), encode_utf8(x.0));
        }
        lemma_with_name_none(k, name);
        assert(with_name(seq![x], name) =~= seq![x]);
        assert(wt + (seq![x] + wk) =~= (wt + wk).push(x));
    } else {
        assert(with_name(seq![x], name) == Seq::<ParamView>::empty());
        assert(wt + (Seq::<ParamView>::empty() + wk) =~= wt + wk);
    }
}

/// Sorting keeps the parameters of each name in their order.
pub proof fn lemma_sort_by_name_stable(s: Seq<ParamView>, name: Seq<char>)
    ensures
        with_name(sort_by_name(s), name) == with_name(s, name),
    decreases s.len(),
{
    if s.len() > 0 {
        lemma_sort_by_name_stable(s.drop_last(), name);
        lemma_with_name_insert(sort_by_name(s.drop_last()), s.last(), name);
    }
}

/// Two sequences sorted by name with the same parameters of each name, in the
/// same order, are equal.
proof fn lemma_sorted_unique_per_name(a: Seq<ParamView>, b: Seq<ParamView>)
    requires
        sorted_by_name(a),
        sorted_by_name(b),
        same_per_name(a, b),
    ensures
        a == b,
    decreases a.len() + b.len(),
{
    if a.len() == 0 && b.len() == 0 {
        assert(a =~= b);
    } else if a.len() == 0 {
        assert(with_name(b, b.last().0).len() > 0);
        assert(with_name(a, b.last().0) == with_name(b, b.last().0));
    } else if b.len() == 0 {
        assert(with_name(a, a.last().0).len() > 0);
        assert(with_name(a, a.last().0) == with_name(b, a.last().0));
    } else {
        let x = a.last();
        let y = b.last();
        assert(with_name(a, x.0) == with_name(b, x.0));
        assert(with_name(a, y.0) == with_name(b, y.0));
        lemma_with_name_nonempty(b, x.0);
        lemma_with_name_nonempty(a, y.0);
        let j = choose|j: int| 0 <= j < b.len() && #[trigger] b[j].0 == x.0;
        let i = choose|i: int| 0 <= i < a.len() && #[trigger] a[i].0 == y.0;
        if j < b.len() - 1 {
            assert(name_le(b[j].0, b[b.len() - 1].0));
        } else {
            lemma_bytes_le_total(encode_utf8(x.0), encode_utf8(x.0));
        }
        if i < a.len() - 1 {
            assert(name_le(a[i].0, a[a.len() - 1].0));
        } else {
            lemma_bytes_le_total(encode_utf8(y.0), encode_utf8(y.0));
        }
        lemma_name_le_antisym(x.0, y.0);
        assert(with_name(a, x.0).last() == x);
        assert(with_name(b, x.0).last() == y);
        let a2 = a.drop_last();
        let b2 = b.drop_last();
        assert forall|name: Seq<char>| #[trigger] with_name(a2, name) == with_name(b2, name) by {
            assert(with_name(a, name) == with_name(b, name));
            if name == x.0 {
                assert(with_name(a2, name) =~= with_name(a, name).drop_last());
                assert(with_name(b2, name) =~= with_name(b, name).drop_last());
            }
        }
        assert(sorted_by_name(a2)) by {
            assert forall|p: int, q: int| 0 <= p < q < a2.len() implies name_le(
                #[trigger] a2[p].0,
                #[trigger] a2[q].0,
            ) by {
                assert(a2[p] == a[p] && a2[q] == a[q]);
            }
        }
        assert(sorted_by_name(b2)) by {
            assert forall|p: int, q: int| 0 <= p < q < b2.len() implies name_le(
                #[trigger] b2[p].0,
                #[trigger] b2[q].0,
            ) by {
                assert(b2[p] == b[p] && b2[q] == b[q]);
            }
        }
        lemma_sorted_unique_per_name(a2, b2);
        assert(a2.push(x) =~= a);
        assert(b2.push(y) =~= b);
    }
}

/// Reordering the parameters in any way that keeps the parameters of each name
/// in their relative order (any reordering at all where names are distinct)
/// does not change the sorted sequence.
pub proof fn lemma_sort_stable_order_independent(s1: Seq<ParamView>, s2: Seq<ParamView>)
    requires
        same_per_name(s1, s2),
    ensures
        sort_by_name(s1) == sort_by_name(s2),
{
    lemma_sort_by_name_sorted(s1);
    lemma_sort_by_name_sorted(s2);
    assert forall|name: Seq<char>| #[trigger] with_name(sort_by_name(s1), name) == with_name(
        sort_by_name(s2),
        name,
    ) by {
        lemma_sort_by_name_stable(s1, name);
        lemma_sort_by_name_stable(s2, name);
        assert(with_name(s1, name) == with_name(s2, name));
    }
    lemma_sorted_unique_per_name(sort_by_name(s1), sort_by_name(s2));
}

/// `name_le(a@, b@)`: compares two names by their UTF-8 bytes.
pub fn str_le(a: &str, b: &str) -> (r: bool)
    ensures
        r == name_le(a@, b@),
{
    let ab = a.as_bytes();
    let bb = b.as_bytes();
    let mut i: usize = 0;
    assert(ab@.skip(0) =~= ab@);
    assert(bb@.skip(0) =~= bb@);
    while i < ab.len() && i < bb.len() && ab[i] == bb[i]
        invariant
            i <= ab@.len(),
            i <= bb@.len(),
            bytes_le(ab@, bb@) == bytes_le(ab@.skip(i as int), bb@.skip(i as int)),
        decreases ab@.len() - i,
    {
        assert(ab@.skip(i as int).drop_first() =~= ab@.skip(i + 1));
        assert(bb@.skip(i as int).drop_first() =~= bb@.skip(i + 1));
        i = i + 1;
    }
    if i == ab.len() {
        true
    } else if i == bb.len() {
        false
    } else {
        ab[i] < bb[i]
    }
}

/// Orders the parameters by name as a stable sort does.
pub fn sort_params_by_name<'a>(params: &Vec<(&'a str, &'a str)>) -> (sorted: Vec<(&'a str, &'a str)>)
    ensures
        str_param_views(sorted@) == sort_by_name(str_param_views(params@)),
{
    let ghost pv = str_param_views(params@);
    let mut out: Vec<(&'a str, &'a str)> = Vec::new();
    let mut k: usize = 0;
    assert(pv.take(0) =~= Seq::<ParamView>::empty());
    assert(str_param_views(out@) =~= Seq::<ParamView>::empty());
    while k < params.len()
        invariant
            k <= params@.len(),
            pv == str_param_views(params@),
            str_param_views(out@) == sort_by_name(pv.take(k as int)),
        decreases params@.len() - k,
    {
        let x = params[k];
        let ghost ov = str_param_views(out@);
        let ghost xv = (x.0@, x.1@);
        let mut j: usize = out.len();
        assert(ov.take(j as int) =~= ov);
        while j > 0 && !str_le(out[j - 1].0, x.0)
            invariant
                j <= out@.len(),
                ov == str_param_views(out@),
                xv == (x.0@, x.1@),
                insertion_point(ov, xv) == insertion_point(ov.take(j as int), xv),
            decreases j,
        {
            assert(ov.take(j as int).drop_last() =~= ov.take(j - 1));
            j = j - 1;
        }
        assert(insertion_point(ov, xv) == j);
        out.insert(j, x);
        assert(pv.take(k + 1).drop_last() =~= pv.take(k as int));
        assert(pv.take(k + 1).last() == xv);
        assert(str_param_views(out@) =~= ov.insert(j as int, xv));
        k = k + 1;
    }
    assert(pv.take(k as int) =~= pv);
    out
}

} // verus!
