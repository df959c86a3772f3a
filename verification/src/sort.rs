//! Stable ordering by an integer key.
//!
//! A stable sort is stated without reference to any algorithm: the output is
//! ordered by the key, and for every key value the items carrying that key
//! appear in the output exactly as they appear in the input. These two
//! properties determine the output uniquely (`lemma_stable_sort_unique`).
use vstd::prelude::*;

verus! {

broadcast use vstd::seq_lib::group_seq_properties;

/// The items of `s` are in non-decreasing key order.
pub open spec fn sorted_by<V>(s: Seq<V>, key: spec_fn(V) -> int) -> bool {
    forall|i: int, j: int| 0 <= i < j < s.len() ==> key(s[i]) <= key(s[j])
}

/// The predicate "carries key `k`".
pub open spec fn has_key<V>(key: spec_fn(V) -> int, k: int) -> spec_fn(V) -> bool {
    |x: V| key(x) == k
}

/// For every key value, `a` and `b` hold the same items with that key, in
/// the same order.
pub open spec fn same_key_groups<V>(a: Seq<V>, b: Seq<V>, key: spec_fn(V) -> int) -> bool {
    forall|k: int| #[trigger] a.filter(has_key(key, k)) == b.filter(has_key(key, k))
}

/// `output` is the stable sort of `input` by `key`.
pub open spec fn is_stable_sort<V>(input: Seq<V>, key: spec_fn(V) -> int, output: Seq<V>) -> bool {
    &&& sorted_by(output, key)
    &&& same_key_groups(input, output, key)
}

/// The stable sort of `input` by `key` (unique by `lemma_stable_sort_unique`,
/// and it exists: `sort_by_keys` computes it).
pub open spec fn stable_sorted<V>(input: Seq<V>, key: spec_fn(V) -> int) -> Seq<V> {
    choose|output: Seq<V>| is_stable_sort(input, key, output)
}

/// Filtering a sequence none of whose items satisfy the predicate gives
/// the empty sequence.
pub proof fn lemma_filter_none<V>(s: Seq<V>, p: spec_fn(V) -> bool)
    requires
        forall|i: int| 0 <= i < s.len() ==> !p(s[i]),
    ensures
        s.filter(p) == Seq::<V>::empty(),
    decreases s.len(),
{
    reveal(Seq::filter);
    if s.len() > 0 {
        lemma_filter_none(s.drop_last(), p);
    }
}

proof fn lemma_filter_nonempty<V>(s: Seq<V>, p: spec_fn(V) -> bool, i: int)
    requires
        0 <= i < s.len(),
        p(s[i]),
    ensures
        s.filter(p).len() > 0,
{
    s.lemma_filter_contains(p, i);
}

proof fn lemma_filter_has_witness<V>(s: Seq<V>, p: spec_fn(V) -> bool)
    requires
        s.filter(p).len() > 0,
    ensures
        exists|i: int| 0 <= i < s.len() && p(s[i]),
{
    let x = s.filter(p)[0];
    s.lemma_filter_pred(p, 0);
    assert(s.filter(p).contains(x));
    s.lemma_filter_contains_rev(p, x);
}

/// Swapping two neighbours with different keys keeps every key group.
proof fn lemma_swap_keeps_groups<V>(s: Seq<V>, j: int, key: spec_fn(V) -> int)
    requires
        0 < j < s.len(),
        key(s[j - 1]) != key(s[j]),
    ensures
        same_key_groups(s, s.update(j - 1, s[j]).update(j, s[j - 1]), key),
{
    let t = s.update(j - 1, s[j]).update(j, s[j - 1]);
    let a = s.take(j - 1);
    let b = s.skip(j + 1);
    let x = s[j - 1];
    let y = s[j];
    assert(s =~= a + seq![x, y] + b);
    assert(t =~= a + seq![y, x] + b);
    assert forall|k: int| #[trigger] s.filter(has_key(key, k)) == t.filter(has_key(key, k)) by {
        let p = has_key(key, k);
        reveal_with_fuel(Seq::filter, 3);
        assert(seq![x, y].drop_last() =~= seq![x]);
        assert(seq![y, x].drop_last() =~= seq![y]);
        assert(seq![x].drop_last() =~= Seq::<V>::empty());
        assert(seq![y].drop_last() =~= Seq::<V>::empty());
        assert(seq![x, y].filter(p) =~= seq![y, x].filter(p));
        Seq::filter_distributes_over_add(a + seq![x, y], b, p);
        Seq::filter_distributes_over_add(a, seq![x, y], p);
        Seq::filter_distributes_over_add(a + seq![y, x], b, p);
        Seq::filter_distributes_over_add(a, seq![y, x], p);
    }
}

/// Two sequences that are both ordered by `key` and hold the same key
/// groups are equal.
pub proof fn lemma_sorted_groups_equal<V>(a: Seq<V>, b: Seq<V>, key: spec_fn(V) -> int)
    requires
        sorted_by(a, key),
        sorted_by(b, key),
        same_key_groups(a, b, key),
    ensures
        a == b,
    decreases a.len(),
{
    if a.len() == 0 {
        if b.len() > 0 {
            let p = has_key(key, key(b[0]));
            lemma_filter_nonempty(b, p, 0);
            lemma_filter_none(a, p);
            assert(a.filter(p) == b.filter(p));
        }
        assert(a =~= b);
    } else if b.len() == 0 {
        let p = has_key(key, key(a[0]));
        lemma_filter_nonempty(a, p, 0);
        lemma_filter_none(b, p);
        assert(a.filter(p) == b.filter(p));
    } else {
        let m = key(a[0]);
        let pm = has_key(key, m);
        let pb = has_key(key, key(b[0]));
        // the first keys agree
        lemma_filter_nonempty(a, pm, 0);
        assert(a.filter(pm) == b.filter(pm));
        lemma_filter_has_witness(b, pm);
        lemma_filter_nonempty(b, pb, 0);
        assert(a.filter(pb) == b.filter(pb));
        lemma_filter_has_witness(a, pb);
        assert(key(b[0]) == m);
        // the first items agree
        let a1 = a.drop_first();
        let b1 = b.drop_first();
        assert(a =~= seq![a[0]] + a1);
        assert(b =~= seq![b[0]] + b1);
        a1.lemma_filter_prepend(a[0], pm);
        b1.lemma_filter_prepend(b[0], pm);
        assert(a.filter(pm)[0] == a[0]);
        assert(b.filter(pm)[0] == b[0]);
        assert(a[0] == b[0]);
        // the rests hold the same groups
        assert forall|k: int| #[trigger] a1.filter(has_key(key, k)) == b1.filter(has_key(key, k)) by {
            let p = has_key(key, k);
            a1.lemma_filter_prepend(a[0], p);
            b1.lemma_filter_prepend(b[0], p);
            assert(a.filter(p) == b.filter(p));
            if k == m {
                assert(a1.filter(p) =~= a.filter(p).drop_first());
                assert(b1.filter(p) =~= b.filter(p).drop_first());
            } else {
                assert(a1.filter(p) =~= a.filter(p));
                assert(b1.filter(p) =~= b.filter(p));
            }
        }
        assert(sorted_by(a1, key)) by {
            assert forall|i: int, j: int| 0 <= i < j < a1.len() implies key(a1[i]) <= key(a1[j]) by {
                assert(a1[i] == a[i + 1] && a1[j] == a[j + 1]);
            }
        }
        assert(sorted_by(b1, key)) by {
            assert forall|i: int, j: int| 0 <= i < j < b1.len() implies key(b1[i]) <= key(b1[j]) by {
                assert(b1[i] == b[i + 1] && b1[j] == b[j + 1]);
            }
        }
        lemma_sorted_groups_equal(a1, b1, key);
        assert(a =~= b);
    }
}

/// The stable sort of a sequence by a key is unique: two outputs that are
/// both ordered by the key and keep every key group of the input are equal.
pub proof fn lemma_stable_sort_unique<V>(
    input: Seq<V>,
    key: spec_fn(V) -> int,
    a: Seq<V>,
    b: Seq<V>,
)
    requires
        is_stable_sort(input, key, a),
        is_stable_sort(input, key, b),
    ensures
        a == b,
{
    assert forall|k: int| #[trigger] a.filter(has_key(key, k)) == b.filter(has_key(key, k)) by {
        assert(input.filter(has_key(key, k)) == a.filter(has_key(key, k)));
        assert(input.filter(has_key(key, k)) == b.filter(has_key(key, k)));
    }
    lemma_sorted_groups_equal(a, b, key);
}

/// Any stable sort of `input` is `stable_sorted(input, key)`.
pub proof fn lemma_stable_sorted_is<V>(input: Seq<V>, key: spec_fn(V) -> int, output: Seq<V>)
    requires
        is_stable_sort(input, key, output),
    ensures
        stable_sorted(input, key) == output,
        is_stable_sort(input, key, stable_sorted(input, key)),
{
    lemma_stable_sort_unique(input, key, stable_sorted(input, key), output);
}

/// The stable sort of the empty sequence is empty.
pub proof fn lemma_stable_sorted_empty<V>(key: spec_fn(V) -> int)
    ensures
        stable_sorted(Seq::<V>::empty(), key) == Seq::<V>::empty(),
{
    reveal(Seq::filter);
    assert(is_stable_sort(Seq::<V>::empty(), key, Seq::<V>::empty()));
    lemma_stable_sorted_is(Seq::<V>::empty(), key, Seq::<V>::empty());
}

/// How many items at the front of `s` have a key of at most `k`.
pub open spec fn leading_at_most<V>(s: Seq<V>, key: spec_fn(V) -> int, k: int) -> nat
    decreases s.len(),
{
    if s.len() > 0 && key(s[0]) <= k {
        1 + leading_at_most(s.drop_first(), key, k)
    } else {
        0
    }
}

proof fn lemma_leading_at_most<V>(s: Seq<V>, key: spec_fn(V) -> int, k: int)
    requires
        sorted_by(s, key),
    ensures
        leading_at_most(s, key, k) <= s.len(),
        forall|i: int| 0 <= i < leading_at_most(s, key, k) ==> key(#[trigger] s[i]) <= k,
        forall|i: int| leading_at_most(s, key, k) <= i < s.len() ==> key(#[trigger] s[i]) > k,
    decreases s.len(),
{
    if s.len() > 0 && key(s[0]) <= k {
        let d = s.drop_first();
        assert(sorted_by(d, key)) by {
            assert forall|i: int, j: int| 0 <= i < j < d.len() implies key(d[i]) <= key(d[j]) by {
                assert(d[i] == s[i + 1] && d[j] == s[j + 1]);
            }
        }
        lemma_leading_at_most(d, key, k);
        let p = leading_at_most(s, key, k);
        assert forall|i: int| 0 <= i < p implies key(#[trigger] s[i]) <= k by {
            if i > 0 {
                assert(s[i] == d[i - 1]);
            }
        }
        assert forall|i: int| p <= i < s.len() implies key(#[trigger] s[i]) > k by {
            assert(s[i] == d[i - 1]);
        }
    } else if s.len() > 0 {
        assert forall|i: int| 0 <= i < s.len() implies key(#[trigger] s[i]) > k by {
            if i > 0 {
                assert(key(s[0]) <= key(s[i]));
            }
        }
    }
}

/// Inserting a new last input item after the items with a key of at most
/// its own keeps a stable sort.
proof fn lemma_insert_keeps_stable_sort<V>(input: Seq<V>, key: spec_fn(V) -> int, o: Seq<V>, x: V)
    requires
        is_stable_sort(input, key, o),
    ensures
        is_stable_sort(input.push(x), key, o.insert(leading_at_most(o, key, key(x)) as int, x)),
{
    let p = leading_at_most(o, key, key(x)) as int;
    lemma_leading_at_most(o, key, key(x));
    let o2 = o.insert(p, x);
    o.insert_ensures(p, x);
    assert forall|i: int, j: int| 0 <= i < j < o2.len() implies key(o2[i]) <= key(o2[j]) by {
        if j < p {
        } else if j == p {
        } else if i < p {
            assert(o2[j] == o[j - 1]);
        } else if i == p {
            assert(o2[j] == o[j - 1]);
        } else {
            assert(o2[i] == o[i - 1] && o2[j] == o[j - 1]);
        }
    }
    let a = o.subrange(0, p);
    let b = o.subrange(p, o.len() as int);
    assert(o =~= a + b);
    assert(o2 =~= a.push(x) + b);
    assert forall|k: int| #[trigger] input.push(x).filter(has_key(key, k)) == o2.filter(has_key(key, k)) by {
        let pk = has_key(key, k);
        reveal(Seq::filter);
        assert(input.push(x).drop_last() =~= input);
        assert(a.push(x).drop_last() =~= a);
        Seq::filter_distributes_over_add(a.push(x), b, pk);
        Seq::filter_distributes_over_add(a, b, pk);
        assert(input.filter(pk) == o.filter(pk));
        if k == key(x) {
            lemma_filter_none(b, pk);
            assert(b.filter(pk) =~= Seq::<V>::empty());
            assert(a.filter(pk) + b.filter(pk) =~= a.filter(pk));
            assert(a.filter(pk).push(x) + b.filter(pk) =~= a.filter(pk).push(x));
        }
    }
}

/// Every sequence has a stable sort by any key.
pub proof fn lemma_stable_sort_exists<V>(input: Seq<V>, key: spec_fn(V) -> int)
    ensures
        is_stable_sort(input, key, stable_sorted(input, key)),
    decreases input.len(),
{
    if input.len() == 0 {
        lemma_stable_sorted_empty(key);
        reveal(Seq::filter);
        assert(is_stable_sort(input, key, Seq::<V>::empty()));
        lemma_stable_sorted_is(input, key, Seq::<V>::empty());
    } else {
        let init = input.drop_last();
        lemma_stable_sort_exists(init, key);
        let o = stable_sorted(init, key);
        lemma_insert_keeps_stable_sort(init, key, o, input.last());
        assert(init.push(input.last()) =~= input);
        let w = o.insert(leading_at_most(o, key, key(input.last())) as int, input.last());
        lemma_stable_sorted_is(input, key, w);
    }
}

proof fn lemma_count_through_filter<V>(s: Seq<V>, p: spec_fn(V) -> bool, x: V)
    requires
        p(x),
    ensures
        s.filter(p).to_multiset().count(x) == s.to_multiset().count(x),
    decreases s.len(),
{
    reveal(Seq::filter);
    if s.len() > 0 {
        let d = s.drop_last();
        lemma_count_through_filter(d, p, x);
        assert(d.push(s.last()) =~= s);
        d.to_multiset_ensures();
        d.filter(p).to_multiset_ensures();
    }
}

/// A stable sort holds the same items as its input, as many times each.
pub proof fn lemma_stable_sort_same_items<V>(input: Seq<V>, key: spec_fn(V) -> int, output: Seq<V>)
    requires
        is_stable_sort(input, key, output),
    ensures
        output.to_multiset() == input.to_multiset(),
{
    assert forall|x: V| #[trigger] output.to_multiset().count(x) == input.to_multiset().count(x) by {
        let p = has_key(key, key(x));
        lemma_count_through_filter(output, p, x);
        lemma_count_through_filter(input, p, x);
        assert(output.filter(p) == input.filter(p));
    }
    assert(output.to_multiset() =~= input.to_multiset());
}

/// Under a key that gives every item the same value, the stable sort keeps
/// the input order.
pub proof fn lemma_constant_key_keeps_order<V>(input: Seq<V>, key: spec_fn(V) -> int, c: int)
    requires
        forall|x: V| #[trigger] key(x) == c,
    ensures
        stable_sorted(input, key) == input,
{
    assert(is_stable_sort(input, key, input));
    lemma_stable_sorted_is(input, key, input);
}

/// Calls `<[T]>::swap`, which exchanges two items of a slice.
#[verifier::external_body]
fn swap_items<T>(items: &mut [T], i: usize, j: usize)
    requires
        i < old(items)@.len(),
        j < old(items)@.len(),
    ensures
        final(items)@ == old(items)@.update(i as int, old(items)@[j as int]).update(
            j as int,
            old(items)@[i as int],
        ),
{
    items.swap(i, j)
}

/// Sorts `items` stably by the keys in `keys` (one per item), moving the
/// keys along with their items.
pub fn sort_by_keys<T: DeepView>(
    items: &mut [T],
    keys: &mut Vec<u128>,
    Ghost(key): Ghost<spec_fn(T::V) -> int>,
)
    requires
        old(keys)@.len() == old(items)@.len(),
        forall|i: int|
            0 <= i < old(items)@.len() ==> old(keys)@[i] as int == key(
                #[trigger] old(items)@[i].deep_view(),
            ),
    ensures
        final(items)@.len() == old(items)@.len(),
        is_stable_sort(old(items).deep_view(), key, final(items).deep_view()),
{
    let ghost input = items.deep_view();
    let n = items.len();
    assert(same_key_groups(input, items.deep_view(), key));
    if n == 0 {
        return ;
    }
    let mut i: usize = 1;
    while i < n
        invariant
            1 <= i <= n,
            n == items@.len(),
            keys@.len() == n,
            forall|x: int| 0 <= x < n ==> keys@[x] as int == key(#[trigger] items@[x].deep_view()),
            forall|x: int, y: int| 0 <= x < y < i ==> keys@[x] <= keys@[y],
            same_key_groups(input, items.deep_view(), key),
        decreases n - i,
    {
        let mut j: usize = i;
        while j > 0 && keys[j - 1] > keys[j]
            invariant
                1 <= i < n,
                j <= i,
                n == items@.len(),
                keys@.len() == n,
                forall|x: int|
                    0 <= x < n ==> keys@[x] as int == key(#[trigger] items@[x].deep_view()),
                forall|x: int, y: int|
                    0 <= x < y <= i && x != j && y != j ==> keys@[x] <= keys@[y],
                forall|y: int| j < y <= i ==> keys@[j as int] < keys@[y],
                same_key_groups(input, items.deep_view(), key),
            decreases j,
        {
            let ghost before = items.deep_view();
            proof {
                lemma_swap_keeps_groups(before, j as int, key);
            }
            swap_items(items, j - 1, j);
            let kj = keys[j];
            let kp = keys[j - 1];
            keys.set(j, kp);
            keys.set(j - 1, kj);
            assert(items.deep_view() =~= before.update(j - 1, before[j as int]).update(
                j as int,
                before[j - 1],
            ));
            assert forall|k: int| #[trigger]
                input.filter(has_key(key, k)) == items.deep_view().filter(has_key(key, k)) by {
                assert(input.filter(has_key(key, k)) == before.filter(has_key(key, k)));
            }
            j = j - 1;
        }
        i = i + 1;
    }
    assert forall|x: int, y: int| 0 <= x < y < items.deep_view().len() implies key(
        items.deep_view()[x],
    ) <= key(items.deep_view()[y]) by {
        assert(keys@[x] as int == key(items@[x].deep_view()));
        assert(keys@[y] as int == key(items@[y].deep_view()));
    }
}

} // verus!
