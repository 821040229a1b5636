use vstd::prelude::*;
use vstd::multiset::Multiset;

verus! {

/// Inserts `x` after every pair whose key is at most `x`'s key: the step a
/// stable insertion sort performs.
pub open spec fn insert_stable(s: Seq<(u64, usize)>, x: (u64, usize)) -> Seq<(u64, usize)>
    decreases s.len(),
{
    if s.len() == 0 {
        seq![x]
    } else if s[0].0 <= x.0 {
        seq![s[0]] + insert_stable(s.drop_first(), x)
    } else {
        seq![x] + s
    }
}

/// The stable sort of `s` ascending by first component: pairs with equal
/// keys keep their given order.
pub open spec fn sort_stable(s: Seq<(u64, usize)>) -> Seq<(u64, usize)>
    decreases s.len(),
{
    if s.len() == 0 {
        Seq::empty()
    } else {
        insert_stable(sort_stable(s.drop_last()), s.last())
    }
}

/// Non-decreasing in the first component.
pub open spec fn sorted_by_key(s: Seq<(u64, usize)>) -> bool {
    forall|i: int, j: int| 0 <= i < j < s.len() ==> s[i].0 <= s[j].0
}

pub proof fn lemma_insert_stable_ensures(s: Seq<(u64, usize)>, x: (u64, usize))
    ensures
        insert_stable(s, x).len() == s.len() + 1,
        insert_stable(s, x).to_multiset() == s.to_multiset().insert(x),
        sorted_by_key(s) ==> sorted_by_key(insert_stable(s, x)),
        forall|y: (u64, usize)|
            insert_stable(s, x).contains(y) ==> y == x || s.contains(y),
    decreases s.len(),
{
    broadcast use vstd::seq_lib::group_to_multiset_ensures;

    if s.len() == 0 {
        assert(seq![x] =~= Seq::empty().push(x));
        assert(Seq::<(u64, usize)>::empty().to_multiset() =~= Multiset::empty());
        assert(insert_stable(s, x).to_multiset() =~= s.to_multiset().insert(x));
    } else if s[0].0 <= x.0 {
        let rest = insert_stable(s.drop_first(), x);
        lemma_insert_stable_ensures(s.drop_first(), x);
        assert(seq![s[0]] + rest =~= (seq![s[0]] + rest.drop_last()).push(rest.last()));
        lemma_multiset_cons(s, seq![s[0]] + rest, rest, x);
        if sorted_by_key(s) {
            assert(sorted_by_key(s.drop_first()));
            assert forall|i: int, j: int|
                0 <= i < j < (seq![s[0]] + rest).len() implies (seq![s[0]] + rest)[i].0
                <= (seq![s[0]] + rest)[j].0 by {
                let y = rest[j - 1];
                assert((seq![s[0]] + rest)[j] == y);
                if i > 0 {
                    assert((seq![s[0]] + rest)[i] == rest[i - 1]);
                } else {
                    assert(rest.contains(y));
                    if y != x {
                        assert(s.drop_first().contains(y));
                        let m = choose|m: int|
                            0 <= m < s.drop_first().len() && s.drop_first()[m] == y;
                        assert(s[m + 1] == y);
                        assert(s[0].0 <= s[m + 1].0);
                    }
                }
            }
        }
        assert forall|y: (u64, usize)| (seq![s[0]] + rest).contains(y) implies y == x
            || s.contains(y) by {
            let k = choose|k: int| 0 <= k < (seq![s[0]] + rest).len() && (seq![s[0]]
                + rest)[k] == y;
            if k == 0 {
                assert(s[0] == y);
            } else {
                assert(rest[k - 1] == y);
                assert(rest.contains(y));
                if y != x {
                    assert(s.drop_first().contains(y));
                    let m = choose|m: int|
                        0 <= m < s.drop_first().len() && s.drop_first()[m] == y;
                    assert(s[m + 1] == y);
                }
            }
        }
    } else {
        assert(seq![x] + s =~= (seq![x] + s.drop_last()).push(s.last()));
        lemma_multiset_snoc(s, x);
        assert forall|y: (u64, usize)| (seq![x] + s).contains(y) implies y == x
            || s.contains(y) by {
            let k = choose|k: int| 0 <= k < (seq![x] + s).len() && (seq![x] + s)[k] == y;
            if k > 0 {
                assert(s[k - 1] == y);
            }
        }
    }
}

/// Prepending an element adds it to the multiset.
proof fn lemma_multiset_snoc(s: Seq<(u64, usize)>, x: (u64, usize))
    ensures
        (seq![x] + s).to_multiset() == s.to_multiset().insert(x),
    decreases s.len(),
{
    broadcast use vstd::seq_lib::group_to_multiset_ensures;

    if s.len() == 0 {
        assert(seq![x] + s =~= Seq::empty().push(x));
        assert((seq![x] + s).to_multiset() =~= s.to_multiset().insert(x));
    } else {
        lemma_multiset_snoc(s.drop_last(), x);
        assert(seq![x] + s =~= (seq![x] + s.drop_last()).push(s.last()));
        assert(s =~= s.drop_last().push(s.last()));
        assert((seq![x] + s).to_multiset() =~= s.to_multiset().insert(x));
    }
}

proof fn lemma_multiset_cons(
    s: Seq<(u64, usize)>,
    whole: Seq<(u64, usize)>,
    rest: Seq<(u64, usize)>,
    x: (u64, usize),
)
    requires
        s.len() > 0,
        whole == seq![s[0]] + rest,
        rest.to_multiset() == s.drop_first().to_multiset().insert(x),
    ensures
        whole.to_multiset() == s.to_multiset().insert(x),
{
    broadcast use vstd::seq_lib::group_to_multiset_ensures;

    lemma_multiset_snoc(rest, s[0]);
    assert(whole.to_multiset() =~= rest.to_multiset().insert(s[0]));
    lemma_multiset_snoc(s.drop_first(), s[0]);
    assert(seq![s[0]] + s.drop_first() =~= s);
    assert(whole.to_multiset() =~= s.to_multiset().insert(x));
}

pub proof fn lemma_sort_stable_ensures(s: Seq<(u64, usize)>)
    ensures
        sort_stable(s).len() == s.len(),
        sort_stable(s).to_multiset() == s.to_multiset(),
        sorted_by_key(sort_stable(s)),
        forall|y: (u64, usize)| sort_stable(s).contains(y) ==> s.contains(y),
    decreases s.len(),
{
    broadcast use vstd::seq_lib::group_to_multiset_ensures;

    if s.len() == 0 {
    } else {
        lemma_sort_stable_ensures(s.drop_last());
        lemma_insert_stable_ensures(sort_stable(s.drop_last()), s.last());
        assert(s =~= s.drop_last().push(s.last()));
        assert(sort_stable(s).to_multiset() =~= s.to_multiset());
        assert forall|y: (u64, usize)| sort_stable(s).contains(y) implies s.contains(
            y,
        ) by {
            assert(insert_stable(sort_stable(s.drop_last()), s.last()).contains(y));
            if y == s.last() {
                assert(s[s.len() - 1] == y);
            } else {
                assert(sort_stable(s.drop_last()).contains(y));
                assert(s.drop_last().contains(y));
                let m = choose|m: int|
                    0 <= m < s.drop_last().len() && s.drop_last()[m] == y;
                assert(s[m] == y);
            }
        }
    }
}

/// Where a stable insertion lands: directly before the first strictly
/// greater key.
pub(crate) proof fn lemma_insert_stable_at(s: Seq<(u64, usize)>, x: (u64, usize), p: int)
    requires
        sorted_by_key(s),
        0 <= p <= s.len(),
        forall|j: int| 0 <= j < p ==> s[j].0 <= x.0,
        p < s.len() ==> s[p].0 > x.0,
    ensures
        insert_stable(s, x) == s.take(p) + seq![x] + s.skip(p),
    decreases s.len(),
{
    if s.len() == 0 {
        assert(insert_stable(s, x) =~= s.take(p) + seq![x] + s.skip(p));
    } else if s[0].0 <= x.0 {
        assert(p > 0) by {
            if p == 0 {
                assert(s[0].0 > x.0);
            }
        }
        assert(sorted_by_key(s.drop_first()));
        assert forall|j: int| 0 <= j < p - 1 implies s.drop_first()[j].0 <= x.0 by {
            assert(s[j + 1].0 <= x.0);
        }
        lemma_insert_stable_at(s.drop_first(), x, p - 1);
        assert(insert_stable(s, x) =~= s.take(p) + seq![x] + s.skip(p));
    } else {
        assert(p == 0) by {
            if p > 0 {
                assert(s[0].0 <= x.0);
            }
        }
        assert(insert_stable(s, x) =~= s.take(p) + seq![x] + s.skip(p));
    }
}

/// The index before which a stable insertion with key `key` lands: right
/// after every pair whose key is at most `key`, counted from the front.
pub open spec fn insertion_point(s: Seq<(u64, usize)>, key: u64) -> int
    decreases s.len(),
{
    if s.len() == 0 {
        0
    } else if s[0].0 <= key {
        1 + insertion_point(s.drop_first(), key)
    } else {
        0
    }
}

pub proof fn lemma_insertion_point_props(s: Seq<(u64, usize)>, key: u64)
    ensures
        0 <= insertion_point(s, key) <= s.len(),
        forall|j: int| 0 <= j < insertion_point(s, key) ==> (#[trigger] s[j]).0 <= key,
        insertion_point(s, key) < s.len() ==> s[insertion_point(s, key)].0 > key,
    decreases s.len(),
{
    if s.len() > 0 && s[0].0 <= key {
        lemma_insertion_point_props(s.drop_first(), key);
        let ip = insertion_point(s, key);
        assert forall|j: int| 0 <= j < ip implies (#[trigger] s[j]).0 <= key by {
            if j > 0 {
                assert(s.drop_first()[j - 1] == s[j]);
            }
        }
        if ip < s.len() {
            assert(s.drop_first()[ip - 1] == s[ip]);
        }
    }
}

/// Sorting with one more pair inserts it at its insertion point, leaving
/// the rest in place.
pub proof fn lemma_sort_stable_push(s: Seq<(u64, usize)>, x: (u64, usize))
    ensures
        sort_stable(s.push(x)) == sort_stable(s).insert(
            insertion_point(sort_stable(s), x.0),
            x,
        ),
{
    let sorted = sort_stable(s);
    let ip = insertion_point(sorted, x.0);
    lemma_sort_stable_ensures(s);
    lemma_insertion_point_props(sorted, x.0);
    assert(s.push(x).drop_last() =~= s);
    assert(s.push(x).last() == x);
    assert(sort_stable(s.push(x)) == insert_stable(sorted, x));
    lemma_insert_stable_at(sorted, x, ip);
    assert(sorted.take(ip) + seq![x] + sorted.skip(ip) =~= sorted.insert(ip, x));
}

/// Stable insertion sort of key-tagged pairs, ascending by key; pairs with
/// equal keys keep their input order.
pub fn sort_pairs(v: &Vec<(u64, usize)>) -> (r: Vec<(u64, usize)>)
    ensures
        r@ == sort_stable(v@),
{
    let mut r: Vec<(u64, usize)> = Vec::new();
    let mut i: usize = 0;
    while i < v.len()
        invariant
            i <= v.len(),
            r@ == sort_stable(v@.take(i as int)),
            sorted_by_key(r@),
        decreases v.len() - i,
    {
        let x = v[i];
        let mut p: usize = 0;
        while p < r.len() && r[p].0 <= x.0
            invariant
                p <= r.len(),
                forall|j: int| 0 <= j < p ==> r@[j].0 <= x.0,
            decreases r.len() - p,
        {
            p = p + 1;
        }
        let ghost r_old = r@;
        r.insert(p, x);
        proof {
            lemma_insert_stable_at(r_old, x, p as int);
            assert(r@ =~= r_old.take(p as int) + seq![x] + r_old.skip(p as int));
            assert(v@.take(i + 1).drop_last() =~= v@.take(i as int));
            assert(v@.take(i + 1).last() == v@[i as int]);
            assert(r@ == sort_stable(v@.take(i + 1)));
            lemma_insert_stable_ensures(r_old, x);
        }
        i = i + 1;
    }
    proof {
        assert(v@.take(v@.len() as int) =~= v@);
    }
    r
}

} // verus!
