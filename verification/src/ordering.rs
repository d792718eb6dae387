//! Stable ordering by lexicographic keys.
use vstd::prelude::*;
use vstd::set_lib::{lemma_int_range, lemma_subset_equality, set_int_range};

verus! {

/// The integers of a key.
pub open spec fn ints(v: Seq<i64>) -> Seq<int> {
    v.map_values(|x: i64| x as int)
}

/// The keys of a list.
pub open spec fn key_list(keys: Seq<Vec<i64>>) -> Seq<Seq<int>> {
    Seq::new(keys.len(), |i: int| ints(keys[i]@))
}

/// Lexicographic order: the first difference decides, a proper prefix comes first.
pub open spec fn lex_less(a: Seq<int>, b: Seq<int>) -> bool
    decreases a.len(),
{
    if b.len() == 0 {
        false
    } else if a.len() == 0 {
        true
    } else if a[0] != b[0] {
        a[0] < b[0]
    } else {
        lex_less(a.skip(1), b.skip(1))
    }
}

/// Whether position `x` comes before position `y`: by key, ties by position.
pub open spec fn before(keys: Seq<Seq<int>>, x: int, y: int) -> bool {
    lex_less(keys[x], keys[y]) || (keys[x] == keys[y] && x < y)
}

/// Whether `order` lists every position of `keys` by key, ties by position.
pub open spec fn stable_order(keys: Seq<Seq<int>>, order: Seq<usize>) -> bool {
    &&& order.len() == keys.len()
    &&& sorted_within(keys, order, 0, keys.len() as int)
}

/// Whether `order` lists positions between two bounds by key, ties by position.
pub open spec fn sorted_within(keys: Seq<Seq<int>>, order: Seq<usize>, from: int, to: int) -> bool {
    &&& forall|i: int| 0 <= i < order.len() ==> from <= #[trigger] order[i] < to
    &&& forall|i: int, j: int|
        0 <= i < j < order.len() ==> before(keys, #[trigger] order[i] as int, #[trigger] order[j] as int)
}

/// No key is less than itself.
pub proof fn lemma_lex_irreflexive(a: Seq<int>)
    ensures
        !lex_less(a, a),
    decreases a.len(),
{
    if a.len() > 0 {
        lemma_lex_irreflexive(a.skip(1));
    }
}

/// The order of keys is transitive.
pub proof fn lemma_lex_transitive(a: Seq<int>, b: Seq<int>, c: Seq<int>)
    requires
        lex_less(a, b),
        lex_less(b, c),
    ensures
        lex_less(a, c),
    decreases a.len(),
{
    if a.len() > 0 && b.len() > 0 && c.len() > 0 && a[0] == b[0] && b[0] == c[0] {
        lemma_lex_transitive(a.skip(1), b.skip(1), c.skip(1));
    }
}

/// Of two different keys one is less.
pub proof fn lemma_lex_total(a: Seq<int>, b: Seq<int>)
    ensures
        a == b || lex_less(a, b) || lex_less(b, a),
    decreases a.len(),
{
    if a.len() > 0 && b.len() > 0 && a[0] == b[0] {
        lemma_lex_total(a.skip(1), b.skip(1));
        if a.skip(1) == b.skip(1) {
            assert(a =~= seq![a[0]] + a.skip(1));
            assert(b =~= seq![b[0]] + b.skip(1));
        }
    } else if a.len() == 0 && b.len() == 0 {
        assert(a =~= b);
    }
}

/// The order of positions is transitive.
pub proof fn lemma_before_transitive(keys: Seq<Seq<int>>, x: int, y: int, z: int)
    requires
        before(keys, x, y),
        before(keys, y, z),
    ensures
        before(keys, x, z),
{
    if lex_less(keys[x], keys[y]) && lex_less(keys[y], keys[z]) {
        lemma_lex_transitive(keys[x], keys[y], keys[z]);
    }
}

/// No position comes before itself.
pub proof fn lemma_before_irreflexive(keys: Seq<Seq<int>>, x: int)
    ensures
        !before(keys, x, x),
{
    lemma_lex_irreflexive(keys[x]);
}

/// Whether the first key is less.
pub fn key_less(a: &Vec<i64>, b: &Vec<i64>) -> (r: bool)
    ensures
        r == lex_less(ints(a@), ints(b@)),
{
    let mut i: usize = 0;
    let ghost (ka, kb) = (ints(a@), ints(b@));
    assert(ka.skip(0) =~= ka);
    assert(kb.skip(0) =~= kb);
    loop
        invariant
            i <= a.len(),
            i <= b.len(),
            ka == ints(a@),
            kb == ints(b@),
            lex_less(ka, kb) == lex_less(ka.skip(i as int), kb.skip(i as int)),
        decreases a.len() - i,
    {
        if i == b.len() {
            return false;
        }
        if i == a.len() {
            return true;
        }
        assert(ka.skip(i as int)[0] == a[i as int] as int);
        assert(kb.skip(i as int)[0] == b[i as int] as int);
        if a[i] != b[i] {
            return a[i] < b[i];
        }
        assert(ka.skip(i as int).skip(1) =~= ka.skip(i + 1));
        assert(kb.skip(i as int).skip(1) =~= kb.skip(i + 1));
        i = i + 1;
    }
}

/// Merges two ordered lists of positions, all of the first lower than all of the second.
fn merge(keys: &Vec<Vec<i64>>, left: &Vec<usize>, right: &Vec<usize>, from: usize, mid: usize, to: usize) -> (out: Vec<
    usize,
>)
    requires
        from <= mid <= to <= keys.len(),
        left.len() == mid - from,
        right.len() == to - mid,
        sorted_within(key_list(keys@), left@, from as int, mid as int),
        sorted_within(key_list(keys@), right@, mid as int, to as int),
    ensures
        out.len() == to - from,
        sorted_within(key_list(keys@), out@, from as int, to as int),
{
    let ghost ks = key_list(keys@);
    let mut out: Vec<usize> = Vec::new();
    let mut i: usize = 0;
    let mut j: usize = 0;
    while i < left.len() || j < right.len()
        invariant
            from <= mid <= to <= keys.len(),
            left.len() == mid - from,
            right.len() == to - mid,
            ks == key_list(keys@),
            sorted_within(ks, left@, from as int, mid as int),
            sorted_within(ks, right@, mid as int, to as int),
            i <= left.len(),
            j <= right.len(),
            out.len() == i + j,
            sorted_within(ks, out@, from as int, to as int),
            forall|a: int, p: int|
                0 <= a < out.len() && i <= p < left.len() ==> before(
                    ks,
                    #[trigger] out[a] as int,
                    #[trigger] left[p] as int,
                ),
            forall|a: int, p: int|
                0 <= a < out.len() && j <= p < right.len() ==> before(
                    ks,
                    #[trigger] out[a] as int,
                    #[trigger] right[p] as int,
                ),
        decreases left.len() - i + right.len() - j,
    {
        let take_right: bool = i == left.len() || (j < right.len() && key_less(
            &keys[right[j]],
            &keys[left[i]],
        ));
        let ghost old_out = out@;
        if take_right {
            let y: usize = right[j];
            proof {
                assert forall|p: int| i <= p < left.len() implies before(ks, y as int, #[trigger] left[p] as int) by {
                    if p > i {
                        lemma_before_transitive(ks, y as int, left[i as int] as int, left[p] as int);
                    }
                }
            }
            out.push(y);
            j = j + 1;
        } else {
            let x: usize = left[i];
            proof {
                assert forall|p: int| j <= p < right.len() implies before(ks, x as int, #[trigger] right[p] as int) by {
                    let y = right[j as int] as int;
                    lemma_lex_total(ks[x as int], ks[y]);
                    assert(before(ks, x as int, y));
                    if p > j {
                        lemma_before_transitive(ks, x as int, y, right[p] as int);
                    }
                }
            }
            out.push(x);
            i = i + 1;
        }
        assert forall|a: int| 0 <= a < out.len() - 1 implies out[a] == old_out[a] by {}
    }
    out
}

/// The positions between two bounds, by key, ties by position.
fn order_between(keys: &Vec<Vec<i64>>, from: usize, to: usize) -> (out: Vec<usize>)
    requires
        from <= to <= keys.len(),
    ensures
        out.len() == to - from,
        sorted_within(key_list(keys@), out@, from as int, to as int),
    decreases to - from,
{
    if to - from == 0 {
        return Vec::new();
    }
    if to - from == 1 {
        let mut out: Vec<usize> = Vec::new();
        out.push(from);
        return out;
    }
    let mid: usize = from + (to - from) / 2;
    let left = order_between(keys, from, mid);
    let right = order_between(keys, mid, to);
    merge(keys, &left, &right, from, mid, to)
}

/// The positions of a list of keys, by key, ties by position.
pub fn order_of(keys: &Vec<Vec<i64>>) -> (order: Vec<usize>)
    ensures
        stable_order(key_list(keys@), order@),
{
    order_between(keys, 0, keys.len())
}

/// An order lists no position twice.
pub proof fn lemma_order_distinct(keys: Seq<Seq<int>>, order: Seq<usize>)
    requires
        stable_order(keys, order),
    ensures
        order.no_duplicates(),
{
    assert forall|i: int, j: int| 0 <= i < order.len() && 0 <= j < order.len() && i != j implies order[i]
        != order[j] by {
        lemma_before_irreflexive(keys, order[i] as int);
        if i < j {
            assert(before(keys, order[i] as int, order[j] as int));
        } else {
            assert(before(keys, order[j] as int, order[i] as int));
        }
    }
}

/// An order lists every position.
pub proof fn lemma_order_complete(keys: Seq<Seq<int>>, order: Seq<usize>, x: int)
    requires
        stable_order(keys, order),
        0 <= x < keys.len(),
    ensures
        exists|i: int| 0 <= i < order.len() && order[i] == x,
{
    lemma_order_distinct(keys, order);
    let listed = order.map_values(|p: usize| p as int);
    let all = set_int_range(0, keys.len() as int);
    lemma_int_range(0, keys.len() as int);
    assert(listed.no_duplicates());
    listed.unique_seq_to_set();
    assert(listed.to_set().subset_of(all)) by {
        assert forall|y: int| listed.to_set().contains(y) implies all.contains(y) by {
            let i = choose|i: int| 0 <= i < listed.len() && listed[i] == y;
            assert(order[i] == y);
        }
    }
    lemma_subset_equality(listed.to_set(), all);
    assert(listed.to_set().contains(x));
    let i = choose|i: int| 0 <= i < listed.len() && listed[i] == x;
    assert(order[i] == x);
}

/// The keys determine the order.
pub proof fn lemma_order_unique(keys: Seq<Seq<int>>, a: Seq<usize>, b: Seq<usize>)
    requires
        stable_order(keys, a),
        stable_order(keys, b),
    ensures
        a == b,
{
    assert forall|x: usize| a.contains(x) == b.contains(x) by {
        if a.contains(x) {
            lemma_order_complete(keys, b, x as int);
        }
        if b.contains(x) {
            lemma_order_complete(keys, a, x as int);
        }
    }
    lemma_sorted_unique(keys, a, b);
}

/// Two ordered lists of the same positions are the same list.
pub proof fn lemma_sorted_unique(keys: Seq<Seq<int>>, a: Seq<usize>, b: Seq<usize>)
    requires
        sorted_within(keys, a, 0, keys.len() as int),
        sorted_within(keys, b, 0, keys.len() as int),
        forall|x: usize| a.contains(x) == b.contains(x),
    ensures
        a == b,
    decreases a.len(),
{
    if a.len() == 0 {
        if b.len() > 0 {
            assert(b.contains(b[0]));
        }
        assert(a =~= b);
    } else {
        assert(a.contains(a[0]));
        assert(b.contains(a[0]));
        assert(b.contains(b[0]));
        assert(a.contains(b[0]));
        let i = choose|i: int| 0 <= i < a.len() && a[i] == b[0];
        let j = choose|j: int| 0 <= j < b.len() && b[j] == a[0];
        if a[0] != b[0] {
            assert(before(keys, a[0] as int, a[i] as int));
            assert(before(keys, b[0] as int, b[j] as int));
            lemma_before_transitive(keys, a[0] as int, b[0] as int, a[0] as int);
            lemma_before_irreflexive(keys, a[0] as int);
        }
        let (ta, tb) = (a.skip(1), b.skip(1));
        assert forall|x: usize| ta.contains(x) == tb.contains(x) by {
            lemma_tail_contains(keys, a, x);
            lemma_tail_contains(keys, b, x);
        }
        lemma_sorted_unique(keys, ta, tb);
        assert(a =~= seq![a[0]] + ta);
        assert(b =~= seq![b[0]] + tb);
    }
}

/// The rest of an ordered list holds all of it but its head.
proof fn lemma_tail_contains(keys: Seq<Seq<int>>, a: Seq<usize>, x: usize)
    requires
        sorted_within(keys, a, 0, keys.len() as int),
        a.len() > 0,
    ensures
        a.skip(1).contains(x) == (a.contains(x) && x != a[0]),
{
    let t = a.skip(1);
    if t.contains(x) {
        let i = choose|i: int| 0 <= i < t.len() && t[i] == x;
        assert(a[i + 1] == x);
        assert(before(keys, a[0] as int, a[i + 1] as int));
        lemma_before_irreflexive(keys, x as int);
    }
    if a.contains(x) && x != a[0] {
        let i = choose|i: int| 0 <= i < a.len() && a[i] == x;
        assert(t[i - 1] == x);
    }
}

} // verus!
