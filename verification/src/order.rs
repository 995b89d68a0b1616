//! Stable order of items by a key, rising or falling.

use vstd::prelude::*;

verus! {

/// What items are ordered by: a number, which something that is no number does
/// not have, or a text.
pub enum Key {
    Number(Option<i64>),
    Text(Vec<char>),
}

/// The value of a key.
pub enum KeyView {
    Number(Option<int>),
    Text(Seq<char>),
}

impl View for Key {
    type V = KeyView;

    open spec fn view(&self) -> KeyView {
        match *self {
            Key::Number(Some(n)) => KeyView::Number(Some(n as int)),
            Key::Number(None) => KeyView::Number(None),
            Key::Text(t) => KeyView::Text(t@),
        }
    }
}

/// The values of several keys.
pub open spec fn key_views(keys: Seq<Key>) -> Seq<KeyView> {
    keys.map_values(|k: Key| k@)
}

/// Whether the text `s` comes before the text `t`: by their first characters
/// that differ, and a beginning of a text before the text.
pub open spec fn text_less(s: Seq<char>, t: Seq<char>) -> bool
    decreases s.len(),
{
    if t.len() == 0 {
        false
    } else if s.len() == 0 {
        true
    } else if s[0] == t[0] {
        text_less(s.drop_first(), t.drop_first())
    } else {
        s[0] < t[0]
    }
}

/// Whether the key `a` is greater than the key `b`. What is no number is
/// neither greater nor less than anything.
pub open spec fn key_greater(a: KeyView, b: KeyView) -> bool {
    match (a, b) {
        (KeyView::Number(Some(x)), KeyView::Number(Some(y))) => x > y,
        (KeyView::Text(s), KeyView::Text(t)) => text_less(t, s),
        _ => false,
    }
}

/// Whether an item with key `a` has to stand after one with key `b`.
pub open spec fn stands_after(a: KeyView, b: KeyView, falling: bool) -> bool {
    if falling {
        key_greater(b, a)
    } else {
        key_greater(a, b)
    }
}

/// Whether all keys are numbers, or all are texts.
pub open spec fn comparable(keys: Seq<KeyView>) -> bool {
    ||| forall|i: int| 0 <= i < keys.len() ==> (#[trigger] keys[i] matches KeyView::Number(Some(_)))
    ||| forall|i: int| 0 <= i < keys.len() ==> (#[trigger] keys[i] matches KeyView::Text(_))
}

/// Whether item `a` comes before item `b`: by their keys, and with equal keys
/// by their positions.
pub open spec fn precedes(keys: Seq<KeyView>, falling: bool, a: int, b: int) -> bool {
    ||| stands_after(keys[b], keys[a], falling)
    ||| !stands_after(keys[a], keys[b], falling) && a < b
}

/// Whether `order` lists each of the positions from `lo` up to `hi` once.
pub open spec fn lists(order: Seq<usize>, lo: int, hi: int) -> bool {
    &&& order.len() == hi - lo
    &&& order.no_duplicates()
    &&& forall|k: int| 0 <= k < order.len() ==> lo <= #[trigger] order[k] < hi
    &&& forall|p: usize| lo <= p < hi ==> #[trigger] order.contains(p)
}

/// Whether no item stands directly before one that it has to stand after, and
/// where all keys can be compared, every item comes before those that follow.
pub open spec fn arranged(order: Seq<usize>, keys: Seq<KeyView>, falling: bool) -> bool {
    &&& forall|k: int|
        0 < k < order.len() ==> !stands_after(
            keys[order[k - 1] as int],
            keys[#[trigger] order[k] as int],
            falling,
        )
    &&& comparable(keys) ==> forall|j: int, k: int|
        0 <= j < k < order.len() ==> precedes(
            keys,
            falling,
            #[trigger] order[j] as int,
            #[trigger] order[k] as int,
        )
}

/// Whether `order` is the order of the items with these keys.
pub open spec fn is_order(order: Seq<usize>, keys: Seq<KeyView>, falling: bool) -> bool {
    lists(order, 0, keys.len() as int) && arranged(order, keys, falling)
}

/// Of two different texts one comes before the other.
pub proof fn text_order_is_total(s: Seq<char>, t: Seq<char>)
    requires
        s != t,
    ensures
        text_less(s, t) || text_less(t, s),
    decreases s.len(),
{
    if s.len() == 0 {
        assert(t.len() > 0) by {
            if t.len() == 0 {
                assert(s =~= t);
            }
        }
    } else if t.len() > 0 && s[0] == t[0] {
        assert(s =~= seq![s[0]] + s.drop_first());
        assert(t =~= seq![t[0]] + t.drop_first());
        text_order_is_total(s.drop_first(), t.drop_first());
    }
}

/// Of two texts not each comes before the other.
pub proof fn lemma_text_less_asymmetric(s: Seq<char>, t: Seq<char>)
    ensures
        !(text_less(s, t) && text_less(t, s)),
    decreases s.len(),
{
    if s.len() > 0 && t.len() > 0 && s[0] == t[0] {
        lemma_text_less_asymmetric(s.drop_first(), t.drop_first());
    }
}

/// What is not less than a text, and that not less than a third, leaves the
/// first not less than the third.
proof fn lemma_text_not_less_transitive(s: Seq<char>, t: Seq<char>, u: Seq<char>)
    ensures
        !text_less(t, s) && !text_less(u, t) ==> !text_less(u, s),
        text_less(s, t) && !text_less(u, t) ==> text_less(s, u),
        !text_less(t, s) && text_less(t, u) ==> text_less(s, u),
    decreases s.len() + t.len() + u.len(),
{
    if s.len() > 0 && t.len() > 0 && u.len() > 0 {
        lemma_text_not_less_transitive(s.drop_first(), t.drop_first(), u.drop_first());
    }
}

proof fn lemma_asymmetric(a: KeyView, b: KeyView)
    ensures
        !(key_greater(a, b) && key_greater(b, a)),
{
    if let (KeyView::Text(s), KeyView::Text(t)) = (a, b) {
        lemma_text_less_asymmetric(s, t);
    }
}

proof fn lemma_precedes_transitive(keys: Seq<KeyView>, falling: bool, a: int, b: int, c: int)
    requires
        comparable(keys),
        0 <= a < keys.len(),
        0 <= b < keys.len(),
        0 <= c < keys.len(),
        precedes(keys, falling, a, b),
        precedes(keys, falling, b, c),
    ensures
        precedes(keys, falling, a, c),
{
    lemma_asymmetric(keys[a], keys[b]);
    lemma_asymmetric(keys[b], keys[c]);
    lemma_asymmetric(keys[a], keys[c]);
    match (keys[a], keys[b], keys[c]) {
        (KeyView::Text(s), KeyView::Text(t), KeyView::Text(u)) => {
            lemma_text_not_less_transitive(s, t, u);
            lemma_text_not_less_transitive(u, t, s);
        },
        _ => {},
    }
}

/// Whether the text `s` comes before the text `t`.
pub fn is_less(s: &Vec<char>, t: &Vec<char>) -> (r: bool)
    ensures
        r == text_less(s@, t@),
{
    let mut i: usize = 0;
    assert(s@.skip(0) == s@);
    assert(t@.skip(0) == t@);
    while i < s.len() && i < t.len()
        invariant
            i <= s@.len(),
            i <= t@.len(),
            text_less(s@, t@) == text_less(s@.skip(i as int), t@.skip(i as int)),
        decreases s.len() - i,
    {
        let ghost a = s@.skip(i as int);
        let ghost b = t@.skip(i as int);
        assert(a[0] == s@[i as int] && b[0] == t@[i as int]);
        assert(a.drop_first() == s@.skip(i + 1));
        assert(b.drop_first() == t@.skip(i + 1));
        if s[i] != t[i] {
            return s[i] < t[i];
        }
        i += 1;
    }
    i < t.len()
}

fn is_greater(a: &Key, b: &Key) -> (r: bool)
    ensures
        r == key_greater(a@, b@),
{
    match (a, b) {
        (Key::Number(Some(x)), Key::Number(Some(y))) => *x > *y,
        (Key::Text(s), Key::Text(t)) => is_less(t, s),
        _ => false,
    }
}

fn is_after(a: &Key, b: &Key, falling: bool) -> (r: bool)
    ensures
        r == stands_after(a@, b@, falling),
{
    if falling {
        is_greater(b, a)
    } else {
        is_greater(a, b)
    }
}

/// Where the items of two parts stand that are merged: those taken so far.
spec fn taken(out: Seq<usize>, left: Seq<usize>, i: int, right: Seq<usize>, j: int) -> bool {
    &&& out.len() == i + j
    &&& out.no_duplicates()
    &&& forall|k: int|
        0 <= k < out.len() ==> left.take(i).contains(#[trigger] out[k]) || right.take(j).contains(
            out[k],
        )
    &&& forall|k: int| 0 <= k < i ==> out.contains(#[trigger] left[k])
    &&& forall|k: int| 0 <= k < j ==> out.contains(#[trigger] right[k])
}

/// What is taken comes before what is left of a part.
spec fn all_precede(
    out: Seq<usize>,
    part: Seq<usize>,
    from: int,
    keys: Seq<KeyView>,
    falling: bool,
) -> bool {
    forall|k: int, p: int|
        0 <= k < out.len() && from <= p < part.len() ==> precedes(
            keys,
            falling,
            #[trigger] out[k] as int,
            #[trigger] part[p] as int,
        )
}

proof fn lemma_taken_push(
    out: Seq<usize>,
    left: Seq<usize>,
    i: int,
    right: Seq<usize>,
    j: int,
    lo: int,
    mid: int,
    hi: int,
)
    requires
        taken(out, left, i, right, j),
        lists(left, lo, mid),
        lists(right, mid, hi),
        0 <= i <= left.len(),
        0 <= j <= right.len(),
    ensures
        i < left.len() ==> taken(out.push(left[i]), left, i + 1, right, j),
        j < right.len() ==> taken(out.push(right[j]), left, i, right, j + 1),
{
    assert forall|k: int| 0 <= k < out.len() && i < left.len() implies out[k] != left[i] by {
        if left.take(i).contains(out[k]) {
            let p = choose|p: int| 0 <= p < left.take(i).len() && left.take(i)[p] == out[k];
            assert(left[p] == out[k] && p != i);
        } else {
            let p = choose|p: int| 0 <= p < right.take(j).len() && right.take(j)[p] == out[k];
            assert(right[p] == out[k]);
        }
    }
    assert forall|k: int| 0 <= k < out.len() && j < right.len() implies out[k] != right[j] by {
        if right.take(j).contains(out[k]) {
            let p = choose|p: int| 0 <= p < right.take(j).len() && right.take(j)[p] == out[k];
            assert(right[p] == out[k] && p != j);
        } else {
            let p = choose|p: int| 0 <= p < left.take(i).len() && left.take(i)[p] == out[k];
            assert(left[p] == out[k]);
        }
    }
    if i < left.len() {
        let now = out.push(left[i]);
        assert forall|k: int| 0 <= k < now.len() implies left.take(i + 1).contains(
            #[trigger] now[k],
        ) || right.take(j).contains(now[k]) by {
            if k == out.len() {
                assert(left.take(i + 1)[i] == now[k]);
            } else if left.take(i).contains(out[k]) {
                let p = choose|p: int| 0 <= p < left.take(i).len() && left.take(i)[p] == out[k];
                assert(left.take(i + 1)[p] == now[k]);
            }
        }
        assert forall|k: int| 0 <= k < i + 1 implies now.contains(#[trigger] left[k]) by {
            if k == i {
                assert(now[out.len() as int] == left[k]);
            } else {
                let p = choose|p: int| 0 <= p < out.len() && out[p] == left[k];
                assert(now[p] == left[k]);
            }
        }
        assert forall|k: int| 0 <= k < j implies now.contains(#[trigger] right[k]) by {
            let p = choose|p: int| 0 <= p < out.len() && out[p] == right[k];
            assert(now[p] == right[k]);
        }
    }
    if j < right.len() {
        let now = out.push(right[j]);
        assert forall|k: int| 0 <= k < now.len() implies left.take(i).contains(
            #[trigger] now[k],
        ) || right.take(j + 1).contains(now[k]) by {
            if k == out.len() {
                assert(right.take(j + 1)[j] == now[k]);
            } else if right.take(j).contains(out[k]) {
                let p = choose|p: int| 0 <= p < right.take(j).len() && right.take(j)[p] == out[k];
                assert(right.take(j + 1)[p] == now[k]);
            }
        }
        assert forall|k: int| 0 <= k < j + 1 implies now.contains(#[trigger] right[k]) by {
            if k == j {
                assert(now[out.len() as int] == right[k]);
            } else {
                let p = choose|p: int| 0 <= p < out.len() && out[p] == right[k];
                assert(now[p] == right[k]);
            }
        }
        assert forall|k: int| 0 <= k < i implies now.contains(#[trigger] left[k]) by {
            let p = choose|p: int| 0 <= p < out.len() && out[p] == left[k];
            assert(now[p] == left[k]);
        }
    }
}

/// How far the merge of two parts is: what is taken stands in order and before
/// what is left of both parts.
#[verifier::opaque]
spec fn merging(
    out: Seq<usize>,
    a: Seq<usize>,
    i: int,
    b: Seq<usize>,
    j: int,
    keys: Seq<KeyView>,
    falling: bool,
) -> bool {
    &&& arranged(out, keys, falling)
    &&& out.len() > 0 && i < a.len() ==> !stands_after(
        keys[out.last() as int],
        keys[a[i] as int],
        falling,
    )
    &&& out.len() > 0 && j < b.len() ==> !stands_after(
        keys[out.last() as int],
        keys[b[j] as int],
        falling,
    )
    &&& comparable(keys) ==> all_precede(out, a, i, keys, falling)
    &&& comparable(keys) ==> all_precede(out, b, j, keys, falling)
}

/// The next item of the part `a` may be taken where the next of the other part
/// does not have to stand before it.
proof fn lemma_merging_push(
    out: Seq<usize>,
    a: Seq<usize>,
    i: int,
    b: Seq<usize>,
    j: int,
    keys: Seq<KeyView>,
    falling: bool,
)
    requires
        merging(out, a, i, b, j, keys, falling),
        arranged(a, keys, falling),
        arranged(b, keys, falling),
        forall|k: int| 0 <= k < a.len() ==> 0 <= #[trigger] a[k] < keys.len(),
        forall|k: int| 0 <= k < b.len() ==> 0 <= #[trigger] b[k] < keys.len(),
        0 <= i < a.len(),
        0 <= j <= b.len(),
        j < b.len() ==> !stands_after(keys[a[i] as int], keys[b[j] as int], falling),
        j < b.len() && comparable(keys) ==> precedes(keys, falling, a[i] as int, b[j] as int),
    ensures
        merging(out.push(a[i]), a, i + 1, b, j, keys, falling),
{
    reveal(merging);
    let x = a[i];
    let now = out.push(x);
    if comparable(keys) {
        assert forall|p: int| j <= p < b.len() implies precedes(
            keys,
            falling,
            x as int,
            #[trigger] b[p] as int,
        ) by {
            if p > j {
                let y = b[j];
                assert(precedes(keys, falling, y as int, b[p] as int));
                lemma_precedes_transitive(keys, falling, x as int, y as int, b[p] as int);
            }
        }
        assert forall|k: int, p: int|
            0 <= k < now.len() && j <= p < b.len() implies precedes(
            keys,
            falling,
            #[trigger] now[k] as int,
            #[trigger] b[p] as int,
        ) by {
            if k < out.len() {
                assert(now[k] == out[k]);
            }
        }
        assert forall|k: int, p: int|
            0 <= k < now.len() && i + 1 <= p < a.len() implies precedes(
            keys,
            falling,
            #[trigger] now[k] as int,
            #[trigger] a[p] as int,
        ) by {
            if k < out.len() {
                assert(now[k] == out[k]);
            } else {
                assert(precedes(keys, falling, a[i] as int, a[p] as int));
            }
        }
        assert forall|k: int, m: int| 0 <= k < m < now.len() implies precedes(
            keys,
            falling,
            #[trigger] now[k] as int,
            #[trigger] now[m] as int,
        ) by {
            assert(now[k] == out[k]);
            if m < out.len() {
                assert(now[m] == out[m]);
            } else {
                assert(precedes(keys, falling, out[k] as int, a[i] as int));
            }
        }
    }
    assert forall|k: int| 0 < k < now.len() implies !stands_after(
        keys[now[k - 1] as int],
        keys[#[trigger] now[k] as int],
        falling,
    ) by {
        if k < out.len() {
            assert(now[k] == out[k] && now[k - 1] == out[k - 1]);
        } else {
            assert(now[k - 1] == out.last());
        }
    }
    assert(arranged(now, keys, falling));
    if i + 1 < a.len() {
        assert(!stands_after(keys[a[(i + 1) - 1] as int], keys[a[i + 1] as int], falling));
    }
}

proof fn lemma_merging_both_ways(
    out: Seq<usize>,
    a: Seq<usize>,
    i: int,
    b: Seq<usize>,
    j: int,
    keys: Seq<KeyView>,
    falling: bool,
)
    requires
        merging(out, a, i, b, j, keys, falling),
    ensures
        merging(out, b, j, a, i, keys, falling),
{
    reveal(merging);
}

/// Merges the orders of two neighbouring parts.
fn merge(
    keys: &Vec<Key>,
    falling: bool,
    left: &Vec<usize>,
    right: &Vec<usize>,
    Ghost(lo): Ghost<int>,
    Ghost(mid): Ghost<int>,
    Ghost(hi): Ghost<int>,
) -> (out: Vec<usize>)
    requires
        0 <= lo <= mid <= hi <= keys@.len(),
        lists(left@, lo, mid),
        lists(right@, mid, hi),
        arranged(left@, key_views(keys@), falling),
        arranged(right@, key_views(keys@), falling),
    ensures
        lists(out@, lo, hi),
        arranged(out@, key_views(keys@), falling),
{
    let ghost kv = key_views(keys@);
    let mut out: Vec<usize> = Vec::new();
    let mut i: usize = 0;
    let mut j: usize = 0;
    assert(merging(out@, left@, 0, right@, 0, kv, falling)) by {
        reveal(merging);
    }
    while i < left.len() || j < right.len()
        invariant
            0 <= lo <= mid <= hi <= keys@.len(),
            kv == key_views(keys@),
            i <= left@.len(),
            j <= right@.len(),
            lists(left@, lo, mid),
            lists(right@, mid, hi),
            arranged(left@, kv, falling),
            arranged(right@, kv, falling),
            taken(out@, left@, i as int, right@, j as int),
            merging(out@, left@, i as int, right@, j as int, kv, falling),
        decreases left@.len() - i + right@.len() - j,
    {
        let from_left: bool = if i < left.len() && j < right.len() {
            let l = &keys[left[i]];
            let r = &keys[right[j]];
            assert(kv[left@[i as int] as int] == l@);
            assert(kv[right@[j as int] as int] == r@);
            !is_after(l, r, falling)
        } else {
            i < left.len()
        };
        proof {
            lemma_taken_push(out@, left@, i as int, right@, j as int, lo, mid, hi);
            if i < left@.len() && j < right@.len() {
                lemma_asymmetric(kv[left@[i as int] as int], kv[right@[j as int] as int]);
            }
        }
        if from_left {
            proof {
                lemma_merging_push(out@, left@, i as int, right@, j as int, kv, falling);
            }
            out.push(left[i]);
            i += 1;
        } else {
            proof {
                lemma_merging_both_ways(out@, left@, i as int, right@, j as int, kv, falling);
                lemma_merging_push(out@, right@, j as int, left@, i as int, kv, falling);
                lemma_merging_both_ways(
                    out@.push(right@[j as int]),
                    right@,
                    j + 1,
                    left@,
                    i as int,
                    kv,
                    falling,
                );
            }
            out.push(right[j]);
            j += 1;
        }
    }
    assert(arranged(out@, kv, falling)) by {
        reveal(merging);
    }
    assert(left@.take(i as int) == left@);
    assert(right@.take(j as int) == right@);
    assert forall|k: int| 0 <= k < out@.len() implies lo <= #[trigger] out@[k] < hi by {
        if left@.contains(out@[k]) {
            let p = choose|p: int| 0 <= p < left@.len() && left@[p] == out@[k];
            assert(left@[p] == out@[k]);
        } else {
            let p = choose|p: int| 0 <= p < right@.len() && right@[p] == out@[k];
            assert(right@[p] == out@[k]);
        }
    }
    assert forall|p: usize| lo <= p < hi implies #[trigger] out@.contains(p) by {
        if p < mid {
            assert(left@.contains(p));
            let q = choose|q: int| 0 <= q < left@.len() && left@[q] == p;
            assert(out@.contains(left@[q]));
        } else {
            assert(right@.contains(p));
            let q = choose|q: int| 0 <= q < right@.len() && right@[q] == p;
            assert(out@.contains(right@[q]));
        }
    }
    out
}

/// The order of the items from `lo` up to `hi`.
fn order_range(keys: &Vec<Key>, falling: bool, lo: usize, hi: usize) -> (out: Vec<usize>)
    requires
        lo <= hi <= keys@.len(),
    ensures
        lists(out@, lo as int, hi as int),
        arranged(out@, key_views(keys@), falling),
    decreases hi - lo,
{
    if hi - lo <= 1 {
        let mut out: Vec<usize> = Vec::new();
        if lo < hi {
            out.push(lo);
            assert(out@[0] == lo);
        }
        out
    } else {
        let mid: usize = lo + (hi - lo) / 2;
        let left = order_range(keys, falling, lo, mid);
        let right = order_range(keys, falling, mid, hi);
        merge(
            keys,
            falling,
            &left,
            &right,
            Ghost(lo as int),
            Ghost(mid as int),
            Ghost(hi as int),
        )
    }
}

/// The order of the items with the given keys.
pub fn order_by(keys: &Vec<Key>, falling: bool) -> (order: Vec<usize>)
    ensures
        is_order(order@, key_views(keys@), falling),
{
    order_range(keys, falling, 0, keys.len())
}

/// Items whose keys can be compared have exactly one order.
pub proof fn order_is_unique(
    one: Seq<usize>,
    other: Seq<usize>,
    keys: Seq<KeyView>,
    falling: bool,
)
    requires
        comparable(keys),
        is_order(one, keys, falling),
        is_order(other, keys, falling),
    ensures
        one == other,
{
    lemma_orders_agree(one, other, keys, falling, keys.len() as int);
    assert(one =~= other);
}

proof fn lemma_orders_agree(
    one: Seq<usize>,
    other: Seq<usize>,
    keys: Seq<KeyView>,
    falling: bool,
    n: int,
)
    requires
        comparable(keys),
        is_order(one, keys, falling),
        is_order(other, keys, falling),
        0 <= n <= keys.len(),
    ensures
        forall|k: int| 0 <= k < n ==> one[k] == other[k],
    decreases n,
{
    if n > 0 {
        lemma_orders_agree(one, other, keys, falling, n - 1);
        let k = n - 1;
        if one[k] != other[k] {
            assert(other.contains(one[k]));
            let p = choose|p: int| 0 <= p < other.len() && other[p] == one[k];
            assert(one.contains(other[k]));
            let q = choose|q: int| 0 <= q < one.len() && one[q] == other[k];
            assert(p > k) by {
                if p < k {
                    assert(one[p] == other[p]);
                }
            }
            assert(q > k) by {
                if q < k {
                    assert(one[q] == other[q]);
                }
            }
            assert(precedes(keys, falling, other[k] as int, other[p] as int));
            assert(precedes(keys, falling, one[k] as int, one[q] as int));
            lemma_asymmetric(keys[one[k] as int], keys[other[k] as int]);
        }
    }
}

/// Items that already stand in order keep their positions.
pub proof fn ordered_items_stay(order: Seq<usize>, keys: Seq<KeyView>, falling: bool)
    requires
        comparable(keys),
        is_order(order, keys, falling),
        keys.len() <= usize::MAX,
        forall|j: int, k: int|
            0 <= j < k < keys.len() ==> !stands_after(
                #[trigger] keys[j],
                #[trigger] keys[k],
                falling,
            ),
    ensures
        order == Seq::new(keys.len(), |i: int| i as usize),
{
    let same = Seq::new(keys.len(), |i: int| i as usize);
    assert forall|p: usize| 0 <= p < keys.len() implies #[trigger] same.contains(p) by {
        assert(same[p as int] == p);
    }
    assert forall|k: int| 0 < k < same.len() implies !stands_after(
        keys[same[k - 1] as int],
        keys[#[trigger] same[k] as int],
        falling,
    ) by {
        assert(same[k - 1] == k - 1 && same[k] == k);
        assert(!stands_after(keys[k - 1], keys[k], falling));
    }
    assert(is_order(same, keys, falling));
    order_is_unique(order, same, keys, falling);
}

/// The first items of an order, taken out and ordered again, stay as they are.
pub proof fn first_items_stay(
    order: Seq<usize>,
    keys: Seq<KeyView>,
    falling: bool,
    count: int,
    again: Seq<usize>,
)
    requires
        comparable(keys),
        is_order(order, keys, falling),
        keys.len() <= usize::MAX,
        0 <= count <= keys.len(),
        is_order(again, Seq::new(count as nat, |i: int| keys[order[i] as int]), falling),
    ensures
        again == Seq::new(count as nat, |i: int| i as usize),
{
    let first = Seq::new(count as nat, |i: int| keys[order[i] as int]);
    assert(comparable(first));
    assert forall|j: int, k: int| 0 <= j < k < first.len() implies !stands_after(
        #[trigger] first[j],
        #[trigger] first[k],
        falling,
    ) by {
        assert(precedes(keys, falling, order[j] as int, order[k] as int));
        lemma_asymmetric(keys[order[j] as int], keys[order[k] as int]);
    }
    ordered_items_stay(again, first, falling);
}

/// Texts are compared at the first position at which they differ: there the
/// lesser character comes first, and a text that ends there.
pub proof fn texts_compare_where_they_differ(s: Seq<char>, t: Seq<char>, k: int)
    requires
        0 <= k <= s.len(),
        k <= t.len(),
        s.take(k) == t.take(k),
        k < s.len() && k < t.len() ==> s[k] != t[k],
    ensures
        text_less(s, t) <==> k < t.len() && (k == s.len() || s[k] < t[k]),
    decreases k,
{
    if k > 0 {
        assert(s[0] == s.take(k)[0] && t[0] == t.take(k)[0]);
        assert(s.drop_first().take(k - 1) =~= s.take(k).drop_first());
        assert(t.drop_first().take(k - 1) =~= t.take(k).drop_first());
        texts_compare_where_they_differ(s.drop_first(), t.drop_first(), k - 1);
    }
}

/// The first position at which two texts differ, or at which one of them ends.
pub proof fn lemma_first_difference(s: Seq<char>, t: Seq<char>) -> (k: int)
    ensures
        0 <= k <= s.len(),
        k <= t.len(),
        s.take(k) == t.take(k),
        k < s.len() && k < t.len() ==> s[k] != t[k],
    decreases s.len(),
{
    if s.len() > 0 && t.len() > 0 && s[0] == t[0] {
        let k = lemma_first_difference(s.drop_first(), t.drop_first());
        assert(s.take(k + 1) =~= seq![s[0]] + s.drop_first().take(k));
        assert(t.take(k + 1) =~= seq![t[0]] + t.drop_first().take(k));
        k + 1
    } else {
        assert(s.take(0) =~= t.take(0));
        0
    }
}

/// Whether `at` are the positions below `n` that are wanted, all of them and no
/// others, in rising order.
pub open spec fn are_the_places(at: Seq<int>, n: int, wanted: spec_fn(int) -> bool) -> bool {
    &&& forall|k: int| 0 <= k < at.len() ==> 0 <= #[trigger] at[k] < n && wanted(at[k])
    &&& forall|j: int, k: int| 0 <= j < k < at.len() ==> #[trigger] at[j] < #[trigger] at[k]
    &&& forall|i: int| 0 <= i < n && #[trigger] wanted(i) ==> at.contains(i)
}

/// The places below one position more are the same, or one more.
pub proof fn lemma_places_extend(at: Seq<int>, n: int, wanted: spec_fn(int) -> bool)
    requires
        0 <= n,
        are_the_places(at, n, wanted),
    ensures
        are_the_places(
            if wanted(n) {
                at.push(n)
            } else {
                at
            },
            n + 1,
            wanted,
        ),
{
    let next = if wanted(n) {
        at.push(n)
    } else {
        at
    };
    assert forall|i: int| 0 <= i < n + 1 && #[trigger] wanted(i) implies next.contains(i) by {
        if i == n {
            assert(next[at.len() as int] == i);
        } else {
            assert(at.contains(i));
            let k = choose|k: int| 0 <= k < at.len() && at[k] == i;
            assert(next[k] == i);
        }
    }
}

} // verus!
