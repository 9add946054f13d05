//! The order in which reports list rules: by a two-part text key, ties kept in
//! the order the reports came in.
use vstd::prelude::*;

verus! {

/// `a` sorts before `b` as Rust orders strings: character by character by code
/// point, a proper prefix first.
pub open spec fn chars_lt(a: Seq<char>, b: Seq<char>) -> bool
    decreases a.len(),
{
    if a.len() == 0 {
        b.len() > 0
    } else if b.len() == 0 {
        false
    } else if a[0] == b[0] {
        chars_lt(a.drop_first(), b.drop_first())
    } else {
        a[0] < b[0]
    }
}

/// The order of `Option<&str>`: `None` first, then the strings in order.
pub open spec fn opt_lt(a: Option<Seq<char>>, b: Option<Seq<char>>) -> bool {
    match (a, b) {
        (None, Some(_)) => true,
        (Some(x), Some(y)) => chars_lt(x, y),
        _ => false,
    }
}

/// A sort key: an optional text, then a text.
pub type KeyView = (Option<Seq<char>>, Seq<char>);

/// The order of keys: by the first part, then by the second.
pub open spec fn key_lt(a: KeyView, b: KeyView) -> bool {
    opt_lt(a.0, b.0) || (a.0 == b.0 && chars_lt(a.1, b.1))
}

/// Position `i` goes before position `j`: its key is smaller, or the keys are equal
/// and `i` came first (the order a stable sort gives).
pub open spec fn ranks_before(keys: Seq<KeyView>, i: int, j: int) -> bool {
    key_lt(keys[i], keys[j]) || (keys[i] == keys[j] && i < j)
}

/// Every position in `s` is a position of `keys`.
pub open spec fn in_range(keys: Seq<KeyView>, s: Seq<usize>) -> bool {
    forall|k: int| 0 <= k < s.len() ==> #[trigger] s[k] < keys.len()
}

/// The positions in `s` are listed in order, each before every later one.
pub open spec fn in_order(keys: Seq<KeyView>, s: Seq<usize>) -> bool {
    forall|k: int, l: int|
        0 <= k < l < s.len() ==> ranks_before(keys, #[trigger] s[k] as int, #[trigger] s[l] as int)
}

/// The string order is irreflexive.
pub proof fn lemma_chars_lt_irreflexive(a: Seq<char>)
    ensures
        !chars_lt(a, a),
    decreases a.len(),
{
    if a.len() > 0 {
        lemma_chars_lt_irreflexive(a.drop_first());
    }
}

/// The string order is transitive.
pub proof fn lemma_chars_lt_transitive(a: Seq<char>, b: Seq<char>, c: Seq<char>)
    requires
        chars_lt(a, b),
        chars_lt(b, c),
    ensures
        chars_lt(a, c),
    decreases a.len(),
{
    if a.len() > 0 && b.len() > 0 && c.len() > 0 {
        if a[0] == b[0] && b[0] == c[0] {
            lemma_chars_lt_transitive(a.drop_first(), b.drop_first(), c.drop_first());
        }
    }
}

/// Two different strings are ordered one way or the other.
pub proof fn lemma_chars_lt_total(a: Seq<char>, b: Seq<char>)
    requires
        a != b,
    ensures
        chars_lt(a, b) || chars_lt(b, a),
    decreases a.len(),
{
    if a.len() > 0 && b.len() > 0 && a[0] == b[0] {
        if a.drop_first() == b.drop_first() {
            assert(a =~= seq![a[0]] + a.drop_first());
            assert(b =~= seq![b[0]] + b.drop_first());
        }
        lemma_chars_lt_total(a.drop_first(), b.drop_first());
    } else if a.len() == 0 && b.len() == 0 {
        assert(a =~= b);
    }
}

/// The key order is a strict total order.
pub proof fn lemma_key_lt_order(a: KeyView, b: KeyView, c: KeyView)
    ensures
        !key_lt(a, a),
        key_lt(a, b) && key_lt(b, c) ==> key_lt(a, c),
        a != b ==> key_lt(a, b) || key_lt(b, a),
{
    lemma_chars_lt_irreflexive(a.1);
    if let Some(x) = a.0 {
        lemma_chars_lt_irreflexive(x);
    }
    if key_lt(a, b) && key_lt(b, c) {
        if let (Some(x), Some(y), Some(z)) = (a.0, b.0, c.0) {
            if chars_lt(x, y) && chars_lt(y, z) {
                lemma_chars_lt_transitive(x, y, z);
            }
        }
        if a.0 == b.0 && b.0 == c.0 && chars_lt(a.1, b.1) && chars_lt(b.1, c.1) {
            lemma_chars_lt_transitive(a.1, b.1, c.1);
        }
    }
    if a != b {
        if a.0 != b.0 {
            if let (Some(x), Some(y)) = (a.0, b.0) {
                lemma_chars_lt_total(x, y);
            }
        } else {
            lemma_chars_lt_total(a.1, b.1);
        }
    }
}

/// `ranks_before` is a strict total order on positions.
pub proof fn lemma_ranks_order(keys: Seq<KeyView>, i: int, j: int, k: int)
    ensures
        !ranks_before(keys, i, i),
        ranks_before(keys, i, j) && ranks_before(keys, j, k) ==> ranks_before(keys, i, k),
        i != j ==> ranks_before(keys, i, j) || ranks_before(keys, j, i),
{
    lemma_key_lt_order(keys[i], keys[j], keys[k]);
    lemma_key_lt_order(keys[i], keys[i], keys[j]);
    lemma_key_lt_order(keys[j], keys[i], keys[k]);
    lemma_key_lt_order(keys[i], keys[k], keys[j]);
}

/// Two orderly listings of the same positions are the same listing.
pub proof fn lemma_in_order_unique(keys: Seq<KeyView>, s: Seq<usize>, t: Seq<usize>)
    requires
        in_order(keys, s),
        in_order(keys, t),
        forall|x: usize| s.contains(x) <==> t.contains(x),
    ensures
        s == t,
    decreases s.len(),
{
    if s.len() == 0 {
        if t.len() > 0 {
            assert(t.contains(t[0]));
        }
        assert(s =~= t);
    } else {
        assert(s.contains(s[0]));
        let k = choose|k: int| 0 <= k < t.len() && t[k] == s[0];
        assert(t.contains(t[0]));
        let m = choose|m: int| 0 <= m < s.len() && s[m] == t[0];
        if k > 0 {
            lemma_ranks_order(keys, t[0] as int, s[0] as int, t[0] as int);
            if m > 0 {
                assert(ranks_before(keys, s[0] as int, s[m] as int));
            }
            assert(ranks_before(keys, t[0] as int, t[k] as int));
            assert(false);
        }
        let s1 = s.drop_first();
        let t1 = t.drop_first();
        assert forall|x: usize| s1.contains(x) <==> t1.contains(x) by {
            if s1.contains(x) {
                let a = choose|a: int| 0 <= a < s1.len() && s1[a] == x;
                assert(ranks_before(keys, s[0] as int, s[a + 1] as int));
                lemma_ranks_order(keys, s[0] as int, s[0] as int, s[0] as int);
                assert(s.contains(x));
                let b = choose|b: int| 0 <= b < t.len() && t[b] == x;
                assert(b != 0);
                assert(t1[b - 1] == x);
            }
            if t1.contains(x) {
                let a = choose|a: int| 0 <= a < t1.len() && t1[a] == x;
                assert(ranks_before(keys, t[0] as int, t[a + 1] as int));
                lemma_ranks_order(keys, t[0] as int, t[0] as int, t[0] as int);
                assert(t.contains(x));
                let b = choose|b: int| 0 <= b < s.len() && s[b] == x;
                assert(b != 0);
                assert(s1[b - 1] == x);
            }
        }
        lemma_in_order_unique(keys, s1, t1);
        assert(s =~= seq![s[0]] + s1);
        assert(t =~= seq![t[0]] + t1);
    }
}

/// An element is in `s.push(x)` exactly when it is `x` or in `s`.
proof fn lemma_push_contains<T>(s: Seq<T>, x: T, y: T)
    ensures
        s.push(x).contains(y) <==> s.contains(y) || y == x,
{
    if s.push(x).contains(y) && y != x {
        let k = choose|k: int| 0 <= k < s.push(x).len() && s.push(x)[k] == y;
        assert(s[k] == y);
    }
    if s.contains(y) {
        let k = choose|k: int| 0 <= k < s.len() && s[k] == y;
        assert(s.push(x)[k] == y);
    }
    assert(s.push(x)[s.len() as int] == x);
}

/// A text, held as its characters.
pub struct SortKey {
    pub first: Option<Vec<char>>,
    pub second: Vec<char>,
}

impl View for SortKey {
    type V = KeyView;

    open spec fn view(&self) -> KeyView {
        (
            match self.first {
                Some(v) => Some(v@),
                None => None,
            },
            self.second@,
        )
    }
}

/// The keys of `keys`, each taken by its view.
pub open spec fn keys_view(keys: Seq<SortKey>) -> Seq<KeyView> {
    keys.map_values(|k: SortKey| k@)
}

/// Whether `a` sorts before `b`.
pub fn chars_less(a: &Vec<char>, b: &Vec<char>) -> (r: bool)
    ensures
        r == chars_lt(a@, b@),
{
    let mut k: usize = 0;
    assert(a@.skip(0) == a@ && b@.skip(0) == b@);
    while k < a.len() && k < b.len() && a[k] == b[k]
        invariant
            k <= a.len(),
            k <= b.len(),
            chars_lt(a@, b@) == chars_lt(a@.skip(k as int), b@.skip(k as int)),
        decreases a.len() - k,
    {
        assert(a@.skip(k as int).drop_first() == a@.skip(k + 1));
        assert(b@.skip(k as int).drop_first() == b@.skip(k + 1));
        k += 1;
    }
    if k == a.len() {
        k < b.len()
    } else if k == b.len() {
        false
    } else {
        assert(a@.skip(k as int)[0] == a@[k as int] && b@.skip(k as int)[0] == b@[k as int]);
        a[k] < b[k]
    }
}

/// Whether key `x` sorts before key `y`.
pub fn key_less(x: &SortKey, y: &SortKey) -> (r: bool)
    ensures
        r == key_lt(x@, y@),
{
    match (&x.first, &y.first) {
        (None, Some(_)) => true,
        (Some(_), None) => false,
        (Some(p), Some(q)) => {
            if chars_less(p, q) {
                true
            } else if chars_less(q, p) {
                false
            } else {
                proof {
                    if p@ != q@ {
                        lemma_chars_lt_total(p@, q@);
                    }
                }
                chars_less(&x.second, &y.second)
            }
        },
        (None, None) => chars_less(&x.second, &y.second),
    }
}

/// Whether position `i` goes before position `j`.
fn ranks_first(keys: &Vec<SortKey>, i: usize, j: usize) -> (r: bool)
    requires
        i < keys.len(),
        j < keys.len(),
    ensures
        r == ranks_before(keys_view(keys@), i as int, j as int),
{
    let ghost kv = keys_view(keys@);
    if key_less(&keys[i], &keys[j]) {
        true
    } else if key_less(&keys[j], &keys[i]) {
        false
    } else {
        proof {
            lemma_key_lt_order(kv[i as int], kv[j as int], kv[i as int]);
        }
        i < j
    }
}

/// Merges two orderly listings of disjoint positions into one.
fn merge(keys: &Vec<SortKey>, a: &Vec<usize>, b: &Vec<usize>) -> (r: Vec<usize>)
    requires
        in_range(keys_view(keys@), a@),
        in_range(keys_view(keys@), b@),
        in_order(keys_view(keys@), a@),
        in_order(keys_view(keys@), b@),
        forall|x: usize| a@.contains(x) ==> !b@.contains(x),
    ensures
        in_range(keys_view(keys@), r@),
        in_order(keys_view(keys@), r@),
        forall|x: usize| r@.contains(x) <==> a@.contains(x) || b@.contains(x),
        r.len() == a.len() + b.len(),
{
    let ghost kv = keys_view(keys@);
    let mut r: Vec<usize> = Vec::new();
    let mut i: usize = 0;
    let mut j: usize = 0;
    while i < a.len() || j < b.len()
        invariant
            kv == keys_view(keys@),
            i <= a.len(),
            j <= b.len(),
            r.len() == i + j,
            in_range(kv, a@),
            in_range(kv, b@),
            in_order(kv, a@),
            in_order(kv, b@),
            forall|x: usize| a@.contains(x) ==> !b@.contains(x),
            in_range(kv, r@),
            in_order(kv, r@),
            forall|x: usize| r@.contains(x) <==> a@.take(i as int).contains(x) || b@.take(j as int).contains(x),
            forall|k: int, m: int|
                0 <= k < r.len() && i <= m < a.len() ==> ranks_before(kv, #[trigger] r@[k] as int, #[trigger] a@[m] as int),
            forall|k: int, m: int|
                0 <= k < r.len() && j <= m < b.len() ==> ranks_before(kv, #[trigger] r@[k] as int, #[trigger] b@[m] as int),
        decreases a.len() + b.len() - i - j,
    {
        let ghost old_r = r@;
        let ghost old_a = a@.take(i as int);
        let ghost old_b = b@.take(j as int);
        let take_a = if i == a.len() {
            false
        } else if j == b.len() {
            true
        } else {
            ranks_first(keys, a[i], b[j])
        };
        let x = if take_a { a[i] } else { b[j] };
        proof {
            if take_a {
                assert forall|m: int| i < m < a.len() implies ranks_before(kv, x as int, #[trigger] a@[m] as int) by {}
                assert forall|m: int| j <= m < b.len() implies ranks_before(kv, x as int, #[trigger] b@[m] as int) by {
                    if m > j {
                        assert(ranks_before(kv, b@[j as int] as int, b@[m] as int));
                        lemma_ranks_order(kv, x as int, b@[j as int] as int, b@[m] as int);
                    }
                }
            } else {
                if i < a.len() {
                    assert(a@.contains(a@[i as int]));
                    assert(b@.contains(b@[j as int]));
                    lemma_ranks_order(kv, a@[i as int] as int, b@[j as int] as int, a@[i as int] as int);
                }
                assert forall|m: int| j < m < b.len() implies ranks_before(kv, x as int, #[trigger] b@[m] as int) by {}
                assert forall|m: int| i <= m < a.len() implies ranks_before(kv, x as int, #[trigger] a@[m] as int) by {
                    if m > i {
                        assert(ranks_before(kv, a@[i as int] as int, a@[m] as int));
                        lemma_ranks_order(kv, x as int, a@[i as int] as int, a@[m] as int);
                    }
                }
            }
        }
        r.push(x);
        if take_a {
            assert(a@.take(i + 1) == a@.take(i as int).push(x));
            i += 1;
        } else {
            assert(b@.take(j + 1) == b@.take(j as int).push(x));
            j += 1;
        }
        assert(r@ == old_r.push(x));
        assert forall|y: usize| r@.contains(y) <==> a@.take(i as int).contains(y) || b@.take(j as int).contains(y) by {
            lemma_push_contains(old_r, x, y);
            if take_a {
                lemma_push_contains(old_a, x, y);
            } else {
                lemma_push_contains(old_b, x, y);
            }
        }
    }
    assert(a@.take(i as int) == a@);
    assert(b@.take(j as int) == b@);
    r
}

/// Lists the positions in `v` in order (a stable merge sort by key).
pub fn sort_positions(keys: &Vec<SortKey>, v: Vec<usize>) -> (r: Vec<usize>)
    requires
        in_range(keys_view(keys@), v@),
        v@.no_duplicates(),
    ensures
        in_range(keys_view(keys@), r@),
        in_order(keys_view(keys@), r@),
        forall|x: usize| r@.contains(x) <==> v@.contains(x),
        r.len() == v.len(),
    decreases v.len(),
{
    if v.len() <= 1 {
        return v;
    }
    let mid = v.len() / 2;
    let mut left: Vec<usize> = Vec::new();
    let mut right: Vec<usize> = Vec::new();
    let mut k: usize = 0;
    while k < v.len()
        invariant
            mid < v.len(),
            k <= v.len(),
            left@ == v@.take(if k < mid { k as int } else { mid as int }),
            k >= mid ==> right@ == v@.subrange(mid as int, k as int),
            k < mid ==> right@.len() == 0,
        decreases v.len() - k,
    {
        if k < mid {
            assert(v@.take(k + 1) == v@.take(k as int).push(v@[k as int]));
            left.push(v[k]);
        } else {
            assert(v@.subrange(mid as int, k + 1) == v@.subrange(mid as int, k as int).push(v@[k as int]));
            right.push(v[k]);
        }
        k += 1;
    }
    assert forall|x: usize| left@.contains(x) implies !right@.contains(x) by {
        if right@.contains(x) {
            let p = choose|p: int| 0 <= p < left@.len() && left@[p] == x;
            let q = choose|q: int| 0 <= q < right@.len() && right@[q] == x;
            assert(v@[p] == v@[mid + q]);
        }
    }
    assert forall|x: usize| v@.contains(x) <==> left@.contains(x) || right@.contains(x) by {
        if v@.contains(x) {
            let p = choose|p: int| 0 <= p < v@.len() && v@[p] == x;
            if p < mid {
                assert(left@[p] == x);
            } else {
                assert(right@[p - mid] == x);
            }
        }
        if left@.contains(x) {
            let p = choose|p: int| 0 <= p < left@.len() && left@[p] == x;
            assert(v@[p] == x);
        }
        if right@.contains(x) {
            let p = choose|p: int| 0 <= p < right@.len() && right@[p] == x;
            assert(v@[mid + p] == x);
        }
    }
    let ls = sort_positions(keys, left);
    let rs = sort_positions(keys, right);
    merge(keys, &ls, &rs)
}

} // verus!
