//! Lexicographic order on integer keys, and a stable sort that returns the
//! order of the positions instead of moving the items.

use vstd::prelude::*;

verus! {

/// Lexicographic order: the first difference decides, and a proper prefix comes first.
pub open spec fn lex_less(a: Seq<u64>, b: Seq<u64>) -> bool
    decreases a.len(),
{
    if b.len() == 0 {
        false
    } else if a.len() == 0 {
        true
    } else if a[0] != b[0] {
        a[0] < b[0]
    } else {
        lex_less(a.drop_first(), b.drop_first())
    }
}

/// Whether position `i` comes before position `j`: the smaller key first, equal
/// keys in order of position.
pub open spec fn before(keys: Seq<Seq<u64>>, i: int, j: int) -> bool {
    lex_less(keys[i], keys[j]) || (keys[i] == keys[j] && i < j)
}

/// Whether `p` lists all positions of `keys`, each once, in increasing order.
pub open spec fn sorts(keys: Seq<Seq<u64>>, p: Seq<usize>) -> bool {
    &&& p.len() == keys.len()
    &&& forall|i: int| 0 <= i < p.len() ==> #[trigger] p[i] < keys.len()
    &&& forall|i: int, j: int|
        0 <= i < j < p.len() ==> before(keys, #[trigger] p[i] as int, #[trigger] p[j] as int)
}

/// The contents of a list of keys.
pub open spec fn key_views(keys: Seq<Vec<u64>>) -> Seq<Seq<u64>> {
    keys.map_values(|k: Vec<u64>| k@)
}

pub proof fn lemma_key_push(keys: Seq<Vec<u64>>, k: Vec<u64>)
    ensures
        key_views(keys.push(k)) == key_views(keys).push(k@),
{
    assert(key_views(keys.push(k)) =~= key_views(keys).push(k@));
}

pub proof fn lemma_lex_irreflexive(a: Seq<u64>)
    ensures
        !lex_less(a, a),
    decreases a.len(),
{
    if a.len() > 0 {
        lemma_lex_irreflexive(a.drop_first());
    }
}

pub proof fn lemma_lex_total(a: Seq<u64>, b: Seq<u64>)
    ensures
        lex_less(a, b) || lex_less(b, a) || a == b,
    decreases a.len(),
{
    if a.len() > 0 && b.len() > 0 {
        lemma_lex_total(a.drop_first(), b.drop_first());
        if a[0] == b[0] && a.drop_first() == b.drop_first() {
            assert(a =~= seq![a[0]] + a.drop_first());
            assert(b =~= seq![b[0]] + b.drop_first());
        }
    } else if a.len() == 0 && b.len() == 0 {
        assert(a =~= b);
    }
}

pub proof fn lemma_lex_transitive(a: Seq<u64>, b: Seq<u64>, c: Seq<u64>)
    requires
        lex_less(a, b),
        lex_less(b, c),
    ensures
        lex_less(a, c),
    decreases a.len(),
{
    if a.len() > 0 && b.len() > 0 && c.len() > 0 && a[0] == b[0] && b[0] == c[0] {
        lemma_lex_transitive(a.drop_first(), b.drop_first(), c.drop_first());
    }
}

pub proof fn lemma_lex_asymmetric(a: Seq<u64>, b: Seq<u64>)
    requires
        lex_less(a, b),
    ensures
        !lex_less(b, a),
{
    if lex_less(b, a) {
        lemma_lex_transitive(a, b, a);
        lemma_lex_irreflexive(a);
    }
}

/// A common prefix does not matter.
pub proof fn lemma_lex_prefix(p: Seq<u64>, a: Seq<u64>, b: Seq<u64>)
    ensures
        lex_less(p + a, p + b) == lex_less(a, b),
    decreases p.len(),
{
    if p.len() > 0 {
        assert((p + a).drop_first() =~= p.drop_first() + a);
        assert((p + b).drop_first() =~= p.drop_first() + b);
        lemma_lex_prefix(p.drop_first(), a, b);
    } else {
        assert(p + a =~= a);
        assert(p + b =~= b);
    }
}

pub proof fn lemma_before_transitive(keys: Seq<Seq<u64>>, i: int, j: int, k: int)
    requires
        before(keys, i, j),
        before(keys, j, k),
    ensures
        before(keys, i, k),
{
    if lex_less(keys[i], keys[j]) && lex_less(keys[j], keys[k]) {
        lemma_lex_transitive(keys[i], keys[j], keys[k]);
    }
}

/// A sort lists no position twice.
pub proof fn lemma_sorts_distinct(keys: Seq<Seq<u64>>, p: Seq<usize>)
    requires
        sorts(keys, p),
    ensures
        p.no_duplicates(),
{
    assert forall|i: int, j: int| 0 <= i < p.len() && 0 <= j < p.len() && i != j implies p[i]
        != p[j] by {
        lemma_lex_irreflexive(keys[p[i] as int]);
        if i < j {
            assert(before(keys, p[i] as int, p[j] as int));
        } else {
            assert(before(keys, p[j] as int, p[i] as int));
        }
    }
}

/// A sort lists every position.
pub proof fn lemma_sorts_all(keys: Seq<Seq<u64>>, p: Seq<usize>, k: int)
    requires
        sorts(keys, p),
        0 <= k < keys.len(),
    ensures
        exists|i: int| 0 <= i < p.len() && #[trigger] p[i] == k,
{
    lemma_sorts_distinct(keys, p);
    let q = p.map_values(|x: usize| x as int);
    assert forall|i: int, j: int| 0 <= i < q.len() && 0 <= j < q.len() && i != j implies q[i]
        != q[j] by {
        assert(p[i] != p[j]);
    }
    q.unique_seq_to_set();
    let range = vstd::set_lib::set_int_range(0, keys.len() as int);
    vstd::set_lib::lemma_int_range(0, keys.len() as int);
    assert(q.to_set().subset_of(range)) by {
        assert forall|x: int| q.to_set().contains(x) implies range.contains(x) by {
            let i = choose|i: int| 0 <= i < q.len() && q[i] == x;
            assert(p[i] < keys.len());
        }
    }
    vstd::set_lib::lemma_subset_equality(q.to_set(), range);
    assert(range.contains(k));
    assert(q.to_set().contains(k));
    let i = choose|i: int| 0 <= i < q.len() && q[i] == k;
    assert(p[i] == k);
}

/// Whether `a` comes before `b` lexicographically.
pub fn key_less(a: &Vec<u64>, b: &Vec<u64>) -> (r: bool)
    ensures
        r == lex_less(a@, b@),
{
    let mut i: usize = 0;
    assert(a@.skip(0) =~= a@);
    assert(b@.skip(0) =~= b@);
    loop
        invariant
            i <= a.len(),
            i <= b.len(),
            lex_less(a@, b@) == lex_less(a@.skip(i as int), b@.skip(i as int)),
        decreases a.len() - i,
    {
        if i >= b.len() {
            return false;
        }
        if i >= a.len() {
            return true;
        }
        if a[i] != b[i] {
            return a[i] < b[i];
        }
        assert(a@.skip(i as int).drop_first() =~= a@.skip(i + 1));
        assert(b@.skip(i as int).drop_first() =~= b@.skip(i + 1));
        i += 1;
    }
}

/// A sorted run of the positions `lo..hi`.
spec fn run_of(keys: Seq<Seq<u64>>, p: Seq<usize>, lo: int, hi: int) -> bool {
    &&& p.len() == hi - lo
    &&& forall|i: int| 0 <= i < p.len() ==> lo <= #[trigger] p[i] < hi
    &&& forall|i: int, j: int|
        0 <= i < j < p.len() ==> before(keys, #[trigger] p[i] as int, #[trigger] p[j] as int)
}

fn merge(keys: &Vec<Vec<u64>>, left: Vec<usize>, right: Vec<usize>, Ghost(mid): Ghost<int>) -> (r:
    Vec<usize>)
    requires
        mid - left.len() >= 0,
        mid + right.len() <= keys.len(),
        run_of(key_views(keys@), left@, mid - left.len(), mid),
        run_of(key_views(keys@), right@, mid, mid + right.len()),
    ensures
        run_of(key_views(keys@), r@, mid - left.len(), mid + right.len()),
{
    let ghost ks = key_views(keys@);
    let mut out: Vec<usize> = Vec::new();
    let mut i: usize = 0;
    let mut j: usize = 0;
    while i < left.len() || j < right.len()
        invariant
            ks == key_views(keys@),
            mid - left.len() >= 0,
            mid + right.len() <= keys.len(),
            run_of(ks, left@, mid - left.len(), mid),
            run_of(ks, right@, mid, mid + right.len()),
            i <= left.len(),
            j <= right.len(),
            out.len() == i + j,
            forall|a: int|
                0 <= a < out.len() ==> mid - left.len() <= #[trigger] out@[a] < mid + right.len(),
            forall|a: int, b: int|
                0 <= a < b < out.len() ==> before(
                    ks,
                    #[trigger] out@[a] as int,
                    #[trigger] out@[b] as int,
                ),
            forall|a: int, b: int|
                0 <= a < out.len() && i <= b < left.len() ==> before(
                    ks,
                    #[trigger] out@[a] as int,
                    #[trigger] left@[b] as int,
                ),
            forall|a: int, b: int|
                0 <= a < out.len() && j <= b < right.len() ==> before(
                    ks,
                    #[trigger] out@[a] as int,
                    #[trigger] right@[b] as int,
                ),
        decreases left.len() - i + right.len() - j,
    {
        let ghost prior = out@;
        let take_left = if i >= left.len() {
            false
        } else if j >= right.len() {
            true
        } else {
            let l = left[i];
            let r = right[j];
            let right_first = key_less(&keys[r], &keys[l]);
            proof {
                lemma_lex_total(ks[l as int], ks[r as int]);
                if right_first {
                    lemma_lex_asymmetric(ks[r as int], ks[l as int]);
                }
            }
            !right_first
        };
        if take_left {
            let l = left[i];
            proof {
                assert forall|b: int| j <= b < right.len() implies before(
                    ks,
                    l as int,
                    #[trigger] right@[b] as int,
                ) by {
                    assert(before(ks, l as int, right@[j as int] as int));
                    if b > j {
                        lemma_before_transitive(
                            ks,
                            l as int,
                            right@[j as int] as int,
                            right@[b] as int,
                        );
                    }
                }
            }
            out.push(l);
            i += 1;
        } else {
            let r = right[j];
            proof {
                assert forall|b: int| i <= b < left.len() implies before(
                    ks,
                    r as int,
                    #[trigger] left@[b] as int,
                ) by {
                    assert(before(ks, r as int, left@[i as int] as int));
                    if b > i {
                        lemma_before_transitive(
                            ks,
                            r as int,
                            left@[i as int] as int,
                            left@[b] as int,
                        );
                    }
                }
            }
            out.push(r);
            j += 1;
        }
        assert(out@.drop_last() =~= prior);
    }
    out
}

fn sort_range(keys: &Vec<Vec<u64>>, lo: usize, hi: usize) -> (r: Vec<usize>)
    requires
        lo <= hi <= keys.len(),
    ensures
        run_of(key_views(keys@), r@, lo as int, hi as int),
    decreases hi - lo,
{
    if hi - lo <= 1 {
        let mut out: Vec<usize> = Vec::new();
        if lo < hi {
            out.push(lo);
        }
        out
    } else {
        let mid = lo + (hi - lo) / 2;
        let left = sort_range(keys, lo, mid);
        let right = sort_range(keys, mid, hi);
        merge(keys, left, right, Ghost(mid as int))
    }
}

/// The positions of `keys` in increasing order of key; equal keys keep their order.
pub fn sort_order(keys: &Vec<Vec<u64>>) -> (r: Vec<usize>)
    ensures
        sorts(key_views(keys@), r@),
{
    sort_range(keys, 0, keys.len())
}

/// The positions below `n` that `keep` accepts, in increasing order.
pub open spec fn positions(n: nat, keep: spec_fn(int) -> bool) -> Seq<usize>
    decreases n,
{
    if n == 0 {
        seq![]
    } else {
        let rest = positions((n - 1) as nat, keep);
        if keep(n - 1) {
            rest.push((n - 1) as usize)
        } else {
            rest
        }
    }
}

/// Whether `out` lists `items` in increasing order of their keys, equal keys in
/// the given order.
pub open spec fn arranged(items: Seq<usize>, keys: Seq<Seq<u64>>, out: Seq<usize>) -> bool {
    exists|p: Seq<usize>| #[trigger] arranged_by(items, keys, p, out)
}

pub open spec fn arranged_by(
    items: Seq<usize>,
    keys: Seq<Seq<u64>>,
    p: Seq<usize>,
    out: Seq<usize>,
) -> bool {
    &&& sorts(keys, p)
    &&& out.len() == p.len()
    &&& forall|i: int| 0 <= i < out.len() ==> #[trigger] out[i] == items[p[i] as int]
}

/// `items` in increasing order of their keys.
pub fn arrange(items: &Vec<usize>, keys: &Vec<Vec<u64>>) -> (r: Vec<usize>)
    requires
        items.len() == keys.len(),
    ensures
        arranged(items@, key_views(keys@), r@),
{
    let p = sort_order(keys);
    let mut out: Vec<usize> = Vec::new();
    let mut i: usize = 0;
    while i < p.len()
        invariant
            items.len() == keys.len(),
            sorts(key_views(keys@), p@),
            i <= p.len(),
            out.len() == i,
            forall|j: int| 0 <= j < i ==> #[trigger] out@[j] == items@[p@[j] as int],
        decreases p.len() - i,
    {
        out.push(items[p[i]]);
        i += 1;
    }
    assert(arranged_by(items@, key_views(keys@), p@, out@));
    out
}

/// The kept positions are the ones that `keep` accepts, in increasing order.
pub proof fn lemma_positions(n: nat, keep: spec_fn(int) -> bool)
    requires
        n <= usize::MAX,
    ensures
        positions(n, keep).len() <= n,
        forall|i: int|
            0 <= i < positions(n, keep).len() ==> (#[trigger] positions(n, keep)[i]) < n && keep(
                positions(n, keep)[i] as int,
            ),
        forall|i: int, j: int|
            0 <= i < j < positions(n, keep).len() ==> (#[trigger] positions(n, keep)[i]) < (
            #[trigger] positions(n, keep)[j]),
        forall|k: int|
            0 <= k < n && #[trigger] keep(k) ==> positions(n, keep).contains(k as usize),
    decreases n,
{
    if n > 0 {
        let m = (n - 1) as nat;
        lemma_positions(m, keep);
        let all = positions(n, keep);
        let init = positions(m, keep);
        assert forall|k: int| 0 <= k < n && #[trigger] keep(k) implies all.contains(k as usize) by {
            if k < m {
                let i = choose|i: int| 0 <= i < init.len() && init[i] == k as usize;
                assert(all[i] == init[i]);
            } else {
                assert(all.last() == k as usize);
            }
        }
    }
}

/// Arranging changes the order only: what is listed was given, what was given is
/// listed, and keys do not decrease.
pub proof fn arranged_is_sorted(items: Seq<usize>, keys: Seq<Seq<u64>>, out: Seq<usize>)
    requires
        items.len() == keys.len(),
        arranged(items, keys, out),
    ensures
        out.len() == items.len(),
        forall|i: int| 0 <= i < out.len() ==> items.contains(#[trigger] out[i]),
        forall|k: int| 0 <= k < items.len() ==> out.contains(#[trigger] items[k]),
        exists|p: Seq<usize>| #[trigger]
            arranged_by(items, keys, p, out) && forall|i: int, j: int|
                0 <= i < j < p.len() ==> !lex_less(
                    keys[#[trigger] p[j] as int],
                    keys[#[trigger] p[i] as int],
                ),
{
    let p = choose|p: Seq<usize>| #[trigger] arranged_by(items, keys, p, out);
    assert forall|i: int| 0 <= i < out.len() implies items.contains(#[trigger] out[i]) by {
        assert(items[p[i] as int] == out[i]);
    }
    assert forall|k: int| 0 <= k < items.len() implies out.contains(#[trigger] items[k]) by {
        lemma_sorts_all(keys, p, k);
        let i = choose|i: int| 0 <= i < p.len() && #[trigger] p[i] == k;
        assert(out[i] == items[k]);
    }
    assert forall|i: int, j: int| 0 <= i < j < p.len() implies !lex_less(
        keys[#[trigger] p[j] as int],
        keys[#[trigger] p[i] as int],
    ) by {
        assert(before(keys, p[i] as int, p[j] as int));
        lemma_lex_irreflexive(keys[p[i] as int]);
        if lex_less(keys[p[i] as int], keys[p[j] as int]) {
            lemma_lex_asymmetric(keys[p[i] as int], keys[p[j] as int]);
        }
    }
    assert(arranged_by(items, keys, p, out));
}

/// What follows the first difference does not matter.
pub proof fn lemma_lex_mismatch(p: Seq<u64>, q: Seq<u64>, r: Seq<u64>, s: Seq<u64>, i: int)
    requires
        0 <= i < p.len(),
        i < q.len(),
        p[i] != q[i],
    ensures
        lex_less(p + r, q + s) == lex_less(p, q),
        p != q,
    decreases i,
{
    assert((p + r)[0] == p[0]);
    assert((q + s)[0] == q[0]);
    if p[0] == q[0] {
        assert((p + r).drop_first() =~= p.drop_first() + r);
        assert((q + s).drop_first() =~= q.drop_first() + s);
        lemma_lex_mismatch(p.drop_first(), q.drop_first(), r, s, i - 1);
    }
}

/// Arranging the kept positions by a key lists each of them and no other, and the
/// keys do not decrease.
pub proof fn arranged_selection(
    n: nat,
    keep: spec_fn(int) -> bool,
    key: spec_fn(usize) -> Seq<u64>,
    picked: Seq<usize>,
)
    requires
        n <= usize::MAX,
        arranged(positions(n, keep), positions(n, keep).map_values(key), picked),
    ensures
        forall|k: int| 0 <= k < n ==> (picked.contains(k as usize) <==> #[trigger] keep(k)),
        forall|i: int, j: int|
            0 <= i < j < picked.len() ==> !lex_less(
                key(#[trigger] picked[j]),
                key(#[trigger] picked[i]),
            ),
{
    let found = positions(n, keep);
    let keys = found.map_values(key);
    lemma_positions(n, keep);
    arranged_is_sorted(found, keys, picked);
    assert forall|k: int| 0 <= k < n implies (picked.contains(k as usize) <==> #[trigger] keep(
        k,
    )) by {
        if picked.contains(k as usize) {
            let i = choose|i: int| 0 <= i < picked.len() && picked[i] == k as usize;
            assert(found.contains(picked[i]));
            let m = choose|m: int| 0 <= m < found.len() && found[m] == picked[i];
            assert(keep(found[m] as int));
        }
        if keep(k) {
            assert(found.contains(k as usize));
            let m = choose|m: int| 0 <= m < found.len() && found[m] == k as usize;
            assert(picked.contains(found[m]));
        }
    }
    let p = choose|p: Seq<usize>| #[trigger]
        arranged_by(found, keys, p, picked) && forall|i: int, j: int|
            0 <= i < j < p.len() ==> !lex_less(
                keys[#[trigger] p[j] as int],
                keys[#[trigger] p[i] as int],
            );
    assert forall|i: int, j: int| 0 <= i < j < picked.len() implies !lex_less(
        key(#[trigger] picked[j]),
        key(#[trigger] picked[i]),
    ) by {
        assert(picked[i] == found[p[i] as int] && picked[j] == found[p[j] as int]);
        assert(keys[p[i] as int] == key(picked[i]));
        assert(keys[p[j] as int] == key(picked[j]));
    }
}

/// Whether each key is less than those after it.
pub open spec fn keys_increase(keys: Seq<Seq<u64>>) -> bool {
    forall|i: int, j: int| 0 <= i < j < keys.len() ==> lex_less(#[trigger] keys[i], #[trigger] keys[j])
}

/// An increasing list of keys is determined by the keys that it holds.
pub proof fn lemma_increasing_keys_same(x: Seq<Seq<u64>>, y: Seq<Seq<u64>>)
    requires
        keys_increase(x),
        keys_increase(y),
        forall|k: Seq<u64>| #[trigger] x.contains(k) <==> y.contains(k),
    ensures
        x == y,
    decreases x.len(),
{
    if x.len() == 0 {
        if y.len() > 0 {
            assert(y.contains(y[0]));
            assert(x.contains(y[0]));
        }
        assert(x =~= y);
    } else {
        assert(x.contains(x[0]));
        assert(y.contains(x[0]));
        let a = x.last();
        let b = y.last();
        assert(x.contains(x[x.len() - 1]));
        assert(y.contains(y[y.len() - 1]));
        assert(y.contains(a));
        assert(x.contains(b));
        let j = choose|j: int| 0 <= j < y.len() && y[j] == a;
        let i = choose|i: int| 0 <= i < x.len() && x[i] == b;
        if j < y.len() - 1 && i < x.len() - 1 {
            assert(lex_less(y[j], y[y.len() - 1]));
            assert(lex_less(x[i], x[x.len() - 1]));
            lemma_lex_asymmetric(a, b);
        }
        assert(a == b);
        let s = x.drop_last();
        let t = y.drop_last();
        assert forall|k: Seq<u64>| #[trigger] s.contains(k) <==> t.contains(k) by {
            lemma_lex_irreflexive(k);
            if s.contains(k) {
                let m = choose|m: int| 0 <= m < s.len() && s[m] == k;
                assert(x[m] == k);
                assert(x.contains(k));
                assert(lex_less(x[m], x[x.len() - 1]));
                let n = choose|n: int| 0 <= n < y.len() && y[n] == k;
                assert(t[n] == k);
            }
            if t.contains(k) {
                let m = choose|m: int| 0 <= m < t.len() && t[m] == k;
                assert(y[m] == k);
                assert(y.contains(k));
                assert(lex_less(y[m], y[y.len() - 1]));
                assert(x.contains(k));
                let n = choose|n: int| 0 <= n < x.len() && x[n] == k;
                assert(s[n] == k);
            }
        }
        lemma_increasing_keys_same(s, t);
        assert(x =~= s.push(a));
        assert(y =~= t.push(b));
    }
}

// ---------------------------------------------------------------------------
// What an order is
// ---------------------------------------------------------------------------

/// Whether two lists part at place `i`: they are the same before it, and there the first
/// has ended or has the smaller number.
pub open spec fn parts_at(a: Seq<u64>, b: Seq<u64>, i: int) -> bool {
    &&& 0 <= i <= a.len()
    &&& i < b.len()
    &&& forall|k: int| 0 <= k < i ==> #[trigger] a[k] == b[k]
    &&& i == a.len() || a[i] < b[i]
}

/// The first place where two lists differ decides between them, and a list that is the
/// start of another comes before it.
pub proof fn the_first_difference_decides(a: Seq<u64>, b: Seq<u64>)
    ensures
        lex_less(a, b) <==> exists|i: int| #[trigger] parts_at(a, b, i),
    decreases a.len(),
{
    if a.len() > 0 && b.len() > 0 {
        let (x, y) = (a.drop_first(), b.drop_first());
        the_first_difference_decides(x, y);
        if a[0] == b[0] {
            if lex_less(x, y) {
                let i = choose|i: int| #[trigger] parts_at(x, y, i);
                assert forall|k: int| 0 <= k < i + 1 implies #[trigger] a[k] == b[k] by {
                    if k > 0 {
                        assert(x[k - 1] == y[k - 1]);
                    }
                }
                assert(i < x.len() ==> x[i] == a[i + 1]);
                assert(y[i] == b[i + 1]);
                assert(parts_at(a, b, i + 1));
            }
            if exists|i: int| #[trigger] parts_at(a, b, i) {
                let i = choose|i: int| #[trigger] parts_at(a, b, i);
                assert(i > 0);
                assert forall|k: int| 0 <= k < i - 1 implies #[trigger] x[k] == y[k] by {
                    assert(a[k + 1] == b[k + 1]);
                }
                assert(i < a.len() ==> x[i - 1] == a[i]);
                assert(y[i - 1] == b[i]);
                assert(parts_at(x, y, i - 1));
            }
        } else {
            if a[0] < b[0] {
                assert(parts_at(a, b, 0));
            }
            if exists|i: int| #[trigger] parts_at(a, b, i) {
                let i = choose|i: int| #[trigger] parts_at(a, b, i);
                if i > 0 {
                    assert(a[0] == b[0]);
                }
            }
        }
    } else if b.len() > 0 {
        assert(parts_at(a, b, 0));
    }
}

/// Arranging lists each item as often as it was given: what was given once comes once.
pub proof fn arranging_repeats_nothing(items: Seq<usize>, keys: Seq<Seq<u64>>, out: Seq<usize>)
    requires
        items.len() == keys.len(),
        arranged(items, keys, out),
        items.no_duplicates(),
    ensures
        out.no_duplicates(),
        out.len() == items.len(),
{
    let p = choose|p: Seq<usize>| #[trigger] arranged_by(items, keys, p, out);
    lemma_sorts_distinct(keys, p);
    assert forall|i: int, j: int| 0 <= i < out.len() && 0 <= j < out.len() && i != j implies out[i]
        != out[j] by {
        assert(p[i] != p[j]);
        assert(out[i] == items[p[i] as int] && out[j] == items[p[j] as int]);
    }
}

/// Of what was picked from a list and arranged, nothing comes twice.
pub proof fn a_selection_repeats_nothing(
    n: nat,
    keep: spec_fn(int) -> bool,
    key: spec_fn(usize) -> Seq<u64>,
    picked: Seq<usize>,
)
    requires
        n <= usize::MAX,
        arranged(positions(n, keep), positions(n, keep).map_values(key), picked),
    ensures
        picked.no_duplicates(),
        forall|i: int| 0 <= i < picked.len() ==> #[trigger] picked[i] < n,
{
    let found = positions(n, keep);
    lemma_positions(n, keep);
    assert forall|i: int, j: int| 0 <= i < found.len() && 0 <= j < found.len() && i
        != j implies found[i] != found[j] by {
        if i < j {
            assert(found[i] < found[j]);
        } else {
            assert(found[j] < found[i]);
        }
    }
    arranging_repeats_nothing(found, found.map_values(key), picked);
    arranged_is_sorted(found, found.map_values(key), picked);
    assert forall|i: int| 0 <= i < picked.len() implies #[trigger] picked[i] < n by {
        assert(found.contains(picked[i]));
    }
}

} // verus!
