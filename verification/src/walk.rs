//! The files to index among those that a walk found.

use crate::chunk;
use crate::chunk::Lang;
use crate::order;
use crate::path;
use crate::text;
use vstd::prelude::*;

verus! {

/// A sorted list of paths without repetitions: of equal neighbours the first is kept.
pub open spec fn without_repeats(list: Seq<Seq<char>>) -> Seq<Seq<char>>
    decreases list.len(),
{
    if list.len() == 0 {
        seq![]
    } else {
        let rest = without_repeats(list.drop_last());
        if rest.len() > 0 && path::same_path(rest.last(), list.last()) {
            rest
        } else {
            rest.push(list.last())
        }
    }
}

/// Whether `picked` lists the supported paths among `found` in path order.
pub open spec fn supported_in_order(found: Seq<Seq<char>>, picked: Seq<usize>) -> bool {
    let at = order::positions(found.len(), |i: int| chunk::lang_of_path(found[i]) is Some);
    order::arranged(at, at.map_values(|i: usize| path::path_key(found[i as int])), picked)
}

/// The paths at some positions.
pub open spec fn paths_at(found: Seq<Seq<char>>, picked: Seq<usize>) -> Seq<Seq<char>> {
    picked.map_values(|i: usize| found[i as int])
}

/// The supported files among those that a walk found, sorted and each once.
pub fn discover(found: &Vec<String>) -> (r: Vec<String>)
    ensures
        exists|picked: Seq<usize>| #[trigger]
            supported_in_order(text::texts(found@), picked) && text::texts(r@) == without_repeats(
                paths_at(text::texts(found@), picked),
            ),
{
    let ghost all = text::texts(found@);
    let ghost keep = |i: int| chunk::lang_of_path(all[i]) is Some;
    let ghost key = |i: usize| path::path_key(all[i as int]);
    let mut at: Vec<usize> = Vec::new();
    let mut keys: Vec<Vec<u64>> = Vec::new();
    let mut i: usize = 0;
    while i < found.len()
        invariant
            all == text::texts(found@),
            keep == (|i: int| chunk::lang_of_path(all[i]) is Some),
            key == (|i: usize| path::path_key(all[i as int])),
            i <= found.len(),
            at@ == order::positions(i as nat, keep),
            order::key_views(keys@) == at@.map_values(key),
        decreases found.len() - i,
    {
        assert(all[i as int] == found@[i as int]@);
        if Lang::from_path(found[i].as_str()).is_some() {
            let k = path::key_of_path(found[i].as_str());
            proof {
                order::lemma_key_push(keys@, k);
                assert(at@.push(i).map_values(key) =~= at@.map_values(key).push(key(i)));
            }
            keys.push(k);
            at.push(i);
        }
        i += 1;
    }
    assert(keys@.len() == order::key_views(keys@).len());
    let picked = order::arrange(&at, &keys);
    proof {
        order::lemma_positions(all.len(), keep);
        order::arranged_is_sorted(at@, order::key_views(keys@), picked@);
    }
    let ghost list = paths_at(all, picked@);
    let mut out: Vec<String> = Vec::new();
    let mut k: usize = 0;
    assert(text::texts(out@) =~= without_repeats(list.take(0)));
    while k < picked.len()
        invariant
            all == text::texts(found@),
            at@ == order::positions(all.len(), keep),
            forall|i: int|
                0 <= i < at@.len() ==> (#[trigger] at@[i]) < all.len() && keep(at@[i] as int),
            forall|i: int| 0 <= i < picked@.len() ==> at@.contains(#[trigger] picked@[i]),
            list == paths_at(all, picked@),
            k <= picked.len(),
            text::texts(out@) == without_repeats(list.take(k as int)),
        decreases picked.len() - k,
    {
        proof {
            assert(at@.contains(picked@[k as int]));
            assert(list.take(k + 1).drop_last() =~= list.take(k as int));
            assert(list.take(k + 1).last() == all[picked@[k as int] as int]);
        }
        let file = found[picked[k]].clone();
        assert(text::texts(out@).len() == out@.len());
        let repeat = if out.len() > 0 {
            assert(text::texts(out@).last() == out@[out@.len() - 1]@);
            path::is_same_path(out[out.len() - 1].as_str(), file.as_str())
        } else {
            false
        };
        if !repeat {
            proof {
                text::lemma_texts_push(out@, file);
            }
            out.push(file);
        }
        k += 1;
    }
    assert(list.take(list.len() as int) =~= list);
    assert(supported_in_order(all, picked@));
    out
}

/// Whether the keys of a list of paths do not decrease.
spec fn ascending(list: Seq<Seq<char>>) -> bool {
    forall|i: int, j: int|
        0 <= i < j < list.len() ==> !order::lex_less(
            path::path_key(#[trigger] list[j]),
            path::path_key(#[trigger] list[i]),
        )
}

/// Whether the keys of a list of paths increase.
spec fn increasing(list: Seq<Seq<char>>) -> bool {
    forall|i: int, j: int|
        0 <= i < j < list.len() ==> order::lex_less(
            path::path_key(#[trigger] list[i]),
            path::path_key(#[trigger] list[j]),
        )
}

proof fn lemma_repeats_members(list: Seq<Seq<char>>, i: int)
    requires
        0 <= i < without_repeats(list).len(),
    ensures
        list.contains(without_repeats(list)[i]),
    decreases list.len(),
{
    let init = list.drop_last();
    let rest = without_repeats(init);
    let all = without_repeats(list);
    if i < rest.len() {
        lemma_repeats_members(init, i);
        let k = choose|k: int| 0 <= k < init.len() && init[k] == rest[i];
        assert(list[k] == all[i]);
    } else {
        assert(list[list.len() - 1] == all[i]);
    }
}

proof fn lemma_repeats_last(list: Seq<Seq<char>>)
    requires
        list.len() > 0,
    ensures
        without_repeats(list).len() > 0,
        path::same_path(without_repeats(list).last(), list.last()),
{
}

proof fn lemma_repeats_all(list: Seq<Seq<char>>, k: int)
    requires
        0 <= k < list.len(),
    ensures
        exists|i: int|
            0 <= i < without_repeats(list).len() && path::same_path(
                #[trigger] without_repeats(list)[i],
                list[k],
            ),
    decreases list.len(),
{
    let init = list.drop_last();
    let rest = without_repeats(init);
    let all = without_repeats(list);
    if k < init.len() {
        lemma_repeats_all(init, k);
        let i = choose|i: int| 0 <= i < rest.len() && path::same_path(#[trigger] rest[i], init[k]);
        assert(all[i] == rest[i]);
        assert(init[k] == list[k]);
    } else {
        lemma_repeats_last(list);
        assert(path::same_path(all[all.len() - 1], list[k]));
    }
}

proof fn lemma_repeats_increasing(list: Seq<Seq<char>>)
    requires
        ascending(list),
    ensures
        increasing(without_repeats(list)),
    decreases list.len(),
{
    if list.len() > 0 {
        let init = list.drop_last();
        let last = list.last();
        assert(ascending(init)) by {
            assert forall|i: int, j: int| 0 <= i < j < init.len() implies !order::lex_less(
                path::path_key(#[trigger] init[j]),
                path::path_key(#[trigger] init[i]),
            ) by {
                assert(!order::lex_less(path::path_key(list[j]), path::path_key(list[i])));
            }
        }
        lemma_repeats_increasing(init);
        let rest = without_repeats(init);
        if rest.len() > 0 && !path::same_path(rest.last(), last) {
            let top = path::path_key(rest.last());
            let y = path::path_key(last);
            lemma_repeats_members(init, rest.len() - 1);
            let m = choose|m: int| 0 <= m < init.len() && init[m] == rest.last();
            assert(list[m] == rest.last());
            assert(!order::lex_less(path::path_key(list[list.len() - 1]), path::path_key(list[m])));
            order::lemma_lex_total(top, y);
            path::same_path_means_same_key(rest.last(), last);
            assert(order::lex_less(top, y));
            let all = rest.push(last);
            assert forall|i: int, j: int| 0 <= i < j < all.len() implies order::lex_less(
                path::path_key(#[trigger] all[i]),
                path::path_key(#[trigger] all[j]),
            ) by {
                if j < rest.len() {
                    assert(all[i] == rest[i] && all[j] == rest[j]);
                } else {
                    assert(all[j] == last);
                    if i < rest.len() - 1 {
                        assert(order::lex_less(
                            path::path_key(rest[i]),
                            path::path_key(rest[rest.len() - 1]),
                        ));
                        order::lemma_lex_transitive(path::path_key(rest[i]), top, y);
                    }
                }
            }
        }
    }
}

/// Discovery is stable: the result is strictly sorted by path, holds no path twice,
/// only supported paths that were found, and one for each of those.
pub proof fn discovered_files_are_sorted_and_distinct(
    found: Seq<Seq<char>>,
    picked: Seq<usize>,
    r: Seq<Seq<char>>,
)
    requires
        found.len() <= usize::MAX,
        supported_in_order(found, picked),
        r == without_repeats(paths_at(found, picked)),
    ensures
        forall|i: int, j: int|
            0 <= i < j < r.len() ==> order::lex_less(
                path::path_key(#[trigger] r[i]),
                path::path_key(#[trigger] r[j]),
            ) && !path::same_path(r[i], r[j]),
        forall|i: int|
            0 <= i < r.len() ==> found.contains(#[trigger] r[i]) && chunk::lang_of_path(
                r[i],
            ) is Some,
        forall|k: int|
            0 <= k < found.len() && chunk::lang_of_path(#[trigger] found[k]) is Some ==> exists|
                i: int,
            |
                0 <= i < r.len() && path::same_path(#[trigger] r[i], found[k]),
{
    let keep = |i: int| chunk::lang_of_path(found[i]) is Some;
    let key = |i: usize| path::path_key(found[i as int]);
    let list = paths_at(found, picked);
    order::arranged_selection(found.len(), keep, key, picked);
    order::lemma_positions(found.len(), keep);
    let at = order::positions(found.len(), keep);
    order::arranged_is_sorted(at, at.map_values(key), picked);
    assert(ascending(list)) by {
        assert forall|i: int, j: int| 0 <= i < j < list.len() implies !order::lex_less(
            path::path_key(#[trigger] list[j]),
            path::path_key(#[trigger] list[i]),
        ) by {
            assert(!order::lex_less(key(picked[j]), key(picked[i])));
        }
    }
    lemma_repeats_increasing(list);
    assert forall|i: int, j: int| 0 <= i < j < r.len() implies order::lex_less(
        path::path_key(#[trigger] r[i]),
        path::path_key(#[trigger] r[j]),
    ) && !path::same_path(r[i], r[j]) by {
        path::same_path_means_same_key(r[i], r[j]);
        order::lemma_lex_irreflexive(path::path_key(r[i]));
    }
    assert forall|i: int| 0 <= i < r.len() implies found.contains(#[trigger] r[i])
        && chunk::lang_of_path(r[i]) is Some by {
        lemma_repeats_members(list, i);
        let k = choose|k: int| 0 <= k < list.len() && list[k] == r[i];
        assert(at.contains(picked[k]));
        let m = choose|m: int| 0 <= m < at.len() && at[m] == picked[k];
        assert(keep(at[m] as int));
        assert(found[picked[k] as int] == r[i]);
    }
    assert forall|k: int|
        0 <= k < found.len() && chunk::lang_of_path(#[trigger] found[k]) is Some implies exists|
        i: int,
    |
        0 <= i < r.len() && path::same_path(#[trigger] r[i], found[k]) by {
        assert(keep(k));
        assert(picked.contains(k as usize));
        let m = choose|m: int| 0 <= m < picked.len() && picked[m] == k as usize;
        assert(list[m] == found[k]);
        lemma_repeats_all(list, m);
        let i = choose|i: int| 0 <= i < r.len() && path::same_path(#[trigger] r[i], list[m]);
        assert(path::same_path(r[i], found[k]));
    }
}

/// The keys of a list of paths.
spec fn path_keys(list: Seq<Seq<char>>) -> Seq<Seq<u64>> {
    list.map_values(|p: Seq<char>| path::path_key(p))
}

/// Whatever is discovered among some paths is discovered among the same paths listed
/// otherwise.
proof fn lemma_keys_kept(
    found: Seq<Seq<char>>,
    picked: Seq<usize>,
    other: Seq<Seq<char>>,
    chosen: Seq<usize>,
)
    requires
        found.len() <= usize::MAX,
        other.len() <= usize::MAX,
        supported_in_order(found, picked),
        supported_in_order(other, chosen),
        forall|p: Seq<char>| #[trigger] found.contains(p) ==> other.contains(p),
    ensures
        order::keys_increase(path_keys(without_repeats(paths_at(found, picked)))),
        forall|k: Seq<u64>| #[trigger]
            path_keys(without_repeats(paths_at(found, picked))).contains(k) ==> path_keys(
                without_repeats(paths_at(other, chosen)),
            ).contains(k),
{
    let r = without_repeats(paths_at(found, picked));
    let s = without_repeats(paths_at(other, chosen));
    discovered_files_are_sorted_and_distinct(found, picked, r);
    discovered_files_are_sorted_and_distinct(other, chosen, s);
    let x = path_keys(r);
    let y = path_keys(s);
    assert forall|i: int, j: int| 0 <= i < j < x.len() implies order::lex_less(
        #[trigger] x[i],
        #[trigger] x[j],
    ) by {
        assert(order::lex_less(path::path_key(r[i]), path::path_key(r[j])));
    }
    assert forall|k: Seq<u64>| #[trigger] x.contains(k) implies y.contains(k) by {
        let i = choose|i: int| 0 <= i < x.len() && x[i] == k;
        assert(found.contains(r[i]));
        assert(other.contains(r[i]));
        let n = choose|n: int| 0 <= n < other.len() && other[n] == r[i];
        assert(chunk::lang_of_path(other[n]) is Some);
        let j = choose|j: int| 0 <= j < s.len() && path::same_path(#[trigger] s[j], other[n]);
        path::same_path_means_same_key(s[j], other[n]);
        assert(y[j] == k);
    }
}

/// The order of the walked files and repetitions among them make no difference: the
/// same paths are discovered, in the same order, and in the same spelling where no path
/// was found in two spellings. Nothing is discovered among no files.
pub proof fn only_the_set_of_walked_files_counts(
    found: Seq<Seq<char>>,
    picked: Seq<usize>,
    r: Seq<Seq<char>>,
    other: Seq<Seq<char>>,
    chosen: Seq<usize>,
    s: Seq<Seq<char>>,
)
    requires
        found.len() <= usize::MAX,
        other.len() <= usize::MAX,
        supported_in_order(found, picked),
        supported_in_order(other, chosen),
        r == without_repeats(paths_at(found, picked)),
        s == without_repeats(paths_at(other, chosen)),
        forall|p: Seq<char>| #[trigger] found.contains(p) <==> other.contains(p),
    ensures
        r.len() == s.len(),
        forall|i: int| 0 <= i < r.len() ==> path::same_path(#[trigger] r[i], s[i]),
        (forall|i: int, j: int|
            0 <= i < j < found.len() && path::same_path(#[trigger] found[i], #[trigger] found[j])
                ==> found[i] == found[j]) ==> r == s,
        found.len() == 0 ==> r.len() == 0,
{
    lemma_keys_kept(found, picked, other, chosen);
    lemma_keys_kept(other, chosen, found, picked);
    let x = path_keys(r);
    let y = path_keys(s);
    assert forall|k: Seq<u64>| #[trigger] x.contains(k) <==> y.contains(k) by {
        if y.contains(k) {
            assert(x.contains(k));
        }
    }
    order::lemma_increasing_keys_same(x, y);
    discovered_files_are_sorted_and_distinct(found, picked, r);
    discovered_files_are_sorted_and_distinct(other, chosen, s);
    assert(x.len() == r.len() && y.len() == s.len());
    assert forall|i: int| 0 <= i < r.len() implies path::same_path(#[trigger] r[i], s[i]) by {
        assert(x[i] == path::path_key(r[i]) && y[i] == path::path_key(s[i]));
        path::same_path_means_same_key(r[i], s[i]);
    }
    if forall|i: int, j: int|
        0 <= i < j < found.len() && path::same_path(#[trigger] found[i], #[trigger] found[j])
            ==> found[i] == found[j] {
        assert forall|i: int| 0 <= i < r.len() implies #[trigger] r[i] == s[i] by {
            assert(found.contains(r[i]));
            assert(other.contains(s[i]));
            assert(found.contains(s[i]));
            let a = choose|a: int| 0 <= a < found.len() && found[a] == r[i];
            let b = choose|b: int| 0 <= b < found.len() && found[b] == s[i];
            assert(path::same_path(r[i], s[i]));
            path::same_path_means_same_key(r[i], s[i]);
            path::same_path_means_same_key(s[i], r[i]);
            assert(path::same_path(found[a], found[b]));
            assert(path::same_path(found[b], found[a]));
        }
        assert(r =~= s);
    }
    if found.len() == 0 && r.len() > 0 {
        assert(found.contains(r[0]));
    }
}

} // verus!
