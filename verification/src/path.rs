//! Paths as `/`-separated text: their components, the order of two paths, and
//! the operations on them that indexing needs.
//!
//! Repeated and trailing separators do not matter, nor does a `.` component
//! other than a leading one.

use crate::order;
use crate::text;
use vstd::prelude::*;

verus! {

/// Whether a piece between two separators is no component of its own.
pub open spec fn ignorable(piece: Seq<char>) -> bool {
    piece.len() == 0 || piece == seq!['.']
}

/// The pieces of a path between its separators.
pub open spec fn path_pieces(p: Seq<char>) -> Seq<Seq<char>> {
    text::split_on(p, '/')
}

/// Whether a path starts at the root.
pub open spec fn rooted(p: Seq<char>) -> bool {
    p.len() > 0 && p[0] == '/'
}

/// Whether a path starts with the component `.`.
pub open spec fn dotted(p: Seq<char>) -> bool {
    path_pieces(p)[0] == seq!['.']
}

/// The predicate that keeps the pieces that are components.
pub open spec fn is_name() -> spec_fn(Seq<char>) -> bool {
    |x: Seq<char>| !ignorable(x)
}

/// The names of a path, outermost first, without a leading root or `.`.
pub open spec fn names(p: Seq<char>) -> Seq<Seq<char>> {
    path_pieces(p).filter(is_name())
}

/// Names, each closed by a separator.
pub open spec fn closed_names(list: Seq<Seq<char>>) -> Seq<char>
    decreases list.len(),
{
    if list.len() == 0 {
        seq![]
    } else {
        list[0] + seq!['/'] + closed_names(list.drop_first())
    }
}

/// The normal form of a path: the same text for two paths exactly when their
/// components agree.
pub open spec fn canonical(p: Seq<char>) -> Seq<char> {
    let head = if rooted(p) {
        seq!['/']
    } else if dotted(p) {
        seq!['.', '/']
    } else {
        seq![]
    };
    head + closed_names(names(p))
}

/// Whether two texts are the same path.
pub open spec fn same_path(a: Seq<char>, b: Seq<char>) -> bool {
    canonical(a) == canonical(b)
}

/// A character in a sort key; zero is left for the end of a name.
pub open spec fn char_key(c: char) -> u64 {
    (c as u32 + 1) as u64
}

/// A text as a sort key, character by character.
pub open spec fn text_key(s: Seq<char>) -> Seq<u64> {
    s.map_values(|c: char| char_key(c))
}

/// A name in a sort key: `..` before any ordinary name, ordinary names by their
/// characters.
pub open spec fn name_key(name: Seq<char>) -> Seq<u64> {
    if name == seq!['.', '.'] {
        seq![3u64]
    } else {
        seq![4u64] + text_key(name) + seq![0u64]
    }
}

pub open spec fn name_keys(list: Seq<Seq<char>>) -> Seq<u64>
    decreases list.len(),
{
    if list.len() == 0 {
        seq![]
    } else {
        name_key(list[0]) + name_keys(list.drop_first())
    }
}

/// The sort key of a path. Keys compare lexicographically as the paths compare
/// component by component: the root first, then `.`, `..` and ordinary names.
pub open spec fn path_key(p: Seq<char>) -> Seq<u64> {
    let head = if rooted(p) {
        seq![1u64]
    } else if dotted(p) {
        seq![2u64]
    } else {
        seq![]
    };
    head + name_keys(names(p))
}

/// `rel` seen from `base`: an absolute `rel` replaces the base.
pub open spec fn joined(base: Seq<char>, rel: Seq<char>) -> Seq<char> {
    if rooted(rel) {
        rel
    } else if base.len() == 0 || base.last() == '/' {
        base + rel
    } else {
        base + seq!['/'] + rel
    }
}

/// The last component of a path, if it is an ordinary name.
pub open spec fn file_name(p: Seq<char>) -> Option<Seq<char>> {
    let list = names(p);
    if list.len() == 0 || list.last() == seq!['.', '.'] {
        None
    } else {
        Some(list.last())
    }
}

/// What follows the last dot of the file name; a leading dot starts no extension.
pub open spec fn extension(p: Seq<char>) -> Option<Seq<char>> {
    match file_name(p) {
        None => None,
        Some(name) => {
            let tail = text::suffix_len(name, text::other_than('.'));
            if tail + 1 >= name.len() {
                None
            } else {
                Some(name.skip(name.len() - tail))
            }
        },
    }
}

/// A list without its leading pieces that are no components.
pub open spec fn skip_ignorable(list: Seq<Seq<char>>) -> Seq<Seq<char>>
    decreases list.len(),
{
    if list.len() > 0 && ignorable(list[0]) {
        skip_ignorable(list.drop_first())
    } else {
        list
    }
}

/// A list without its trailing pieces that are no components.
pub open spec fn chop_ignorable(list: Seq<Seq<char>>) -> Seq<Seq<char>>
    decreases list.len(),
{
    if list.len() > 0 && ignorable(list.last()) {
        chop_ignorable(list.drop_last())
    } else {
        list
    }
}

/// The pieces that follow the first `n` names.
pub open spec fn after_names(list: Seq<Seq<char>>, n: nat) -> Seq<Seq<char>>
    decreases n,
{
    let rest = skip_ignorable(list);
    if n == 0 || rest.len() == 0 {
        rest
    } else {
        after_names(rest.drop_first(), (n - 1) as nat)
    }
}

/// Whether the components of `base` are the first components of `p`.
pub open spec fn lies_under(p: Seq<char>, base: Seq<char>) -> bool {
    &&& rooted(p) == rooted(base)
    &&& dotted(p) == dotted(base)
    &&& names(base).len() <= names(p).len()
    &&& names(p).take(names(base).len() as int) == names(base)
}

/// A path without what follows its last component.
pub open spec fn without_tail(p: Seq<char>) -> Seq<char> {
    let pieces = path_pieces(p);
    if rooted(p) || dotted(p) {
        let rest = chop_ignorable(pieces.drop_first());
        if rooted(p) && rest.len() == 0 {
            seq!['/']
        } else {
            text::join(pieces.take(1) + rest, seq!['/'])
        }
    } else {
        text::join(chop_ignorable(pieces), seq!['/'])
    }
}

/// `p` as seen from `base`: what follows the components of `base`, or `p` itself
/// when it does not lie under it. Every path lies under the empty one.
pub open spec fn relative_to(p: Seq<char>, base: Seq<char>) -> Seq<char> {
    if base.len() == 0 {
        without_tail(p)
    } else if lies_under(p, base) {
        let body = if rooted(p) || dotted(p) {
            path_pieces(p).drop_first()
        } else {
            path_pieces(p)
        };
        text::join(chop_ignorable(after_names(body, names(base).len())), seq!['/'])
    } else {
        p
    }
}

/// The directory that holds `p`, or `.` when the path does not name one.
pub open spec fn parent_or_dot(p: Seq<char>) -> Seq<char> {
    let pieces = path_pieces(p);
    let body = chop_ignorable(
        if rooted(p) || dotted(p) {
            pieces.drop_first()
        } else {
            pieces
        },
    );
    if body.len() == 0 {
        seq!['.']
    } else {
        let rest = chop_ignorable(body.drop_last());
        if rooted(p) {
            seq!['/'] + text::join(rest, seq!['/'])
        } else if dotted(p) {
            if rest.len() == 0 {
                seq!['.']
            } else {
                seq!['.', '/'] + text::join(rest, seq!['/'])
            }
        } else if rest.len() == 0 {
            seq!['.']
        } else {
            text::join(rest, seq!['/'])
        }
    }
}

/// Whether a piece is empty or a single dot.
fn is_ignorable(piece: &str) -> (r: bool)
    ensures
        r == ignorable(piece@),
{
    proof {
        reveal_strlit("");
        reveal_strlit(".");
    }
    assert(""@ =~= seq![]);
    assert("."@ =~= seq!['.']);
    assert(piece@.len() == 0 ==> piece@ =~= seq![]);
    text::same_text(piece, "") || text::same_text(piece, ".")
}

/// Whether a path starts at the root.
fn is_rooted(p: &str) -> (r: bool)
    ensures
        r == rooted(p@),
{
    proof {
        reveal_strlit("/");
    }
    assert("/"@ =~= seq!['/']);
    let r = text::begins_with(p, "/");
    assert(rooted(p@) ==> p@.subrange(0, 1) =~= seq!['/']);
    assert(r ==> p@.subrange(0, 1)[0] == '/');
    r
}

pub proof fn lemma_split_nonempty(s: Seq<char>, c: char)
    ensures
        text::split_on(s, c).len() > 0,
{
}

/// Whether a path starts with the component `.`.
fn is_dotted(p: &str) -> (r: bool)
    ensures
        r == dotted(p@),
{
    let pieces = text::pieces(p, '/');
    proof {
        lemma_split_nonempty(p@, '/');
        reveal_strlit(".");
    }
    assert("."@ =~= seq!['.']);
    assert(text::texts(pieces@)[0] == pieces@[0]@);
    text::same_text(pieces[0].as_str(), ".")
}

/// The names among `pieces`.
fn names_of(pieces: &Vec<String>) -> (r: Vec<String>)
    ensures
        text::texts(r@) == text::texts(pieces@).filter(is_name()),
{
    let ghost all = text::texts(pieces@);
    let mut out: Vec<String> = Vec::new();
    let mut i: usize = 0;
    proof {
        reveal(Seq::filter);
    }
    assert(all.take(0).filter(is_name()) =~= seq![]);
    while i < pieces.len()
        invariant
            all == text::texts(pieces@),
            i <= pieces.len(),
            text::texts(out@) == all.take(i as int).filter(is_name()),
        decreases pieces.len() - i,
    {
        proof {
            reveal(Seq::filter);
            assert(all.take(i + 1).drop_last() =~= all.take(i as int));
            assert(all.take(i + 1).last() == pieces@[i as int]@);
        }
        if !is_ignorable(pieces[i].as_str()) {
            let name = pieces[i].clone();
            proof {
                text::lemma_texts_push(out@, name);
            }
            out.push(name);
        }
        i += 1;
    }
    assert(all.take(all.len() as int) =~= all);
    out
}

/// The names of a path.
pub(crate) fn name_list(p: &str) -> (r: Vec<String>)
    ensures
        text::texts(r@) == names(p@),
{
    let pieces = text::pieces(p, '/');
    names_of(&pieces)
}

/// The normal form of a path.
pub(crate) fn canonical_text(p: &str) -> (r: String)
    ensures
        r@ == canonical(p@),
{
    let list = name_list(p);
    let ghost all = text::texts(list@);
    let mut out = String::new();
    if is_rooted(p) {
        out.push('/');
    } else if is_dotted(p) {
        out.push('.');
        out.push('/');
    }
    let ghost head = out@;
    assert(canonical(p@) =~= head + closed_names(all));
    let mut i: usize = 0;
    assert(all.skip(0) =~= all);
    while i < list.len()
        invariant
            all == text::texts(list@),
            i <= list.len(),
            out@ + closed_names(all.skip(i as int)) == head + closed_names(all),
        decreases list.len() - i,
    {
        let ghost done = out@;
        out.push_str(list[i].as_str());
        out.push('/');
        proof {
            let rest = all.skip(i as int);
            assert(rest[0] == list@[i as int]@);
            assert(rest.drop_first() =~= all.skip(i + 1));
            assert(out@ + closed_names(all.skip(i + 1)) =~= done + closed_names(rest));
        }
        i += 1;
    }
    assert(closed_names(all.skip(i as int)) =~= seq![]);
    assert(out@ + closed_names(all.skip(i as int)) =~= out@);
    out
}

/// Whether two texts are the same path.
pub fn is_same_path(a: &str, b: &str) -> (r: bool)
    ensures
        r == same_path(a@, b@),
{
    let x = canonical_text(a);
    let y = canonical_text(b);
    text::same_text(x.as_str(), y.as_str())
}

/// Appends the sort key of a text.
pub(crate) fn push_text_key(out: &mut Vec<u64>, s: &str)
    ensures
        final(out)@ == old(out)@ + text_key(s@),
{
    let cs = text::chars_of(s);
    let ghost start = out@;
    let mut i: usize = 0;
    assert(start + text_key(s@.take(0)) =~= start);
    while i < cs.len()
        invariant
            cs@ == s@,
            i <= cs.len(),
            out@ == start + text_key(s@.take(i as int)),
        decreases cs.len() - i,
    {
        let c = cs[i];
        out.push(c as u32 as u64 + 1);
        i += 1;
        assert(out@ =~= start + text_key(s@.take(i as int)));
    }
    assert(s@.take(s@.len() as int) =~= s@);
}

/// The sort key of a path.
pub(crate) fn key_of_path(p: &str) -> (r: Vec<u64>)
    ensures
        r@ == path_key(p@),
{
    let list = name_list(p);
    let ghost all = text::texts(list@);
    let mut out: Vec<u64> = Vec::new();
    if is_rooted(p) {
        out.push(1);
    } else if is_dotted(p) {
        out.push(2);
    }
    let ghost head = out@;
    assert(path_key(p@) =~= head + name_keys(all));
    let mut i: usize = 0;
    assert(all.skip(0) =~= all);
    proof {
        reveal_strlit("..");
    }
    assert(".."@ =~= seq!['.', '.']);
    while i < list.len()
        invariant
            ".."@ == seq!['.', '.'],
            all == text::texts(list@),
            i <= list.len(),
            out@ + name_keys(all.skip(i as int)) == head + name_keys(all),
        decreases list.len() - i,
    {
        let ghost done = out@;
        let ghost name = list@[i as int]@;
        if text::same_text(list[i].as_str(), "..") {
            out.push(3);
            assert(out@ =~= done + name_key(name));
        } else {
            out.push(4);
            push_text_key(&mut out, list[i].as_str());
            out.push(0);
            assert(out@ =~= done + name_key(name));
        }
        proof {
            let rest = all.skip(i as int);
            assert(rest[0] == name);
            assert(rest.drop_first() =~= all.skip(i + 1));
            assert(out@ + name_keys(all.skip(i + 1)) =~= done + name_keys(rest));
        }
        i += 1;
    }
    assert(name_keys(all.skip(i as int)) =~= seq![]);
    assert(out@ + name_keys(all.skip(i as int)) =~= out@);
    out
}

/// `rel` seen from `base`.
pub fn join_path(base: &str, rel: &str) -> (r: String)
    ensures
        r@ == joined(base@, rel@),
{
    if is_rooted(rel) {
        return rel.to_string();
    }
    let cs = text::chars_of(base);
    let mut out = base.to_string();
    if cs.len() > 0 && cs[cs.len() - 1] != '/' {
        out.push('/');
    }
    out.push_str(rel);
    out
}

/// The last component of a path, if it is an ordinary name.
pub(crate) fn file_name_of(p: &str) -> (r: Option<String>)
    ensures
        text::opt_text(r) == file_name(p@),
{
    let list = name_list(p);
    let ghost all = text::texts(list@);
    if list.len() == 0 {
        return None;
    }
    let name = &list[list.len() - 1];
    assert(all.last() == name@);
    proof {
        reveal_strlit("..");
    }
    assert(".."@ =~= seq!['.', '.']);
    if text::same_text(name.as_str(), "..") {
        None
    } else {
        Some(name.clone())
    }
}

/// The extension of a path, if it has one.
pub(crate) fn extension_of(p: &str) -> (r: Option<String>)
    ensures
        text::opt_text(r) == extension(p@),
{
    let name = match file_name_of(p) {
        Some(name) => name,
        None => {
            return None;
        },
    };
    let cs = text::chars_of(name.as_str());
    let mut n: usize = cs.len();
    while n > 0 && cs[n - 1] != '.'
        invariant
            n <= cs.len(),
            forall|j: int| n <= j < cs.len() ==> text::other_than('.')(#[trigger] cs@[j]),
        decreases n,
    {
        n -= 1;
    }
    proof {
        text::lemma_suffix_len_is(cs@, text::other_than('.'), cs.len() - n);
    }
    if n <= 1 {
        None
    } else {
        let ext = text::string_of(&cs, n, cs.len());
        assert(ext@ =~= cs@.skip(n as int));
        Some(ext)
    }
}

/// The pieces `lo..hi` joined by separators.
fn join_pieces(list: &Vec<String>, lo: usize, hi: usize) -> (r: String)
    requires
        lo <= hi <= list.len(),
    ensures
        r@ == text::join(text::texts(list@).subrange(lo as int, hi as int), seq!['/']),
{
    let mut part: Vec<String> = Vec::new();
    let mut i = lo;
    while i < hi
        invariant
            lo <= i <= hi <= list.len(),
            text::texts(part@) == text::texts(list@).subrange(lo as int, i as int),
        decreases hi - i,
    {
        let piece = list[i].clone();
        proof {
            text::lemma_texts_push(part@, piece);
        }
        part.push(piece);
        i += 1;
        assert(text::texts(part@) =~= text::texts(list@).subrange(lo as int, i as int));
    }
    proof {
        reveal_strlit("/");
    }
    assert("/"@ =~= seq!['/']);
    text::joined(&part, "/")
}

/// Start of the pieces after the leading ones that are no components.
fn skip_pieces(list: &Vec<String>, lo: usize) -> (r: usize)
    requires
        lo <= list.len(),
    ensures
        lo <= r <= list.len(),
        text::texts(list@).skip(r as int) == skip_ignorable(text::texts(list@).skip(lo as int)),
{
    let ghost all = text::texts(list@);
    let mut i = lo;
    while i < list.len() && is_ignorable(list[i].as_str())
        invariant
            all == text::texts(list@),
            lo <= i <= list.len(),
            skip_ignorable(all.skip(i as int)) == skip_ignorable(all.skip(lo as int)),
        decreases list.len() - i,
    {
        assert(all.skip(i as int).drop_first() =~= all.skip(i + 1));
        assert(all.skip(i as int)[0] == list@[i as int]@);
        i += 1;
    }
    assert(i < list.len() ==> all.skip(i as int)[0] == list@[i as int]@);
    i
}

/// End of the pieces before the trailing ones that are no components.
fn chop_pieces(list: &Vec<String>, lo: usize, hi: usize) -> (r: usize)
    requires
        lo <= hi <= list.len(),
    ensures
        lo <= r <= hi,
        text::texts(list@).subrange(lo as int, r as int) == chop_ignorable(
            text::texts(list@).subrange(lo as int, hi as int),
        ),
{
    let ghost all = text::texts(list@);
    let mut n = hi;
    while n > lo && is_ignorable(list[n - 1].as_str())
        invariant
            all == text::texts(list@),
            lo <= n <= hi <= list.len(),
            chop_ignorable(all.subrange(lo as int, n as int)) == chop_ignorable(
                all.subrange(lo as int, hi as int),
            ),
        decreases n,
    {
        assert(all.subrange(lo as int, n as int).drop_last() =~= all.subrange(lo as int, n - 1));
        assert(all.subrange(lo as int, n as int).last() == list@[n - 1]@);
        n -= 1;
    }
    assert(n > lo ==> all.subrange(lo as int, n as int).last() == list@[n - 1]@);
    n
}

/// Whether `part` holds the first strings of `list`.
fn is_prefix_list(part: &Vec<String>, list: &Vec<String>) -> (r: bool)
    ensures
        r == (part.len() <= list.len() && text::texts(list@).take(part.len() as int)
            == text::texts(part@)),
{
    if part.len() > list.len() {
        return false;
    }
    let mut i: usize = 0;
    while i < part.len()
        invariant
            i <= part.len() <= list.len(),
            forall|j: int| 0 <= j < i ==> text::texts(list@)[j] == text::texts(part@)[j],
        decreases part.len() - i,
    {
        if !text::same_text(part[i].as_str(), list[i].as_str()) {
            assert(text::texts(list@).take(part.len() as int)[i as int] != text::texts(
                part@,
            )[i as int]);
            return false;
        }
        i += 1;
    }
    assert(text::texts(list@).take(part.len() as int) =~= text::texts(part@));
    true
}

fn drop_tail(p: &str, pieces: &Vec<String>) -> (r: String)
    requires
        text::texts(pieces@) == path_pieces(p@),
    ensures
        r@ == without_tail(p@),
{
    let ghost all = text::texts(pieces@);
    proof {
        lemma_split_nonempty(p@, '/');
    }
    assert(all.len() == pieces@.len());
    let has_root = is_rooted(p);
    let first: usize = if has_root || is_dotted(p) {
        1
    } else {
        0
    };
    let stop = chop_pieces(pieces, first, pieces.len());
    assert(all.subrange(1, all.len() as int) =~= all.drop_first());
    assert(all.subrange(0, all.len() as int) =~= all);
    if has_root && stop == first {
        proof {
            reveal_strlit("/");
        }
        assert("/"@ =~= seq!['/']);
        return "/".to_string();
    }
    assert(first == 1 ==> all.subrange(0, stop as int) =~= all.take(1) + all.subrange(
        1,
        stop as int,
    ));
    join_pieces(pieces, 0, stop)
}

/// `p` as seen from `base`.
pub fn strip_base(p: &str, base: &str) -> (r: String)
    ensures
        r@ == relative_to(p@, base@),
{
    let pieces = text::pieces(p, '/');
    let ghost all = text::texts(pieces@);
    if base.is_empty() {
        return drop_tail(p, &pieces);
    }
    let own = names_of(&pieces);
    let outer = name_list(base);
    let has_root = is_rooted(p);
    let has_dot = is_dotted(p);
    if has_root != is_rooted(base) || has_dot != is_dotted(base) || !is_prefix_list(&outer, &own) {
        return p.to_string();
    }
    proof {
        lemma_split_nonempty(p@, '/');
    }
    let first: usize = if has_root || has_dot {
        1
    } else {
        0
    };
    let ghost body = all.skip(first as int);
    assert(body =~= if rooted(p@) || dotted(p@) {
        path_pieces(p@).drop_first()
    } else {
        path_pieces(p@)
    });
    let mut at = first;
    let mut left: usize = outer.len();
    loop
        invariant_except_break
            at <= pieces.len(),
            after_names(all.skip(at as int), left as nat) == after_names(body, outer.len() as nat),
        invariant
            all == text::texts(pieces@),
        ensures
            at <= pieces.len(),
            all.skip(at as int) == after_names(body, outer.len() as nat),
        decreases left,
    {
        at = skip_pieces(&pieces, at);
        if left == 0 || at >= pieces.len() {
            break;
        }
        assert(all.skip(at as int).drop_first() =~= all.skip(at + 1));
        at += 1;
        left -= 1;
    }
    let stop = chop_pieces(&pieces, at, pieces.len());
    assert(all.subrange(at as int, all.len() as int) =~= all.skip(at as int));
    join_pieces(&pieces, at, stop)
}

/// The directory that holds `p`, or `.`.
pub fn parent_dir(p: &str) -> (r: String)
    ensures
        r@ == parent_or_dot(p@),
{
    let pieces = text::pieces(p, '/');
    let ghost all = text::texts(pieces@);
    let has_root = is_rooted(p);
    let has_dot = is_dotted(p);
    proof {
        lemma_split_nonempty(p@, '/');
        reveal_strlit(".");
    }
    assert("."@ =~= seq!['.']);
    let first: usize = if has_root || has_dot {
        1
    } else {
        0
    };
    assert(all.subrange(first as int, all.len() as int) =~= if rooted(p@) || dotted(p@) {
        path_pieces(p@).drop_first()
    } else {
        path_pieces(p@)
    });
    let end = chop_pieces(&pieces, first, pieces.len());
    if end == first {
        return ".".to_string();
    }
    assert(all.subrange(first as int, end as int).drop_last() =~= all.subrange(
        first as int,
        end - 1,
    ));
    let stop = chop_pieces(&pieces, first, end - 1);
    let rest = join_pieces(&pieces, first, stop);
    let mut out = String::new();
    if has_root {
        out.push('/');
    } else if stop == first {
        out.push('.');
        return out;
    } else if has_dot {
        out.push('.');
        out.push('/');
    }
    out.push_str(rest.as_str());
    out
}

/// A word closed by a terminator that it does not hold can be read back.
pub proof fn lemma_terminated<T>(x: Seq<T>, y: Seq<T>, t: T, r: Seq<T>, s: Seq<T>)
    requires
        x + seq![t] + r == y + seq![t] + s,
        !x.contains(t),
        !y.contains(t),
    ensures
        x == y,
        r == s,
{
    let left = x + seq![t] + r;
    let right = y + seq![t] + s;
    assert(left[x.len() as int] == t);
    assert(right[y.len() as int] == t);
    if x.len() < y.len() {
        assert(right[x.len() as int] == y[x.len() as int]);
        assert(y.contains(t));
    }
    if y.len() < x.len() {
        assert(left[y.len() as int] == x[y.len() as int]);
        assert(x.contains(t));
    }
    assert forall|i: int| 0 <= i < x.len() implies x[i] == y[i] by {
        assert(left[i] == x[i]);
        assert(right[i] == y[i]);
    }
    assert(x =~= y);
    assert(r =~= left.skip(x.len() as int + 1));
    assert(s =~= right.skip(y.len() as int + 1));
}

/// No piece holds the separator.
proof fn lemma_pieces_plain(s: Seq<char>, c: char, i: int)
    requires
        0 <= i < text::split_on(s, c).len(),
    ensures
        !text::split_on(s, c)[i].contains(c),
    decreases s.len(),
{
    text::lemma_prefix_len(s, text::other_than(c));
    let n = text::find_char(s, c) as int;
    if n < s.len() {
        let rest = text::split_on(s.skip(n + 1), c);
        assert(text::split_on(s, c) == seq![s.take(n)] + rest);
        if i == 0 {
            assert(text::split_on(s, c)[0] == s.take(n));
            assert forall|j: int| 0 <= j < n implies s.take(n)[j] != c by {
                assert(text::other_than(c)(s[j]));
            }
        } else {
            assert(text::split_on(s, c)[i] == rest[i - 1]);
            lemma_pieces_plain(s.skip(n + 1), c, i - 1);
        }
    } else {
        assert forall|j: int| 0 <= j < s.len() implies s[j] != c by {
            assert(text::other_than(c)(s[j]));
        }
    }
}

spec fn plain_names(list: Seq<Seq<char>>) -> bool {
    forall|i: int| 0 <= i < list.len() ==> !ignorable(#[trigger] list[i]) && !list[i].contains('/')
}

proof fn lemma_names_plain(p: Seq<char>)
    ensures
        plain_names(names(p)),
{
    let pieces = path_pieces(p);
    let list = names(p);
    assert forall|i: int| 0 <= i < list.len() implies !ignorable(#[trigger] list[i])
        && !list[i].contains('/') by {
        pieces.lemma_filter_pred(is_name(), i);
        pieces.lemma_filter_contains_rev(is_name(), list[i]);
        let k = choose|k: int| 0 <= k < pieces.len() && pieces[k] == list[i];
        lemma_pieces_plain(p, '/', k);
    }
}

proof fn lemma_closed_names_injective(a: Seq<Seq<char>>, b: Seq<Seq<char>>)
    requires
        plain_names(a),
        plain_names(b),
        closed_names(a) == closed_names(b),
    ensures
        a == b,
    decreases a.len(),
{
    if a.len() == 0 || b.len() == 0 {
        if a.len() > 0 {
            assert(closed_names(a)[a[0].len() as int] == '/');
        }
        if b.len() > 0 {
            assert(closed_names(b)[b[0].len() as int] == '/');
        }
        assert(a =~= b);
    } else {
        lemma_terminated(
            a[0],
            b[0],
            '/',
            closed_names(a.drop_first()),
            closed_names(b.drop_first()),
        );
        assert(plain_names(a.drop_first()));
        assert(plain_names(b.drop_first()));
        lemma_closed_names_injective(a.drop_first(), b.drop_first());
        assert(a =~= seq![a[0]] + a.drop_first());
        assert(b =~= seq![b[0]] + b.drop_first());
    }
}

pub proof fn lemma_text_key_injective(a: Seq<char>, b: Seq<char>)
    requires
        text_key(a) == text_key(b),
    ensures
        a == b,
{
    assert(a.len() == text_key(a).len() && b.len() == text_key(b).len());
    assert forall|i: int| 0 <= i < a.len() implies a[i] == b[i] by {
        assert(text_key(a)[i] == char_key(a[i]));
        assert(text_key(b)[i] == char_key(b[i]));
        vstd::utf8::char_is_scalar(a[i]);
        vstd::utf8::char_is_scalar(b[i]);
        vstd::utf8::char_u32_cast(a[i], a[i] as u32);
        vstd::utf8::char_u32_cast(b[i], b[i] as u32);
    }
    assert(a =~= b);
}

proof fn lemma_text_key_nonzero(a: Seq<char>)
    ensures
        !text_key(a).contains(0u64),
{
    assert forall|i: int| 0 <= i < a.len() implies text_key(a)[i] != 0 by {
        vstd::utf8::char_is_scalar(a[i]);
    }
}

proof fn lemma_name_keys_injective(a: Seq<Seq<char>>, b: Seq<Seq<char>>)
    requires
        name_keys(a) == name_keys(b),
    ensures
        a == b,
    decreases a.len(),
{
    if a.len() == 0 || b.len() == 0 {
        if a.len() > 0 {
            assert(name_key(a[0]).len() > 0);
        }
        if b.len() > 0 {
            assert(name_key(b[0]).len() > 0);
        }
        assert(a =~= b);
    } else {
        let ra = name_keys(a.drop_first());
        let rb = name_keys(b.drop_first());
        let dots = seq!['.', '.'];
        assert((name_key(a[0]) + ra)[0] == name_key(a[0])[0]);
        assert((name_key(b[0]) + rb)[0] == name_key(b[0])[0]);
        if a[0] == dots {
            assert(b[0] == dots);
            assert(ra =~= name_keys(a).skip(1));
            assert(rb =~= name_keys(b).skip(1));
        } else {
            assert(b[0] != dots);
            assert(text_key(a[0]) + seq![0u64] + ra =~= name_keys(a).skip(1));
            assert(text_key(b[0]) + seq![0u64] + rb =~= name_keys(b).skip(1));
            lemma_text_key_nonzero(a[0]);
            lemma_text_key_nonzero(b[0]);
            lemma_terminated(text_key(a[0]), text_key(b[0]), 0u64, ra, rb);
            lemma_text_key_injective(a[0], b[0]);
        }
        lemma_name_keys_injective(a.drop_first(), b.drop_first());
        assert(a =~= seq![a[0]] + a.drop_first());
        assert(b =~= seq![b[0]] + b.drop_first());
    }
}

/// Two texts are the same path exactly when they start alike and have the same names.
pub proof fn same_path_means_same_components(a: Seq<char>, b: Seq<char>)
    ensures
        same_path(a, b) <==> (rooted(a) == rooted(b) && dotted(a) == dotted(b) && names(a)
            == names(b)),
{
    lemma_names_plain(a);
    lemma_names_plain(b);
    lemma_head_exclusive(a);
    lemma_head_exclusive(b);
    let ca = closed_names(names(a));
    let cb = closed_names(names(b));
    if same_path(a, b) {
        lemma_canonical_head(a);
        lemma_canonical_head(b);
        let h: int = if rooted(a) {
            1
        } else if dotted(a) {
            2
        } else {
            0
        };
        assert(ca =~= canonical(a).skip(h));
        assert(cb =~= canonical(b).skip(h));
        lemma_closed_names_injective(names(a), names(b));
    }
}

proof fn lemma_head_exclusive(p: Seq<char>)
    ensures
        !(rooted(p) && dotted(p)),
{
    if rooted(p) {
        text::lemma_prefix_len(p, text::other_than('/'));
        assert(text::find_char(p, '/') == 0);
        assert(path_pieces(p)[0] =~= seq![]);
    }
}

/// How a normal form starts tells how the path starts.
proof fn lemma_canonical_head(p: Seq<char>)
    ensures
        rooted(p) <==> canonical(p).len() > 0 && canonical(p)[0] == '/',
        dotted(p) <==> canonical(p).len() > 1 && canonical(p)[0] == '.' && canonical(p)[1] == '/',
{
    lemma_names_plain(p);
    lemma_head_exclusive(p);
    let list = names(p);
    if !rooted(p) && !dotted(p) && list.len() > 0 {
        assert(!ignorable(list[0]) && !list[0].contains('/'));
        assert(canonical(p) =~= list[0] + seq!['/'] + closed_names(list.drop_first()));
        assert(canonical(p)[0] == list[0][0]);
        assert(list[0].contains(list[0][0]));
        if list[0].len() > 1 {
            assert(canonical(p)[1] == list[0][1]);
            assert(list[0].contains(list[0][1]));
        } else if list[0][0] == '.' {
            assert(list[0] =~= seq!['.']);
        }
    }
}

/// The order of paths agrees with their identity: two keys are equal exactly for
/// the same path.
pub proof fn same_path_means_same_key(a: Seq<char>, b: Seq<char>)
    ensures
        same_path(a, b) <==> path_key(a) == path_key(b),
{
    same_path_means_same_components(a, b);
    lemma_head_exclusive(a);
    lemma_head_exclusive(b);
    let ka = name_keys(names(a));
    let kb = name_keys(names(b));
    assert(names(a).len() > 0 ==> ka.len() > 0 && ka[0] == name_key(names(a)[0])[0]);
    assert(names(b).len() > 0 ==> kb.len() > 0 && kb[0] == name_key(names(b)[0])[0]);
    if path_key(a) == path_key(b) {
        let h: int = if rooted(a) || dotted(a) {
            1
        } else {
            0
        };
        if path_key(a).len() > 0 {
            assert(path_key(a)[0] == path_key(b)[0]);
        }
        assert(rooted(a) == rooted(b) && dotted(a) == dotted(b));
        assert(ka =~= path_key(a).skip(h));
        assert(kb =~= path_key(b).skip(h));
        lemma_name_keys_injective(names(a), names(b));
    }
}

/// Two names with different keys differ within both keys.
proof fn lemma_name_key_mismatch(a: Seq<char>, b: Seq<char>) -> (i: int)
    requires
        name_key(a) != name_key(b),
    ensures
        0 <= i < name_key(a).len(),
        i < name_key(b).len(),
        name_key(a)[i] != name_key(b)[i],
{
    let ka = name_key(a);
    let kb = name_key(b);
    if ka[0] != kb[0] {
        0
    } else {
        let x = text_key(a);
        let y = text_key(b);
        lemma_text_key_nonzero(a);
        lemma_text_key_nonzero(b);
        if x.len() < y.len() {
            assert(ka[x.len() as int + 1] == 0);
            assert(kb[x.len() as int + 1] == y[x.len() as int]);
            assert(y.contains(y[x.len() as int]));
            x.len() as int + 1
        } else if y.len() < x.len() {
            assert(kb[y.len() as int + 1] == 0);
            assert(ka[y.len() as int + 1] == x[y.len() as int]);
            assert(x.contains(x[y.len() as int]));
            y.len() as int + 1
        } else {
            if forall|j: int| 0 <= j < x.len() ==> x[j] == y[j] {
                assert(x =~= y);
                assert(false);
            }
            let j = choose|j: int| 0 <= j < x.len() && x[j] != y[j];
            assert(ka[j + 1] == x[j]);
            assert(kb[j + 1] == y[j]);
            j + 1
        }
    }
}

proof fn lemma_names_extended(a: Seq<Seq<char>>, b: Seq<Seq<char>>, x: Seq<u64>, y: Seq<u64>)
    ensures
        order::lex_less(name_keys(a) + (seq![0u64] + x), name_keys(b) + (seq![0u64] + y)) <==> (
        order::lex_less(name_keys(a), name_keys(b)) || (name_keys(a) == name_keys(b)
            && order::lex_less(x, y))),
    decreases a.len(),
{
    let zx = seq![0u64] + x;
    let zy = seq![0u64] + y;
    order::lemma_lex_irreflexive(name_keys(a));
    if a.len() == 0 && b.len() == 0 {
        assert(name_keys(a) + zx =~= zx);
        assert(name_keys(b) + zy =~= zy);
        order::lemma_lex_prefix(seq![0u64], x, y);
    } else if a.len() == 0 {
        assert(name_keys(b)[0] == name_key(b[0])[0]);
        assert((name_keys(b) + zy)[0] == name_keys(b)[0]);
        assert(name_keys(a) + zx =~= zx);
        assert(zx[0] == 0);
    } else if b.len() == 0 {
        assert(name_keys(a)[0] == name_key(a[0])[0]);
        assert((name_keys(a) + zx)[0] == name_keys(a)[0]);
        assert(name_keys(b) + zy =~= zy);
        assert(zy[0] == 0);
    } else {
        let ka = name_key(a[0]);
        let kb = name_key(b[0]);
        let ra = name_keys(a.drop_first());
        let rb = name_keys(b.drop_first());
        assert(name_keys(a) + zx =~= ka + (ra + zx));
        assert(name_keys(b) + zy =~= kb + (rb + zy));
        if ka == kb {
            lemma_names_extended(a.drop_first(), b.drop_first(), x, y);
            order::lemma_lex_prefix(ka, ra + zx, rb + zy);
            order::lemma_lex_prefix(ka, ra, rb);
            if ka + ra == kb + rb {
                assert(ra =~= (ka + ra).skip(ka.len() as int));
                assert(rb =~= (kb + rb).skip(kb.len() as int));
            }
        } else {
            let i = lemma_name_key_mismatch(a[0], b[0]);
            order::lemma_lex_mismatch(ka, kb, ra + zx, rb + zy, i);
            order::lemma_lex_mismatch(ka, kb, ra, rb, i);
            assert((ka + ra)[i] == ka[i]);
            assert((kb + rb)[i] == kb[i]);
        }
    }
}

/// Behind a path key and a closing zero, further keys decide between equal paths
/// only.
pub proof fn lemma_path_key_extended(a: Seq<char>, b: Seq<char>, x: Seq<u64>, y: Seq<u64>)
    ensures
        order::lex_less(path_key(a) + (seq![0u64] + x), path_key(b) + (seq![0u64] + y)) <==> (
        order::lex_less(path_key(a), path_key(b)) || (path_key(a) == path_key(b)
            && order::lex_less(x, y))),
{
    let na = name_keys(names(a));
    let nb = name_keys(names(b));
    let zx = seq![0u64] + x;
    let zy = seq![0u64] + y;
    lemma_head_exclusive(a);
    lemma_head_exclusive(b);
    lemma_names_extended(names(a), names(b), x, y);
    assert(names(a).len() > 0 ==> na.len() > 0 && na[0] == name_key(names(a)[0])[0]);
    assert(names(b).len() > 0 ==> nb.len() > 0 && nb[0] == name_key(names(b)[0])[0]);
    let ha = if rooted(a) {
        seq![1u64]
    } else if dotted(a) {
        seq![2u64]
    } else {
        seq![]
    };
    let hb = if rooted(b) {
        seq![1u64]
    } else if dotted(b) {
        seq![2u64]
    } else {
        seq![]
    };
    assert(path_key(a) + zx =~= ha + (na + zx));
    assert(path_key(b) + zy =~= hb + (nb + zy));
    if ha == hb {
        order::lemma_lex_prefix(ha, na + zx, nb + zy);
        order::lemma_lex_prefix(ha, na, nb);
        if path_key(a) == path_key(b) {
            assert(na =~= path_key(a).skip(ha.len() as int));
            assert(nb =~= path_key(b).skip(hb.len() as int));
        }
    } else {
        let fa = ha + (na + zx);
        let fb = hb + (nb + zy);
        assert(fa[0] != fb[0]);
        order::lemma_lex_total(path_key(a), path_key(b));
        if ha.len() == 0 && na.len() == 0 {
            assert(path_key(a).len() == 0);
        } else if hb.len() == 0 && nb.len() == 0 {
            assert(path_key(b).len() == 0);
        } else {
            assert(path_key(a)[0] == fa[0]);
            assert(path_key(b)[0] == fb[0]);
        }
    }
}

// ---------------------------------------------------------------------------
// Joining and stripping
// ---------------------------------------------------------------------------

/// The pieces of two texts with a separator between them are those of the one and
/// then those of the other.
proof fn lemma_split_concat(a: Seq<char>, b: Seq<char>, c: char)
    ensures
        text::split_on(a + seq![c] + b, c) == text::split_on(a, c) + text::split_on(b, c),
    decreases a.len(),
{
    let whole = a + seq![c] + b;
    let p = text::other_than(c);
    let n = text::find_char(a, c) as int;
    text::lemma_prefix_len(a, p);
    assert forall|j: int| 0 <= j < n implies p(#[trigger] whole[j]) by {
        assert(whole[j] == a[j]);
    }
    text::lemma_prefix_len_is(whole, p, n);
    assert(whole.take(n) =~= a.take(n));
    if n < a.len() {
        lemma_split_concat(a.skip(n + 1), b, c);
        assert(whole.skip(n + 1) =~= a.skip(n + 1) + seq![c] + b);
        assert(text::split_on(whole, c) =~= text::split_on(a, c) + text::split_on(b, c));
    } else {
        assert(whole.skip(n + 1) =~= b);
        assert(a.take(n) =~= a);
        assert(text::split_on(whole, c) =~= text::split_on(a, c) + text::split_on(b, c));
    }
}

/// Whether no piece holds a separator.
spec fn plain_pieces(list: Seq<Seq<char>>) -> bool {
    forall|i: int| 0 <= i < list.len() ==> !(#[trigger] list[i]).contains('/')
}

proof fn lemma_split_plain(s: Seq<char>)
    requires
        !s.contains('/'),
    ensures
        path_pieces(s) == seq![s],
{
    text::lemma_prefix_len(s, text::other_than('/'));
    let n = text::find_char(s, '/') as int;
    if n < s.len() {
        assert(s[n] == '/');
    }
}

/// Pieces that are joined come apart again.
proof fn lemma_join_split(list: Seq<Seq<char>>)
    requires
        list.len() > 0,
        plain_pieces(list),
    ensures
        path_pieces(text::join(list, seq!['/'])) == list,
    decreases list.len(),
{
    if list.len() == 1 {
        assert(!list[0].contains('/'));
        lemma_split_plain(list[0]);
        assert(seq![list[0]] =~= list);
    } else {
        let init = list.drop_last();
        let last = list.last();
        assert forall|i: int| 0 <= i < init.len() implies !(#[trigger] init[i]).contains('/') by {
            assert(init[i] == list[i]);
        }
        lemma_join_split(init);
        assert(list[list.len() - 1] == last);
        lemma_split_plain(last);
        lemma_split_concat(text::join(init, seq!['/']), last, '/');
        assert(init + seq![last] =~= list);
    }
}

/// A list filtered is its first element, if that is kept, and then the rest.
proof fn lemma_filter_first(list: Seq<Seq<char>>)
    requires
        list.len() > 0,
    ensures
        list.filter(is_name()) == (if ignorable(list[0]) {
            Seq::<Seq<char>>::empty()
        } else {
            seq![list[0]]
        }) + list.drop_first().filter(is_name()),
{
    let first = seq![list[0]];
    assert(first + list.drop_first() =~= list);
    Seq::filter_distributes_over_add(first, list.drop_first(), is_name());
    reveal(Seq::filter);
    assert(first.drop_last() =~= Seq::<Seq<char>>::empty());
    assert(first.drop_last().filter(is_name()) =~= Seq::<Seq<char>>::empty());
    assert(first.filter(is_name()) =~= if ignorable(list[0]) {
        Seq::<Seq<char>>::empty()
    } else {
        first
    });
}

proof fn lemma_skip_ignorable(list: Seq<Seq<char>>)
    requires
        plain_pieces(list),
    ensures
        skip_ignorable(list).filter(is_name()) == list.filter(is_name()),
        plain_pieces(skip_ignorable(list)),
        skip_ignorable(list).len() > 0 ==> !ignorable(skip_ignorable(list)[0]),
    decreases list.len(),
{
    if list.len() > 0 && ignorable(list[0]) {
        lemma_filter_first(list);
        assert(Seq::<Seq<char>>::empty() + list.drop_first().filter(is_name())
            =~= list.drop_first().filter(is_name()));
        assert forall|i: int| 0 <= i < list.drop_first().len() implies !(
        #[trigger] list.drop_first()[i]).contains('/') by {
            assert(list.drop_first()[i] == list[i + 1]);
        }
        lemma_skip_ignorable(list.drop_first());
    }
}

proof fn lemma_chop_ignorable(list: Seq<Seq<char>>)
    requires
        plain_pieces(list),
    ensures
        chop_ignorable(list).filter(is_name()) == list.filter(is_name()),
        plain_pieces(chop_ignorable(list)),
        chop_ignorable(list).len() <= list.len(),
        chop_ignorable(list) == list.take(chop_ignorable(list).len() as int),
    decreases list.len(),
{
    if list.len() > 0 && ignorable(list.last()) {
        let init = list.drop_last();
        reveal(Seq::filter);
        assert forall|i: int| 0 <= i < init.len() implies !(#[trigger] init[i]).contains('/') by {
            assert(init[i] == list[i]);
        }
        lemma_chop_ignorable(init);
        let n = chop_ignorable(init).len() as int;
        assert(init.take(n) =~= list.take(n));
    } else {
        assert(list.take(list.len() as int) =~= list);
    }
}

proof fn lemma_after_names(list: Seq<Seq<char>>, n: nat)
    requires
        plain_pieces(list),
        n <= list.filter(is_name()).len(),
    ensures
        after_names(list, n).filter(is_name()) == list.filter(is_name()).skip(n as int),
        plain_pieces(after_names(list, n)),
        after_names(list, n).len() > 0 ==> !ignorable(after_names(list, n)[0]),
    decreases n,
{
    let rest = skip_ignorable(list);
    let kept = list.filter(is_name());
    lemma_skip_ignorable(list);
    if n == 0 {
        assert(kept.skip(0) =~= kept);
    } else if rest.len() == 0 {
        reveal(Seq::filter);
        assert(kept.len() == 0);
    } else {
        lemma_filter_first(rest);
        let next = rest.drop_first();
        assert forall|i: int| 0 <= i < next.len() implies !(#[trigger] next[i]).contains('/') by {
            assert(next[i] == rest[i + 1]);
        }
        assert(next.filter(is_name()) =~= kept.drop_first());
        lemma_after_names(next, (n - 1) as nat);
        assert(kept.drop_first().skip(n - 1) =~= kept.skip(n as int));
    }
}

proof fn lemma_path_pieces_plain(p: Seq<char>)
    ensures
        plain_pieces(path_pieces(p)),
{
    assert forall|i: int| 0 <= i < path_pieces(p).len() implies !(
    #[trigger] path_pieces(p)[i]).contains('/') by {
        lemma_pieces_plain(p, '/', i);
    }
}

/// The empty path has no names.
proof fn lemma_no_names()
    ensures
        names(Seq::<char>::empty()) == Seq::<Seq<char>>::empty(),
        path_pieces(Seq::<char>::empty()) == seq![Seq::<char>::empty()],
{
    let none = Seq::<char>::empty();
    let pieces = path_pieces(none);
    lemma_split_plain(none);
    lemma_filter_first(pieces);
    reveal(Seq::filter);
    assert(pieces.drop_first() =~= Seq::<Seq<char>>::empty());
    assert(pieces.drop_first().filter(is_name()) =~= Seq::<Seq<char>>::empty());
    assert(ignorable(pieces[0]));
}

/// The components of a joined path: those of the base, and then those of the other.
proof fn lemma_joined(base: Seq<char>, rel: Seq<char>)
    requires
        !rooted(rel),
    ensures
        names(joined(base, rel)) == names(base) + names(rel),
        base.len() > 0 ==> rooted(joined(base, rel)) == rooted(base),
        base.len() > 0 ==> dotted(joined(base, rel)) == dotted(base),
        base.len() == 0 ==> joined(base, rel) == rel,
{
    let none = Seq::<char>::empty();
    lemma_no_names();
    if base.len() == 0 {
        assert(base =~= none);
        assert(base + rel =~= rel);
        assert(names(base) + names(rel) =~= names(rel));
    } else {
        let stem = if base.last() == '/' {
            base.drop_last()
        } else {
            base
        };
        lemma_split_concat(stem, rel, '/');
        lemma_split_nonempty(stem, '/');
        Seq::filter_distributes_over_add(path_pieces(stem), path_pieces(rel), is_name());
        if base.last() == '/' {
            assert(stem + seq!['/'] + none =~= base);
            assert(stem + seq!['/'] + rel =~= base + rel);
            lemma_split_concat(stem, none, '/');
            Seq::filter_distributes_over_add(path_pieces(stem), path_pieces(none), is_name());
            assert(names(base) =~= names(stem));
            assert(path_pieces(base)[0] == path_pieces(stem)[0]);
        }
        assert(joined(base, rel) == stem + seq!['/'] + rel);
        assert(path_pieces(joined(base, rel))[0] == path_pieces(stem)[0]);
        assert(joined(base, rel)[0] == base[0]);
    }
}

/// A relative path that is joined to a base lies under it.
pub proof fn joined_path_lies_under_its_base(base: Seq<char>, rel: Seq<char>)
    requires
        base.len() > 0,
        !rooted(rel),
    ensures
        lies_under(joined(base, rel), base),
{
    lemma_joined(base, rel);
    assert((names(base) + names(rel)).take(names(base).len() as int) =~= names(base));
}

/// The pieces behind the leading root or `.`, if there is one.
proof fn lemma_body(p: Seq<char>)
    ensures
        rooted(p) || dotted(p) ==> path_pieces(p).len() > 0 && ignorable(path_pieces(p)[0])
            && path_pieces(p).drop_first().filter(is_name()) == names(p) && plain_pieces(
            path_pieces(p).drop_first(),
        ),
        rooted(p) ==> path_pieces(p)[0] == Seq::<char>::empty(),
{
    lemma_split_nonempty(p, '/');
    lemma_path_pieces_plain(p);
    let pieces = path_pieces(p);
    if rooted(p) {
        text::lemma_prefix_len(p, text::other_than('/'));
        assert(text::find_char(p, '/') == 0);
        assert(pieces[0] =~= Seq::<char>::empty());
    }
    if rooted(p) || dotted(p) {
        lemma_filter_first(pieces);
        assert(Seq::<Seq<char>>::empty() + pieces.drop_first().filter(is_name())
            =~= pieces.drop_first().filter(is_name()));
        assert forall|i: int| 0 <= i < pieces.drop_first().len() implies !(
        #[trigger] pieces.drop_first()[i]).contains('/') by {
            assert(pieces.drop_first()[i] == pieces[i + 1]);
        }
    }
}

/// A path whose first piece is empty starts at the root, unless it is empty itself.
proof fn lemma_empty_piece(p: Seq<char>)
    requires
        p.len() > 0,
    ensures
        rooted(p) <==> path_pieces(p)[0] == Seq::<char>::empty(),
{
    lemma_body(p);
    text::lemma_prefix_len(p, text::other_than('/'));
    if path_pieces(p)[0] == Seq::<char>::empty() {
        let n = text::find_char(p, '/') as int;
        if n < p.len() {
            assert(path_pieces(p)[0] == p.take(n));
            assert(p.take(n).len() == n);
        } else {
            assert(path_pieces(p)[0] == p);
        }
    }
}

/// Dropping what follows the last component does not change the path.
proof fn lemma_without_tail(p: Seq<char>)
    ensures
        same_path(without_tail(p), p),
{
    let pieces = path_pieces(p);
    let out = without_tail(p);
    lemma_body(p);
    lemma_path_pieces_plain(p);
    lemma_split_nonempty(p, '/');
    lemma_head_exclusive(p);
    same_path_means_same_components(out, p);
    if rooted(p) || dotted(p) {
        let body = pieces.drop_first();
        let rest = chop_ignorable(body);
        lemma_chop_ignorable(body);
        if rooted(p) && rest.len() == 0 {
            assert(out == seq!['/']);
            lemma_no_names();
            let none = Seq::<char>::empty();
            lemma_split_concat(none, none, '/');
            assert(none + seq!['/'] + none =~= out);
            Seq::filter_distributes_over_add(path_pieces(none), path_pieces(none), is_name());
            reveal(Seq::filter);
            assert(rest.filter(is_name()) =~= Seq::<Seq<char>>::empty());
            assert(names(out) =~= names(p));
            lemma_head_exclusive(out);
        } else {
            let list = pieces.take(1) + rest;
            assert forall|i: int| 0 <= i < list.len() implies !(#[trigger] list[i]).contains(
                '/',
            ) by {
                if i == 0 {
                    assert(list[0] == pieces[0]);
                } else {
                    assert(list[i] == rest[i - 1]);
                }
            }
            lemma_join_split(list);
            lemma_filter_first(list);
            assert(list.drop_first() =~= rest);
            assert(list[0] == pieces[0]);
            assert(names(out) =~= names(p));
            lemma_join_first(list);
            lemma_empty_piece(out);
            lemma_head_exclusive(out);
        }
    } else {
        let list = chop_ignorable(pieces);
        lemma_chop_ignorable(pieces);
        if list.len() == 0 {
            lemma_no_names();
            assert(out =~= Seq::<char>::empty());
            reveal(Seq::filter);
            assert(list.filter(is_name()) =~= Seq::<Seq<char>>::empty());
        } else {
            lemma_join_split(list);
            assert(list[0] == pieces[0]);
            if p.len() > 0 {
                lemma_empty_piece(p);
            }
            lemma_join_first(list);
            if out.len() > 0 {
                lemma_empty_piece(out);
            }
        }
    }
}

/// A joined list is at least as long as its first piece, and longer if there are more.
proof fn lemma_join_first(list: Seq<Seq<char>>)
    requires
        list.len() > 0,
    ensures
        text::join(list, seq!['/']).len() >= list[0].len(),
        list.len() > 1 ==> text::join(list, seq!['/']).len() > list[0].len(),
    decreases list.len(),
{
    if list.len() > 1 {
        lemma_join_first(list.drop_last());
        assert(list.drop_last()[0] == list[0]);
    }
}

/// What a file is called from a base leads back to it: joined to the base, it is the
/// same path again.
pub proof fn relative_path_leads_back(p: Seq<char>, base: Seq<char>)
    requires
        lies_under(p, base) || rooted(p) || base.len() == 0,
    ensures
        same_path(joined(base, relative_to(p, base)), p),
{
    let rel = relative_to(p, base);
    if base.len() == 0 {
        lemma_without_tail(p);
        assert(base + rel =~= rel);
    } else if lies_under(p, base) {
        let n = names(base).len();
        let body = if rooted(p) || dotted(p) {
            path_pieces(p).drop_first()
        } else {
            path_pieces(p)
        };
        lemma_body(p);
        lemma_path_pieces_plain(p);
        assert(body.filter(is_name()) == names(p));
        lemma_after_names(body, n);
        let left = after_names(body, n);
        let list = chop_ignorable(left);
        lemma_chop_ignorable(left);
        if list.len() == 0 {
            lemma_no_names();
            assert(rel =~= Seq::<char>::empty());
            reveal(Seq::filter);
            assert(list.filter(is_name()) =~= Seq::<Seq<char>>::empty());
        } else {
            lemma_join_split(list);
            assert(list[0] == left[0]);
            lemma_join_first(list);
            lemma_empty_piece(rel);
        }
        assert(names(rel) == names(p).skip(n as int));
        assert(!rooted(rel));
        lemma_joined(base, rel);
        assert(names(base) + names(p).skip(n as int) =~= names(p));
        same_path_means_same_components(joined(base, rel), p);
    }
}

/// Joining goes by the path, not by how it is written.
pub proof fn joined_paths_agree(base: Seq<char>, a: Seq<char>, b: Seq<char>)
    requires
        same_path(a, b),
    ensures
        same_path(joined(base, a), joined(base, b)),
{
    same_path_means_same_components(a, b);
    if !rooted(a) {
        lemma_joined(base, a);
        lemma_joined(base, b);
        same_path_means_same_components(joined(base, a), joined(base, b));
    }
}

/// Files under a base are told apart by what they are called from it.
pub proof fn relative_paths_tell_files_apart(p: Seq<char>, q: Seq<char>, base: Seq<char>)
    requires
        lies_under(p, base) || rooted(p) || base.len() == 0,
        lies_under(q, base) || rooted(q) || base.len() == 0,
        same_path(relative_to(p, base), relative_to(q, base)),
    ensures
        same_path(p, q),
{
    relative_path_leads_back(p, base);
    relative_path_leads_back(q, base);
    joined_paths_agree(base, relative_to(p, base), relative_to(q, base));
}

// ---------------------------------------------------------------------------
// Components and their order
// ---------------------------------------------------------------------------

/// Whether a text comes before another by its characters: at the first difference it has
/// ended or has the smaller one.
pub open spec fn text_before(a: Seq<char>, b: Seq<char>) -> bool {
    exists|i: int| #[trigger] chars_part_at(a, b, i)
}

pub open spec fn chars_part_at(a: Seq<char>, b: Seq<char>, i: int) -> bool {
    &&& 0 <= i <= a.len()
    &&& i < b.len()
    &&& a.take(i) == b.take(i)
    &&& i == a.len() || (a[i] as u32) < (b[i] as u32)
}

/// The key of a text orders it by its characters.
pub proof fn text_keys_order_by_characters(a: Seq<char>, b: Seq<char>)
    ensures
        order::lex_less(text_key(a), text_key(b)) <==> text_before(a, b),
{
    let (x, y) = (text_key(a), text_key(b));
    order::the_first_difference_decides(x, y);
    assert forall|i: int| 0 <= i < a.len() implies #[trigger] x[i] == a[i] as u32 + 1 by {
        vstd::utf8::char_is_scalar(a[i]);
    }
    assert forall|i: int| 0 <= i < b.len() implies #[trigger] y[i] == b[i] as u32 + 1 by {
        vstd::utf8::char_is_scalar(b[i]);
    }
    if order::lex_less(x, y) {
        let i = choose|i: int| #[trigger] order::parts_at(x, y, i);
        assert forall|k: int| 0 <= k < i implies a[k] == b[k] by {
            assert(x[k] == y[k]);
            vstd::utf8::char_u32_cast(a[k], a[k] as u32);
            vstd::utf8::char_u32_cast(b[k], b[k] as u32);
        }
        assert(a.take(i) =~= b.take(i));
        assert(i < a.len() ==> x[i] == a[i] as u32 + 1);
        assert(y[i] == b[i] as u32 + 1);
        assert(chars_part_at(a, b, i));
    }
    if text_before(a, b) {
        let i = choose|i: int| #[trigger] chars_part_at(a, b, i);
        assert forall|k: int| 0 <= k < i implies #[trigger] x[k] == y[k] by {
            assert(a.take(i)[k] == b.take(i)[k]);
        }
        assert(i < a.len() ==> x[i] == a[i] as u32 + 1);
        assert(y[i] == b[i] as u32 + 1);
        assert(order::parts_at(x, y, i));
    }
}

/// Whether a name comes before another: `..` before any other, and the others by their
/// characters.
pub open spec fn name_before(x: Seq<char>, y: Seq<char>) -> bool {
    y != seq!['.', '.'] && (x == seq!['.', '.'] || text_before(x, y))
}

/// Whether a list of names comes before another: at the first difference it has ended or
/// has the name that comes first.
pub open spec fn names_before(a: Seq<Seq<char>>, b: Seq<Seq<char>>) -> bool
    decreases a.len(),
{
    b.len() > 0 && (a.len() == 0 || name_before(a[0], b[0]) || (a[0] == b[0] && names_before(
        a.drop_first(),
        b.drop_first(),
    )))
}

proof fn lemma_name_key_less(a: Seq<char>, b: Seq<char>)
    requires
        a != b,
    ensures
        order::lex_less(name_key(a), name_key(b)) <==> name_before(a, b),
{
    let dots = seq!['.', '.'];
    let (x, y) = (text_key(a), text_key(b));
    let zero = seq![0u64];
    text_keys_order_by_characters(a, b);
    if a != dots && b != dots {
        assert(name_key(a) =~= seq![4u64] + (x + zero));
        assert(name_key(b) =~= seq![4u64] + (y + zero));
        order::lemma_lex_prefix(seq![4u64], x + zero, y + zero);
        lemma_text_key_nonzero(a);
        lemma_text_key_nonzero(b);
        order::the_first_difference_decides(x, y);
        order::the_first_difference_decides(x + zero, y + zero);
        if order::lex_less(x, y) {
            let i = choose|i: int| #[trigger] order::parts_at(x, y, i);
            assert(y.contains(y[i]));
            assert forall|k: int| 0 <= k < i implies #[trigger] (x + zero)[k] == (y + zero)[k] by {
                assert(x[k] == y[k]);
            }
            assert(order::parts_at(x + zero, y + zero, i));
        }
        if order::lex_less(x + zero, y + zero) {
            let i = choose|i: int| #[trigger] order::parts_at(x + zero, y + zero, i);
            assert forall|k: int| 0 <= k < i && k < x.len() && k < y.len() implies #[trigger] x[k]
                == y[k] by {
                assert((x + zero)[k] == (y + zero)[k]);
            }
            if i > x.len() {
                assert((x + zero)[x.len() as int] == (y + zero)[x.len() as int]);
                if x.len() < y.len() {
                    assert(y.contains(y[x.len() as int]));
                }
            }
            assert(i <= x.len());
            if i == y.len() {
                assert((y + zero)[i] == 0);
            }
            assert(order::parts_at(x, y, i));
        }
    } else if a == dots {
        assert(name_key(a)[0] == 3 && name_key(b)[0] == 4);
    } else {
        assert(name_key(a)[0] == 4 && name_key(b)[0] == 3);
    }
}

proof fn lemma_name_keys_less(a: Seq<Seq<char>>, b: Seq<Seq<char>>)
    ensures
        order::lex_less(name_keys(a), name_keys(b)) <==> names_before(a, b),
    decreases a.len(),
{
    if a.len() > 0 && b.len() > 0 {
        let (ka, kb) = (name_key(a[0]), name_key(b[0]));
        let (ra, rb) = (name_keys(a.drop_first()), name_keys(b.drop_first()));
        if a[0] == b[0] {
            lemma_name_keys_less(a.drop_first(), b.drop_first());
            order::lemma_lex_prefix(ka, ra, rb);
            if text_before(a[0], b[0]) {
                text_keys_order_by_characters(a[0], b[0]);
                order::lemma_lex_irreflexive(text_key(a[0]));
            }
        } else {
            lemma_name_key_less(a[0], b[0]);
            if ka == kb {
                let one = seq![a[0]];
                let other = seq![b[0]];
                assert(one.drop_first() =~= Seq::<Seq<char>>::empty());
                assert(other.drop_first() =~= Seq::<Seq<char>>::empty());
                assert(name_keys(one.drop_first()) =~= Seq::<u64>::empty());
                assert(name_keys(other.drop_first()) =~= Seq::<u64>::empty());
                assert(name_keys(one) =~= name_keys(other));
                lemma_name_keys_injective(one, other);
                assert(one[0] == other[0]);
            }
            let i = lemma_name_key_mismatch(a[0], b[0]);
            order::lemma_lex_mismatch(ka, kb, ra, rb, i);
        }
    } else if b.len() > 0 {
        assert(name_key(b[0]).len() > 0);
    }
}

/// Paths are ordered component by component: the root, then `.` at the start, then the
/// names, `..` before all others and the others by their characters.
pub proof fn paths_order_by_components(a: Seq<char>, b: Seq<char>)
    ensures
        order::lex_less(path_key(a), path_key(b)) <==> {
            if rooted(a) || dotted(a) || rooted(b) || dotted(b) {
                ||| rooted(a) && !rooted(b) && (dotted(b) || names(b).len() > 0)
                ||| dotted(a) && !rooted(b) && !dotted(b) && names(b).len() > 0
                ||| !rooted(a) && !dotted(a) && names(a).len() == 0
                ||| rooted(a) == rooted(b) && dotted(a) == dotted(b) && names_before(
                    names(a),
                    names(b),
                )
            } else {
                names_before(names(a), names(b))
            }
        },
{
    lemma_head_exclusive(a);
    lemma_head_exclusive(b);
    lemma_name_keys_less(names(a), names(b));
    let (na, nb) = (name_keys(names(a)), name_keys(names(b)));
    assert(names(a).len() > 0 ==> na.len() > 0 && na[0] == name_key(names(a)[0])[0]);
    assert(names(b).len() > 0 ==> nb.len() > 0 && nb[0] == name_key(names(b)[0])[0]);
    if rooted(a) == rooted(b) && dotted(a) == dotted(b) {
        let head = if rooted(a) {
            seq![1u64]
        } else if dotted(a) {
            seq![2u64]
        } else {
            seq![]
        };
        order::lemma_lex_prefix(head, na, nb);
    } else {
        let (ka, kb) = (path_key(a), path_key(b));
        if rooted(a) {
            assert(ka[0] == 1);
        } else if dotted(a) {
            assert(ka[0] == 2);
        } else {
            assert(ka =~= na);
        }
        if rooted(b) {
            assert(kb[0] == 1);
        } else if dotted(b) {
            assert(kb[0] == 2);
        } else {
            assert(kb =~= nb);
        }
    }
}

/// The names of a path are what stands between its slashes, without the empty ones and
/// the `.` ones.
pub proof fn slashes_part_the_names(a: Seq<char>, b: Seq<char>)
    ensures
        names(a + seq!['/'] + b) == names(a) + names(b),
        !a.contains('/') ==> names(a) == if a.len() == 0 || a == seq!['.'] {
            Seq::<Seq<char>>::empty()
        } else {
            seq![a]
        },
{
    lemma_split_concat(a, b, '/');
    Seq::filter_distributes_over_add(path_pieces(a), path_pieces(b), is_name());
    if !a.contains('/') {
        lemma_split_plain(a);
        let one = seq![a];
        reveal(Seq::filter);
        assert(one.drop_last() =~= Seq::<Seq<char>>::empty());
        assert(one.drop_last().filter(is_name()) =~= Seq::<Seq<char>>::empty());
    }
}

/// A path starts at the root if its first character is a slash, and at `.` if that is all
/// of it or a slash follows it.
pub proof fn starts_tell_the_root(p: Seq<char>)
    ensures
        rooted(p) <==> p.len() > 0 && p[0] == '/',
        dotted(p) <==> p.len() > 0 && p[0] == '.' && (p.len() == 1 || p[1] == '/'),
{
    let n = text::find_char(p, '/') as int;
    text::lemma_prefix_len(p, text::other_than('/'));
    if p.len() > 0 && p[0] == '.' {
        assert(text::other_than('/')(p[0]));
        if p.len() == 1 {
            assert(n == 1);
            assert(path_pieces(p)[0] =~= seq!['.']);
        } else if p[1] == '/' {
            text::lemma_prefix_len_is(p, text::other_than('/'), 1);
            assert(path_pieces(p)[0] =~= seq!['.']);
        }
    }
    if dotted(p) {
        if n >= p.len() {
            assert(path_pieces(p)[0] == p);
        } else {
            assert(path_pieces(p)[0] == p.take(n));
            assert(p.take(n).len() == 1);
            assert(p.take(n)[0] == p[0]);
        }
    }
}

/// A slash twice, a `.` between slashes, and a slash at the end change no path.
pub proof fn needless_pieces_change_no_path(a: Seq<char>, b: Seq<char>)
    requires
        a.len() > 0,
    ensures
        same_path(a + seq!['/'] + (seq!['/'] + b), a + seq!['/'] + b),
        same_path(a + seq!['/'] + (seq!['.', '/'] + b), a + seq!['/'] + b),
        same_path(a + seq!['/'], a),
{
    let none = Seq::<char>::empty();
    let dot = seq!['.'];
    let one = a + seq!['/'] + b;
    let two = a + seq!['/'] + (seq!['/'] + b);
    let dots = a + seq!['/'] + (seq!['.', '/'] + b);
    let last = a + seq!['/'] + none;
    slashes_part_the_names(a, b);
    slashes_part_the_names(a, seq!['/'] + b);
    slashes_part_the_names(none, b);
    slashes_part_the_names(a, seq!['.', '/'] + b);
    slashes_part_the_names(dot, b);
    slashes_part_the_names(a, none);
    assert(none + seq!['/'] + b =~= seq!['/'] + b);
    assert(dot + seq!['/'] + b =~= seq!['.', '/'] + b);
    assert(!dot.contains('/'));
    assert(names(none) + names(b) =~= names(b));
    assert(names(a) + names(none) =~= names(a));
    assert(a + seq!['/'] =~= last);
    starts_tell_the_root(one);
    starts_tell_the_root(two);
    starts_tell_the_root(dots);
    starts_tell_the_root(last);
    starts_tell_the_root(a);
    assert(one[0] == a[0] && two[0] == a[0] && dots[0] == a[0] && last[0] == a[0]);
    if a.len() > 1 {
        assert(one[1] == a[1] && two[1] == a[1] && dots[1] == a[1] && last[1] == a[1]);
    } else {
        assert(one[1] == '/' && two[1] == '/' && dots[1] == '/' && last[1] == '/');
    }
    same_path_means_same_components(two, one);
    same_path_means_same_components(dots, one);
    same_path_means_same_components(last, a);
}

/// A path that is joined to a base has the names of the base, then its own, and starts
/// where the base does. One that starts at the root stays as it is.
pub proof fn joining_appends_the_names(base: Seq<char>, rel: Seq<char>)
    ensures
        rel.len() > 0 && rel[0] == '/' ==> joined(base, rel) == rel,
        !(rel.len() > 0 && rel[0] == '/') ==> names(joined(base, rel)) == names(base) + names(rel),
        !(rel.len() > 0 && rel[0] == '/') && base.len() > 0 ==> rooted(joined(base, rel)) == rooted(
            base,
        ) && dotted(joined(base, rel)) == dotted(base),
        base.len() == 0 ==> joined(base, rel) == rel,
{
    if !rooted(rel) {
        lemma_joined(base, rel);
    }
    assert(base.len() == 0 ==> base + rel =~= rel);
}

/// The file name of a path is what stands behind its last slash.
pub proof fn the_last_name_is_the_file(a: Seq<char>, name: Seq<char>)
    requires
        !name.contains('/'),
        name.len() > 0,
        name != seq!['.'],
        name != seq!['.', '.'],
    ensures
        file_name(a + seq!['/'] + name) == Some(name),
        file_name(name) == Some(name),
        file_name(a + seq!['/'] + seq!['.', '.']) is None,
{
    slashes_part_the_names(a, name);
    slashes_part_the_names(name, a);
    let dots = seq!['.', '.'];
    assert(!dots.contains('/'));
    slashes_part_the_names(a, dots);
    slashes_part_the_names(dots, a);
    assert(names(a + seq!['/'] + name).last() == name);
    assert(dots.len() == 2);
    assert(names(a + seq!['/'] + dots).last() == dots);
}

/// The extension of a file is what stands behind the last dot of its name, unless the dot
/// comes first.
pub proof fn the_last_dot_starts_the_extension(a: Seq<char>, stem: Seq<char>, ext: Seq<char>)
    requires
        !stem.contains('/') && !ext.contains('/'),
        !ext.contains('.'),
        stem + seq!['.'] + ext != seq!['.', '.'],
    ensures
        stem.len() > 0 ==> extension(a + seq!['/'] + (stem + seq!['.'] + ext)) == Some(ext),
        stem.len() == 0 && ext.len() > 0 ==> extension(a + seq!['/'] + (stem + seq!['.'] + ext)) is None,
        ext.len() > 0 ==> extension(a + seq!['/'] + ext) is None,
{
    let name = stem + seq!['.'] + ext;
    let p = text::other_than('.');
    if name.contains('/') {
        let i = choose|i: int| 0 <= i < name.len() && name[i] == '/';
        if i < stem.len() {
            assert(stem.contains(stem[i]));
        } else if i > stem.len() {
            assert(ext.contains(ext[i - stem.len() - 1]));
        }
    }
    assert forall|j: int| name.len() - ext.len() <= j < name.len() implies p(#[trigger] name[j]) by {
        assert(name[j] == ext[j - stem.len() - 1]);
        assert(ext.contains(ext[j - stem.len() - 1]));
    }
    assert(name[name.len() - ext.len() - 1] == '.');
    text::lemma_suffix_len_is(name, p, ext.len() as int);
    assert(name.skip(name.len() - ext.len()) =~= ext);
    slashes_part_the_names(a, name);
    slashes_part_the_names(name, a);
    if stem.len() > 0 || ext.len() > 0 {
        assert(name.len() > 1);
        assert(names(a + seq!['/'] + name).last() == name);
    }
    lemma_dotless(a, ext);
}

proof fn lemma_dotless(a: Seq<char>, ext: Seq<char>)
    requires
        !ext.contains('/'),
        !ext.contains('.'),
    ensures
        ext.len() > 0 ==> extension(a + seq!['/'] + ext) is None,
{
    let p = text::other_than('.');
    if ext.len() > 0 {
        assert forall|j: int| 0 <= j < ext.len() implies p(#[trigger] ext[j]) by {
            assert(ext.contains(ext[j]));
        }
        text::lemma_suffix_len_is(ext, p, ext.len() as int);
        slashes_part_the_names(a, ext);
        slashes_part_the_names(ext, a);
        assert(ext != seq!['.']) by {
            assert(ext[0] != '.');
        }
        assert(names(a + seq!['/'] + ext).last() == ext);
    }
}

proof fn lemma_last_name(body: Seq<Seq<char>>)
    requires
        plain_pieces(body),
    ensures
        ({
            let kept = chop_ignorable(body);
            &&& kept.len() == 0 ==> body.filter(is_name()).len() == 0
            &&& kept.len() > 0 ==> body.filter(is_name()).len() > 0 && chop_ignorable(
                kept.drop_last(),
            ).filter(is_name()) == body.filter(is_name()).drop_last() && plain_pieces(
                chop_ignorable(kept.drop_last()),
            ) && chop_ignorable(kept.drop_last()).len() < body.len() && chop_ignorable(
                kept.drop_last(),
            ) == body.take(chop_ignorable(kept.drop_last()).len() as int)
        }),
{
    let kept = chop_ignorable(body);
    lemma_chop_ignorable(body);
    lemma_chopped_end(body);
    reveal(Seq::filter);
    if kept.len() > 0 {
        let init = kept.drop_last();
        assert forall|i: int| 0 <= i < init.len() implies !(#[trigger] init[i]).contains('/') by {
            assert(init[i] == kept[i]);
        }
        lemma_chop_ignorable(init);
        let rest = chop_ignorable(init);
        assert(is_name()(kept.last()));
        assert(kept.filter(is_name()) == init.filter(is_name()).push(kept.last()));
        assert(kept.filter(is_name()).drop_last() =~= init.filter(is_name()));
        assert(rest =~= body.take(rest.len() as int));
    }
}

proof fn lemma_chopped_end(list: Seq<Seq<char>>)
    ensures
        chop_ignorable(list).len() > 0 ==> !ignorable(chop_ignorable(list).last()),
    decreases list.len(),
{
    if list.len() > 0 && ignorable(list.last()) {
        lemma_chopped_end(list.drop_last());
    }
}

proof fn lemma_names_of_join(list: Seq<Seq<char>>)
    requires
        plain_pieces(list),
    ensures
        names(text::join(list, seq!['/'])) == list.filter(is_name()),
{
    if list.len() > 0 {
        lemma_join_split(list);
    } else {
        lemma_no_names();
        assert(text::join(list, seq!['/']) =~= Seq::<char>::empty());
        assert(list =~= Seq::<Seq<char>>::empty());
        assert(list.filter(is_name()) =~= Seq::<Seq<char>>::empty()) by {
            reveal(Seq::filter);
        }
    }
}

/// The directory of a path has its names but the last, and starts at the root if the path
/// does. A path without a name, or with one alone that is not under the root, is seen from
/// where the program is.
pub proof fn directories_leave_out_the_last_name(p: Seq<char>)
    ensures
        names(p).len() == 0 ==> parent_or_dot(p) == seq!['.'],
        names(p).len() > 0 ==> names(parent_or_dot(p)) == names(p).drop_last() && rooted(
            parent_or_dot(p),
        ) == rooted(p),
        dotted(p) ==> dotted(parent_or_dot(p)),
        !rooted(p) && names(p).len() == 1 ==> parent_or_dot(p) == seq!['.'] || dotted(
            parent_or_dot(p),
        ),
{
    lemma_head_exclusive(p);
    let dot = seq!['.'];
    starts_tell_the_root(dot);
    assert(!dot.contains('/'));
    slashes_part_the_names(dot, dot);
    if rooted(p) {
        lemma_rooted_directory(p);
    } else if dotted(p) {
        lemma_dotted_directory(p);
    } else {
        lemma_plain_directory(p);
    }
}

proof fn lemma_no_pieces(rest: Seq<Seq<char>>)
    requires
        rest.len() == 0,
    ensures
        rest.filter(is_name()) == Seq::<Seq<char>>::empty(),
{
    reveal(Seq::filter);
    assert(rest =~= Seq::<Seq<char>>::empty());
}

proof fn lemma_rooted_directory(p: Seq<char>)
    requires
        rooted(p),
    ensures
        names(p).len() == 0 ==> parent_or_dot(p) == seq!['.'],
        names(p).len() > 0 ==> names(parent_or_dot(p)) == names(p).drop_last() && rooted(
            parent_or_dot(p),
        ),
{
    let none = Seq::<char>::empty();
    lemma_body(p);
    let front = path_pieces(p).drop_first();
    lemma_last_name(front);
    let body = chop_ignorable(front);
    if body.len() > 0 {
        let rest = chop_ignorable(body.drop_last());
        let tail = text::join(rest, seq!['/']);
        lemma_names_of_join(rest);
        slashes_part_the_names(none, tail);
        assert(parent_or_dot(p) =~= none + seq!['/'] + tail);
        assert(names(none) + names(tail) =~= names(tail));
    }
}

proof fn lemma_dotted_directory(p: Seq<char>)
    requires
        dotted(p),
        !rooted(p),
    ensures
        names(p).len() == 0 ==> parent_or_dot(p) == seq!['.'],
        names(p).len() > 0 ==> names(parent_or_dot(p)) == names(p).drop_last() && !rooted(
            parent_or_dot(p),
        ),
        dotted(parent_or_dot(p)),
{
    let dot = seq!['.'];
    lemma_body(p);
    let front = path_pieces(p).drop_first();
    lemma_last_name(front);
    let body = chop_ignorable(front);
    lemma_dot();
    if body.len() > 0 {
        let rest = chop_ignorable(body.drop_last());
        if rest.len() > 0 {
            let tail = text::join(rest, seq!['/']);
            lemma_names_of_join(rest);
            lemma_under_dot(tail);
            assert(parent_or_dot(p) == seq!['.', '/'] + tail);
        } else {
            lemma_no_pieces(rest);
            assert(parent_or_dot(p) == dot);
        }
    }
}

proof fn lemma_dot()
    ensures
        names(seq!['.']) == Seq::<Seq<char>>::empty(),
        dotted(seq!['.']),
        !rooted(seq!['.']),
{
    let dot = seq!['.'];
    starts_tell_the_root(dot);
    assert(!dot.contains('/'));
    slashes_part_the_names(dot, dot);
}

proof fn lemma_under_dot(tail: Seq<char>)
    ensures
        names(seq!['.', '/'] + tail) == names(tail),
        dotted(seq!['.', '/'] + tail),
        !rooted(seq!['.', '/'] + tail),
{
    let out = seq!['.', '/'] + tail;
    lemma_dot();
    slashes_part_the_names(seq!['.'], tail);
    assert(out =~= seq!['.'] + seq!['/'] + tail);
    assert(Seq::<Seq<char>>::empty() + names(tail) =~= names(tail));
    starts_tell_the_root(out);
    assert(out[0] == '.' && out[1] == '/');
}

proof fn lemma_plain_directory(p: Seq<char>)
    requires
        !dotted(p),
        !rooted(p),
    ensures
        names(p).len() == 0 ==> parent_or_dot(p) == seq!['.'],
        names(p).len() > 0 ==> names(parent_or_dot(p)) == names(p).drop_last() && !rooted(
            parent_or_dot(p),
        ),
        names(p).len() == 1 ==> parent_or_dot(p) == seq!['.'],
{
    let dot = seq!['.'];
    let none = Seq::<char>::empty();
    let pieces = path_pieces(p);
    lemma_split_nonempty(p, '/');
    lemma_path_pieces_plain(p);
    lemma_last_name(pieces);
    let body = chop_ignorable(pieces);
    starts_tell_the_root(dot);
    assert(!dot.contains('/'));
    slashes_part_the_names(dot, dot);
    if body.len() > 0 {
        let rest = chop_ignorable(body.drop_last());
        if rest.len() > 0 {
            let out = text::join(rest, seq!['/']);
            lemma_names_of_join(rest);
            lemma_join_split(rest);
            assert(rest[0] == pieces[0]);
            if pieces[0] == none {
                lemma_empty_first(p);
            }
            assert(!ignorable(rest[0]));
            if rooted(out) {
                lemma_body(out);
            }
            rest.lemma_filter_contains(is_name(), 0);
            assert(names(p).drop_last().len() > 0);
        } else {
            lemma_no_pieces(rest);
        }
    }
}

proof fn lemma_empty_first(p: Seq<char>)
    requires
        path_pieces(p)[0] == Seq::<char>::empty(),
        path_pieces(p).len() > 1,
    ensures
        rooted(p),
{
    text::lemma_prefix_len(p, text::other_than('/'));
    let n = text::find_char(p, '/') as int;
    if n < p.len() {
        assert(p.take(n).len() == n);
    }
}

/// What a file is called from a base that it lies under are its names behind those of the
/// base, and from any other base it keeps its own name.
pub proof fn stripping_leaves_out_the_names_of_the_base(p: Seq<char>, base: Seq<char>)
    requires
        base.len() > 0,
    ensures
        lies_under(p, base) ==> names(relative_to(p, base)) == names(p).skip(
            names(base).len() as int,
        ),
        lies_under(p, base) ==> !rooted(relative_to(p, base)) && !dotted(relative_to(p, base)),
        !lies_under(p, base) ==> relative_to(p, base) == p,
{
    if lies_under(p, base) {
        let n = names(base).len();
        let none = Seq::<char>::empty();
        let body = if rooted(p) || dotted(p) {
            path_pieces(p).drop_first()
        } else {
            path_pieces(p)
        };
        lemma_body(p);
        lemma_path_pieces_plain(p);
        let rest = after_names(body, n);
        lemma_after_names(body, n);
        lemma_chop_ignorable(rest);
        let kept = chop_ignorable(rest);
        let rel = text::join(kept, seq!['/']);
        lemma_names_of_join(kept);
        if kept.len() > 0 {
            lemma_join_split(kept);
            assert(kept[0] == rest[0]);
            if rooted(rel) {
                lemma_body(rel);
            }
        } else {
            assert(rel =~= none);
            starts_tell_the_root(rel);
        }
    }
}

/// Two texts are the same path exactly if they start alike and have the same names, a path
/// that is joined to a base has the names of both, and its directory those but the last.
pub proof fn paths_go_by_their_names(
    a: &str,
    b: &str,
    same: bool,
    joint: String,
    dir: String,
)
    requires
        call_ensures(is_same_path, (a, b), same),
        call_ensures(join_path, (a, b), joint),
        call_ensures(parent_dir, (a,), dir),
    ensures
        same <==> rooted(a@) == rooted(b@) && dotted(a@) == dotted(b@) && names(a@) == names(b@),
        rooted(b@) ==> joint@ == b@,
        !rooted(b@) ==> names(joint@) == names(a@) + names(b@),
        names(a@).len() > 0 ==> names(dir@) == names(a@).drop_last() && rooted(dir@) == rooted(a@),
        names(a@).len() == 0 ==> dir@ == seq!['.'],
{
    same_path_means_same_components(a@, b@);
    joining_appends_the_names(a@, b@);
    starts_tell_the_root(b@);
    directories_leave_out_the_last_name(a@);
}

} // verus!
