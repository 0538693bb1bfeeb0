//! The lexical channel: a code-aware tokenizer, an inverted index over the
//! records, and keyword search on it.
//!
//! The index is derived from the records on every start and never stored, so it
//! cannot drift from them. What a match is worth is a matter of floating-point
//! numbers, and left to the caller: for every matching record the search hands
//! over the frequencies that a BM25 score is made of.

use crate::float::FloatBits;
use crate::order;
use crate::store;
use crate::store::Hit;
use crate::store::Record;
use crate::text;
use vstd::hash_map::StringHashMap;
use vstd::hash_set::StringHashSet;
use vstd::prelude::*;

verus! {

// ---------------------------------------------------------------------------
// Tokens
// ---------------------------------------------------------------------------

/// The characters of identifiers.
pub open spec fn is_ident() -> spec_fn(char) -> bool {
    |c: char| text::alphanumeric(c) || c == '_'
}

/// Whether a word is cut before position `i`: where a small letter meets a
/// capital, and before the last capital of a run that a small letter follows.
pub open spec fn camel_boundary(w: Seq<char>, i: int) -> bool {
    let prev = w[i - 1];
    let cur = w[i];
    ||| text::lowercase_char(prev) && text::uppercase_char(cur)
    ||| text::uppercase_char(prev) && text::uppercase_char(cur) && i + 1 < w.len()
        && text::lowercase_char(w[i + 1])
}

/// The part from `start`, which is whole up to `i`, and the parts after it.
pub open spec fn camel_from(w: Seq<char>, start: int, i: int) -> Seq<Seq<char>>
    decreases w.len() - i,
{
    if i >= w.len() {
        seq![w.subrange(start, w.len() as int)]
    } else if camel_boundary(w, i) {
        seq![w.subrange(start, i)] + camel_from(w, i, i + 1)
    } else {
        camel_from(w, start, i + 1)
    }
}

/// The camelCase parts of a word.
pub open spec fn camel_parts(w: Seq<char>) -> Seq<Seq<char>> {
    camel_from(w, 0, 1)
}

/// The small-letter forms of a list of texts.
pub open spec fn lowered(list: Seq<Seq<char>>) -> Seq<Seq<char>> {
    list.map_values(|s: Seq<char>| text::lowercase(s))
}

/// The small-letter camelCase parts of the non-empty pieces.
pub open spec fn sub_tokens(pieces: Seq<Seq<char>>) -> Seq<Seq<char>>
    decreases pieces.len(),
{
    if pieces.len() == 0 {
        seq![]
    } else {
        let rest = sub_tokens(pieces.drop_last());
        if pieces.last().len() == 0 {
            rest
        } else {
            rest + lowered(camel_parts(pieces.last()))
        }
    }
}

/// The predicate that keeps what differs from `whole`.
pub open spec fn differs_from(whole: Seq<char>) -> spec_fn(Seq<char>) -> bool {
    |t: Seq<char>| t != whole
}

/// The tokens of one identifier: its parts, then the whole of it.
pub open spec fn ident_tokens(ident: Seq<char>) -> Seq<Seq<char>> {
    let whole = text::lowercase(ident);
    sub_tokens(text::split_on(ident, '_')).filter(differs_from(whole)).push(whole)
}

pub open spec fn idents_tokens(idents: Seq<Seq<char>>) -> Seq<Seq<char>>
    decreases idents.len(),
{
    if idents.len() == 0 {
        seq![]
    } else {
        idents_tokens(idents.drop_last()) + ident_tokens(idents.last())
    }
}

/// The tokens of a text: those of each maximal identifier in it.
pub open spec fn tokens(s: Seq<char>) -> Seq<Seq<char>> {
    idents_tokens(text::runs(s, is_ident()))
}

/// Splits a word on its camelCase boundaries.
pub fn camel_split(word: &str) -> (r: Vec<String>)
    ensures
        text::texts(r@) == camel_parts(word@),
{
    let cs = text::chars_of(word);
    let mut out: Vec<String> = Vec::new();
    let mut start: usize = 0;
    let mut i: usize = 1;
    assert(text::texts(out@) + camel_from(cs@, 0, 1) =~= camel_parts(word@));
    while i < cs.len()
        invariant
            cs@ == word@,
            start < i,
            start <= cs.len(),
            i <= cs.len() || (i == 1 && start == 0),
            text::texts(out@) + camel_from(cs@, start as int, i as int) == camel_parts(word@),
        decreases cs.len() - i,
    {
        let ghost done = text::texts(out@);
        let ghost from = start as int;
        let prev = cs[i - 1];
        let cur = cs[i];
        let tail = i + 1 < cs.len() && cs[i + 1].is_lowercase();
        if (prev.is_lowercase() && cur.is_uppercase()) || (prev.is_uppercase()
            && cur.is_uppercase() && tail) {
            assert(camel_boundary(cs@, i as int));
            let part = text::string_of(&cs, start, i);
            proof {
                text::lemma_texts_push(out@, part);
            }
            out.push(part);
            start = i;
            assert(text::texts(out@) + camel_from(cs@, start as int, i + 1) =~= done + camel_from(
                cs@,
                from,
                i as int,
            ));
        } else {
            assert(!camel_boundary(cs@, i as int));
        }
        i += 1;
    }
    let last = text::string_of(&cs, start, cs.len());
    proof {
        text::lemma_texts_push(out@, last);
        assert(text::texts(out@) + camel_from(cs@, start as int, i as int) =~= text::texts(
            out@.push(last),
        ));
    }
    out.push(last);
    out
}

/// Appends the tokens of one identifier.
fn push_ident_tokens(out: &mut Vec<String>, ident: &str)
    requires
        ident@.len() > 0,
        none_empty(old(out)@),
    ensures
        none_empty(final(out)@),
        text::texts(final(out)@) == text::texts(old(out)@) + ident_tokens(ident@),
{
    let ghost given = text::texts(out@);
    let whole = text::to_lowercase(ident);
    let ghost keep = differs_from(whole@);
    let pieces = text::pieces(ident, '_');
    let ghost all = text::texts(pieces@);
    let mut i: usize = 0;
    proof {
        reveal(Seq::filter);
    }
    assert(sub_tokens(all.take(0)).filter(keep) =~= seq![]);
    assert(given + sub_tokens(all.take(0)).filter(keep) =~= given);
    while i < pieces.len()
        invariant
            all == text::texts(pieces@),
            keep == differs_from(whole@),
            i <= pieces.len(),
            none_empty(out@),
            text::texts(out@) == given + sub_tokens(all.take(i as int)).filter(keep),
        decreases pieces.len() - i,
    {
        let ghost before = sub_tokens(all.take(i as int));
        proof {
            assert(all.take(i + 1).drop_last() =~= all.take(i as int));
            assert(all.take(i + 1).last() == pieces@[i as int]@);
        }
        if text::byte_len(pieces[i].as_str()) > 0 {
            let parts = camel_split(pieces[i].as_str());
            let ghost low = lowered(camel_parts(pieces@[i as int]@));
            let mut k: usize = 0;
            assert(before + low.take(0) =~= before);
            proof {
                lemma_nonempty_bytes(pieces@[i as int]@);
                lemma_camel_parts_nonempty(pieces@[i as int]@, 0, 1);
            }
            while k < parts.len()
                invariant
                    keep == differs_from(whole@),
                    text::texts(parts@) == camel_parts(pieces@[i as int]@),
                    low == lowered(camel_parts(pieces@[i as int]@)),
                    forall|n: int|
                        0 <= n < camel_parts(pieces@[i as int]@).len() ==> (#[trigger] camel_parts(
                            pieces@[i as int]@,
                        )[n]).len() > 0,
                    k <= parts.len(),
                    none_empty(out@),
                    text::texts(out@) == given + (before + low.take(k as int)).filter(keep),
                decreases parts.len() - k,
            {
                let sub = text::to_lowercase(parts[k].as_str());
                proof {
                    reveal(Seq::filter);
                    assert(text::texts(parts@)[k as int] == parts@[k as int]@);
                    assert(sub@.len() > 0);
                    let next = before + low.take(k + 1);
                    assert(next.drop_last() =~= before + low.take(k as int));
                    assert(next.last() == sub@);
                    assert(next.filter(keep) == if keep(sub@) {
                        (before + low.take(k as int)).filter(keep).push(sub@)
                    } else {
                        (before + low.take(k as int)).filter(keep)
                    });
                    text::lemma_texts_push(out@, sub);
                }
                let ghost so_far = out@;
                if !text::same_text(sub.as_str(), whole.as_str()) {
                    out.push(sub);
                    assert(text::texts(out@) =~= given + (before + low.take(k + 1)).filter(keep));
                }
                k += 1;
            }
            assert(low.take(low.len() as int) =~= low);
            proof {
                lemma_nonempty_bytes(pieces@[i as int]@);
            }
        } else {
            proof {
                lemma_nonempty_bytes(pieces@[i as int]@);
            }
        }
        i += 1;
    }
    assert(all.take(all.len() as int) =~= all);
    proof {
        text::lemma_texts_push(out@, whole);
        assert(text::texts(out@.push(whole)) =~= given + ident_tokens(ident@));
    }
    out.push(whole);
}

/// Whether no text of a list is empty.
pub open spec fn none_empty(list: Seq<String>) -> bool {
    forall|i: int| 0 <= i < list.len() ==> (#[trigger] list[i])@.len() > 0
}

/// No part of a word is empty.
proof fn lemma_camel_parts_nonempty(w: Seq<char>, start: int, i: int)
    requires
        0 <= start < i,
        start < w.len(),
    ensures
        forall|n: int|
            0 <= n < camel_from(w, start, i).len() ==> (#[trigger] camel_from(w, start, i)[n]).len()
                > 0,
    decreases w.len() - i,
{
    if i < w.len() {
        if camel_boundary(w, i) {
            lemma_camel_parts_nonempty(w, i, i + 1);
            let rest = camel_from(w, i, i + 1);
            let all = camel_from(w, start, i);
            assert forall|n: int| 0 <= n < all.len() implies (#[trigger] all[n]).len() > 0 by {
                if n > 0 {
                    assert(all[n] == rest[n - 1]);
                } else {
                    assert(all[n] == w.subrange(start, i));
                }
            }
        } else {
            lemma_camel_parts_nonempty(w, start, i + 1);
            assert(camel_from(w, start, i) == camel_from(w, start, i + 1));
        }
    } else {
        assert(camel_from(w, start, i)[0].len() == w.len() - start);
        assert(camel_from(w, start, i) =~= seq![w.subrange(start, w.len() as int)]);
    }
}

/// Only the empty text takes no bytes.
proof fn lemma_nonempty_bytes(s: Seq<char>)
    ensures
        vstd::utf8::encode_utf8(s).len() == 0 <==> s.len() == 0,
{
    if s.len() > 0 {
        assert(vstd::utf8::encode_scalar(s[0] as u32).len() > 0);
    }
}

fn ident_char(c: char) -> (b: bool)
    ensures
        b == is_ident()(c),
{
    c.is_alphanumeric() || c == '_'
}

/// The maximal identifiers of a text.
pub(crate) fn identifiers(s: &str) -> (r: Vec<String>)
    ensures
        text::texts(r@) == text::runs(s@, is_ident()),
{
    text::runs_of(s, ident_char, Ghost(is_ident()))
}

/// Splits a text into tokens. Each identifier is kept whole and also split on `_`
/// and camelCase, all in small letters; everything else separates identifiers. No token
/// is empty.
pub fn tokenize(s: &str) -> (r: Vec<String>)
    ensures
        text::texts(r@) == tokens(s@),
        none_empty(r@),
{
    let idents = identifiers(s);
    let ghost all = text::texts(idents@);
    let mut out: Vec<String> = Vec::new();
    let mut i: usize = 0;
    assert(text::texts(out@) =~= idents_tokens(all.take(0)));
    while i < idents.len()
        invariant
            all == text::texts(idents@),
            all == text::runs(s@, is_ident()),
            i <= idents.len(),
            none_empty(out@),
            text::texts(out@) == idents_tokens(all.take(i as int)),
        decreases idents.len() - i,
    {
        proof {
            assert(all.take(i + 1).drop_last() =~= all.take(i as int));
            assert(all.take(i + 1).last() == idents@[i as int]@);
        }
        proof {
            text::lemma_run_chars(s@, is_ident(), i as int);
            assert(text::texts(idents@)[i as int] == idents@[i as int]@);
        }
        push_ident_tokens(&mut out, idents[i].as_str());
        i += 1;
    }
    assert(all.take(all.len() as int) =~= all);
    out
}

proof fn lemma_idents_tokens_concat(a: Seq<Seq<char>>, b: Seq<Seq<char>>)
    ensures
        idents_tokens(a + b) == idents_tokens(a) + idents_tokens(b),
    decreases b.len(),
{
    if b.len() == 0 {
        assert(a + b =~= a);
        assert(idents_tokens(a) + idents_tokens(b) =~= idents_tokens(a));
    } else {
        lemma_idents_tokens_concat(a, b.drop_last());
        assert((a + b).drop_last() =~= a + b.drop_last());
        assert((a + b).last() == b.last());
        assert(idents_tokens(a + b) =~= idents_tokens(a) + idents_tokens(b));
    }
}

/// A separator parts the tokens of a text: those before it, then those behind it.
pub proof fn a_separator_parts_the_tokens(a: Seq<char>, sep: char, b: Seq<char>)
    requires
        !text::alphanumeric(sep),
        sep != '_',
    ensures
        tokens(a + seq![sep] + b) == tokens(a) + tokens(b),
{
    text::lemma_runs_part(a, sep, b, is_ident());
    lemma_idents_tokens_concat(text::runs(a, is_ident()), text::runs(b, is_ident()));
}

/// A text of separators alone, or of nothing, has no tokens.
pub proof fn separators_give_no_tokens(s: Seq<char>)
    requires
        forall|i: int|
            0 <= i < s.len() ==> !text::alphanumeric(#[trigger] s[i]) && s[i] != '_',
    ensures
        tokens(s) == Seq::<Seq<char>>::empty(),
{
    assert forall|i: int| 0 <= i < s.len() implies !is_ident()(#[trigger] s[i]) by {}
    text::lemma_no_runs(s, is_ident());
}

/// Every identifier of a text is among its tokens as a whole, in small letters.
pub proof fn tokens_keep_whole_identifiers(s: Seq<char>, i: int)
    requires
        0 <= i < text::runs(s, is_ident()).len(),
    ensures
        tokens(s).contains(text::lowercase(text::runs(s, is_ident())[i])),
{
    lemma_idents_keep(text::runs(s, is_ident()), i);
}

proof fn lemma_idents_keep(idents: Seq<Seq<char>>, i: int)
    requires
        0 <= i < idents.len(),
    ensures
        idents_tokens(idents).contains(text::lowercase(idents[i])),
    decreases idents.len(),
{
    let rest = idents_tokens(idents.drop_last());
    let last = ident_tokens(idents.last());
    let all = rest + last;
    if i == idents.len() - 1 {
        assert(last[last.len() - 1] == text::lowercase(idents[i]));
        assert(all[all.len() - 1] == text::lowercase(idents[i]));
    } else {
        lemma_idents_keep(idents.drop_last(), i);
        let k = choose|k: int| 0 <= k < rest.len() && rest[k] == text::lowercase(idents[i]);
        assert(all[k] == text::lowercase(idents[i]));
    }
}

/// An identifier with nothing to split gives exactly one token.
pub proof fn single_word_gives_one_token(ident: Seq<char>)
    requires
        forall|i: int|
            0 <= i < sub_tokens(text::split_on(ident, '_')).len() ==> #[trigger] sub_tokens(
                text::split_on(ident, '_'),
            )[i] == text::lowercase(ident),
    ensures
        ident_tokens(ident) == seq![text::lowercase(ident)],
{
    let whole = text::lowercase(ident);
    let subs = sub_tokens(text::split_on(ident, '_'));
    let kept = subs.filter(differs_from(whole));
    if kept.len() > 0 {
        subs.lemma_filter_pred(differs_from(whole), 0);
        subs.lemma_filter_contains_rev(differs_from(whole), kept[0]);
        let i = choose|i: int| 0 <= i < subs.len() && subs[i] == kept[0];
        assert(subs[i] == whole);
    }
    assert(ident_tokens(ident) =~= seq![whole]);
}

/// The parts of a list, one after the other.
pub open spec fn concat(list: Seq<Seq<char>>) -> Seq<char>
    decreases list.len(),
{
    if list.len() == 0 {
        seq![]
    } else {
        list[0] + concat(list.drop_first())
    }
}

/// Splitting loses nothing: the parts of a word make up the word.
pub proof fn camel_parts_make_up_the_word(w: Seq<char>)
    ensures
        concat(camel_parts(w)) == w,
{
    lemma_camel_from(w, 0, 1);
    assert(w.subrange(0, w.len() as int) =~= w);
}

proof fn lemma_camel_from(w: Seq<char>, start: int, i: int)
    requires
        0 <= start <= w.len(),
        start < i,
    ensures
        concat(camel_from(w, start, i)) == w.subrange(start, w.len() as int),
    decreases w.len() - i,
{
    if i >= w.len() {
        let one = seq![w.subrange(start, w.len() as int)];
        reveal_with_fuel(concat, 2);
        assert(one.drop_first() =~= seq![]);
        assert(concat(one) =~= w.subrange(start, w.len() as int));
    } else if camel_boundary(w, i) {
        lemma_camel_from(w, i, i + 1);
        let rest = camel_from(w, i, i + 1);
        let all = seq![w.subrange(start, i)] + rest;
        assert(all.drop_first() =~= rest);
        assert(all[0] == w.subrange(start, i));
        assert(concat(all) =~= w.subrange(start, w.len() as int));
    } else {
        lemma_camel_from(w, start, i + 1);
    }
}

// ---------------------------------------------------------------------------
// Documents
// ---------------------------------------------------------------------------

/// The text of an option, as a list.
pub open spec fn opt_list(o: Option<String>) -> Seq<Seq<char>> {
    match o {
        Some(s) => seq![s@],
        None => seq![],
    }
}

/// The structural header of a record: symbol, kind, parent and signature as far
/// as they are there, then the headings as one text.
pub open spec fn structural_texts(r: Record) -> Seq<Seq<char>> {
    opt_list(r.symbol) + opt_list(r.kind) + opt_list(r.parent) + opt_list(r.signature) + if
        r.headings@.len() == 0 {
        seq![]
    } else {
        seq![text::join(text::texts(r.headings@), seq![' '])]
    }
}

/// The tokens of several texts, one text after the other.
pub open spec fn texts_tokens(list: Seq<Seq<char>>) -> Seq<Seq<char>>
    decreases list.len(),
{
    if list.len() == 0 {
        seq![]
    } else {
        texts_tokens(list.drop_last()) + tokens(list.last())
    }
}

/// The tokens that a record is found by: its path, its structural header if that
/// is wanted, and its text.
pub open spec fn record_tokens(r: Record, include_structural: bool) -> Seq<Seq<char>> {
    tokens(r.file@) + (if include_structural {
        texts_tokens(structural_texts(r))
    } else {
        seq![]
    }) + tokens(r.text@)
}

pub open spec fn documents(records: Seq<Record>, include_structural: bool) -> Seq<Seq<Seq<char>>> {
    records.map_values(|r: Record| record_tokens(r, include_structural))
}

fn push_opt(out: &mut Vec<String>, o: &Option<String>)
    ensures
        text::texts(final(out)@) == text::texts(old(out)@) + opt_list(*o),
{
    match o {
        Some(s) => {
            let copy = s.clone();
            proof {
                text::lemma_texts_push(out@, copy);
            }
            out.push(copy);
            assert(text::texts(out@) =~= text::texts(old(out)@) + opt_list(*o));
        },
        None => {
            assert(text::texts(out@) =~= text::texts(old(out)@) + opt_list(*o));
        },
    }
}

/// The structural header fields of a record.
pub fn structural_fields(record: &Record) -> (r: Vec<String>)
    ensures
        text::texts(r@) == structural_texts(*record),
{
    let mut out: Vec<String> = Vec::new();
    assert(text::texts(out@) =~= seq![]);
    push_opt(&mut out, &record.symbol);
    push_opt(&mut out, &record.kind);
    push_opt(&mut out, &record.parent);
    push_opt(&mut out, &record.signature);
    let ghost head = text::texts(out@);
    assert(head =~= opt_list(record.symbol) + opt_list(record.kind) + opt_list(record.parent)
        + opt_list(record.signature));
    if record.headings.len() > 0 {
        proof {
            reveal_strlit(" ");
        }
        assert(" "@ =~= seq![' ']);
        let line = text::joined(&record.headings, " ");
        proof {
            text::lemma_texts_push(out@, line);
        }
        out.push(line);
    }
    assert(text::texts(out@) =~= structural_texts(*record));
    out
}

fn append_tokens(out: &mut Vec<String>, s: &str)
    ensures
        text::texts(final(out)@) == text::texts(old(out)@) + tokens(s@),
{
    let mut more = tokenize(s);
    let ghost tail = more@;
    out.append(&mut more);
    assert(text::texts(out@) =~= text::texts(old(out)@) + text::texts(tail));
}

fn tokens_of_record(record: &Record, include_structural: bool) -> (r: Vec<String>)
    ensures
        text::texts(r@) == record_tokens(*record, include_structural),
{
    let mut out: Vec<String> = tokenize(record.file.as_str());
    let ghost head = text::texts(out@);
    if include_structural {
        let fields = structural_fields(record);
        let ghost all = text::texts(fields@);
        let mut i: usize = 0;
        assert(head + texts_tokens(all.take(0)) =~= head);
        while i < fields.len()
            invariant
                all == text::texts(fields@),
                i <= fields.len(),
                text::texts(out@) == head + texts_tokens(all.take(i as int)),
            decreases fields.len() - i,
        {
            let ghost prior = text::texts(out@);
            proof {
                assert(all.take(i + 1).drop_last() =~= all.take(i as int));
                assert(all.take(i + 1).last() == fields@[i as int]@);
            }
            append_tokens(&mut out, fields[i].as_str());
            i += 1;
            assert(text::texts(out@) =~= head + texts_tokens(all.take(i as int)));
        }
        assert(all.take(all.len() as int) =~= all);
    }
    append_tokens(&mut out, record.text.as_str());
    assert(text::texts(out@) =~= record_tokens(*record, include_structural));
    out
}

// ---------------------------------------------------------------------------
// Inverted index
// ---------------------------------------------------------------------------

/// How often a term occurs in a document.
#[derive(Debug, Clone, Copy, PartialEq, Eq, Structural)]
pub struct Posting {
    pub doc: usize,
    pub tf: usize,
}

/// Number of occurrences of a term.
pub open spec fn term_count(doc: Seq<Seq<char>>, term: Seq<char>) -> nat
    decreases doc.len(),
{
    if doc.len() == 0 {
        0
    } else {
        term_count(doc.drop_last(), term) + if doc.last() == term {
            1nat
        } else {
            0nat
        }
    }
}

/// The documents that hold a term, in order, with its frequency in each.
pub open spec fn postings_of(docs: Seq<Seq<Seq<char>>>, term: Seq<char>) -> Seq<Posting>
    decreases docs.len(),
{
    if docs.len() == 0 {
        seq![]
    } else {
        let rest = postings_of(docs.drop_last(), term);
        let tf = term_count(docs.last(), term);
        if tf > 0 {
            rest.push(Posting { doc: (docs.len() - 1) as usize, tf: tf as usize })
        } else {
            rest
        }
    }
}

pub proof fn lemma_term_count(doc: Seq<Seq<char>>, term: Seq<char>)
    ensures
        term_count(doc, term) <= doc.len(),
        term_count(doc, term) > 0 <==> doc.contains(term),
    decreases doc.len(),
{
    if doc.len() > 0 {
        let init = doc.drop_last();
        lemma_term_count(init, term);
        if doc.contains(term) {
            let i = choose|i: int| 0 <= i < doc.len() && doc[i] == term;
            if i < init.len() {
                assert(init[i] == term);
            }
        }
        if init.contains(term) {
            let i = choose|i: int| 0 <= i < init.len() && init[i] == term;
            assert(doc[i] == term);
        }
        if doc.last() == term {
            assert(doc[doc.len() - 1] == term);
        }
    }
}

/// Whether slots and lists hold the postings of exactly the terms of `docs`.
spec fn inverted(
    docs: Seq<Seq<Seq<char>>>,
    slots: Map<Seq<char>, usize>,
    lists: Seq<Vec<Posting>>,
) -> bool {
    &&& forall|t: Seq<char>| #[trigger]
        slots.contains_key(t) ==> slots[t] < lists.len() && lists[slots[t] as int]@ == postings_of(
            docs,
            t,
        )
    &&& forall|t: Seq<char>| !#[trigger] slots.contains_key(t) ==> postings_of(docs, t).len() == 0
    &&& forall|t: Seq<char>, u: Seq<char>|
        slots.contains_key(t) && slots.contains_key(u) && t != u ==> #[trigger] slots[t]
            != #[trigger] slots[u]
    &&& forall|t: Seq<char>| #[trigger] slots.contains_key(t) ==> postings_of(docs, t).len() > 0
    &&& lists.len() == 0 <==> forall|t: Seq<char>| !#[trigger] slots.contains_key(t)
}

/// The keyword index over the records, by record position.
pub struct LexicalIndex {
    slots: StringHashMap<usize>,
    lists: Vec<Vec<Posting>>,
    doc_len: Vec<usize>,
    docs: Ghost<Seq<Seq<Seq<char>>>>,
}

/// The lexical channel could not be built: no record yields a single term.
#[derive(Debug, Clone, Copy, PartialEq, Eq, Structural)]
pub struct EmptyChannel;

impl LexicalIndex {
    #[verifier::type_invariant]
    spec fn inv(self) -> bool {
        &&& inverted(self.docs@, self.slots@, self.lists@)
        &&& self.doc_len@.len() == self.docs@.len()
        &&& forall|d: int| 0 <= d < self.docs@.len() ==> self.doc_len@[d] == #[trigger] self.docs@[d].len()
    }

    /// The tokens of each document.
    pub closed spec fn documents(self) -> Seq<Seq<Seq<char>>> {
        self.docs@
    }
}

/// What one more occurrence of a term in the last document does to the postings.
proof fn lemma_add_term(done: Seq<Seq<Seq<char>>>, part: Seq<Seq<char>>, term: Seq<char>, t: Seq<char>)
    ensures
        t != term ==> postings_of(done.push(part.push(term)), t) == postings_of(done.push(part), t),
        postings_of(done.push(part), t) == if term_count(part, t) > 0 {
            postings_of(done, t).push(
                Posting { doc: done.len() as usize, tf: term_count(part, t) as usize },
            )
        } else {
            postings_of(done, t)
        },
        postings_of(done.push(part.push(term)), term) == postings_of(done, term).push(
            Posting { doc: done.len() as usize, tf: (term_count(part, term) + 1) as usize },
        ),
{
    assert(done.push(part).drop_last() =~= done);
    assert(done.push(part.push(term)).drop_last() =~= done);
    assert(part.push(term).drop_last() =~= part);
}

/// Postings name documents that exist.
proof fn lemma_postings_docs(docs: Seq<Seq<Seq<char>>>, t: Seq<char>)
    requires
        docs.len() <= usize::MAX,
        forall|d: int| 0 <= d < docs.len() ==> (#[trigger] docs[d]).len() <= usize::MAX,
    ensures
        forall|i: int|
            0 <= i < postings_of(docs, t).len() ==> (#[trigger] postings_of(docs, t)[i]).doc
                < docs.len() && postings_of(docs, t)[i].tf == term_count(
                docs[postings_of(docs, t)[i].doc as int],
                t,
            ) && postings_of(docs, t)[i].tf > 0,
        forall|i: int, j: int|
            0 <= i < j < postings_of(docs, t).len() ==> (#[trigger] postings_of(docs, t)[i]).doc < (
            #[trigger] postings_of(docs, t)[j]).doc,
        postings_of(docs, t).len() <= docs.len(),
    decreases docs.len(),
{
    if docs.len() > 0 {
        let init = docs.drop_last();
        assert forall|d: int| 0 <= d < init.len() implies (#[trigger] init[d]).len()
            <= usize::MAX by {
            assert(docs[d] == init[d]);
        }
        lemma_postings_docs(init, t);
        lemma_term_count(docs.last(), t);
        assert(docs[docs.len() - 1].len() <= usize::MAX);
        let all = postings_of(docs, t);
        let rest = postings_of(init, t);
        assert forall|i: int| 0 <= i < all.len() implies (#[trigger] all[i]).doc < docs.len()
            && all[i].tf == term_count(docs[all[i].doc as int], t) && all[i].tf > 0 by {
            if i < rest.len() {
                assert(all[i] == rest[i]);
                assert(init[rest[i].doc as int] == docs[rest[i].doc as int]);
            }
        }
        assert forall|i: int, j: int| 0 <= i < j < all.len() implies (#[trigger] all[i]).doc < (
        #[trigger] all[j]).doc by {
            assert(all[i] == rest[i]);
            if j < rest.len() {
                assert(all[j] == rest[j]);
            }
        }
    }
}

/// Counts one occurrence of a term in the last document.
fn add_term(
    slots: &mut StringHashMap<usize>,
    lists: &mut Vec<Vec<Posting>>,
    doc: usize,
    term: &String,
    Ghost(done): Ghost<Seq<Seq<Seq<char>>>>,
    Ghost(part): Ghost<Seq<Seq<char>>>,
)
    requires
        doc == done.len(),
        part.len() < usize::MAX,
        forall|d: int| 0 <= d < done.len() ==> (#[trigger] done[d]).len() <= usize::MAX,
        inverted(done.push(part), old(slots)@, old(lists)@),
    ensures
        inverted(done.push(part.push(term@)), final(slots)@, final(lists)@),
{
    let ghost before = lists@;
    let ghost old_slots = slots@;
    let ghost prior = done.push(part);
    let ghost next = done.push(part.push(term@));
    let ghost word = term@;
    proof {
        assert forall|t: Seq<char>| t != word implies #[trigger] postings_of(next, t)
            == postings_of(prior, t) by {
            lemma_add_term(done, part, word, t);
        }
        lemma_add_term(done, part, word, word);
        lemma_term_count(part, word);
        lemma_postings_docs(done, word);
    }
    let found: Option<usize> = match slots.get(term.as_str()) {
        Some(s) => Some(*s),
        None => None,
    };
    match found {
        Some(slot) => {
            let list = &mut lists[slot];
            let n: usize = list.len();
            let last = list[n - 1];
            if last.doc == doc {
                assert(term_count(part, word) > 0);
                list.set(n - 1, Posting { doc, tf: last.tf + 1 });
            } else {
                assert(term_count(part, word) == 0);
                list.push(Posting { doc, tf: 1 });
            }
            proof {
                assert(lists@[slot as int]@ =~= postings_of(next, word));
                assert forall|t: Seq<char>| #[trigger] slots@.contains_key(t) implies slots@[t]
                    < lists@.len() && lists@[slots@[t] as int]@ == postings_of(next, t) by {
                    if t != word {
                        assert(slots@[t] != slots@[word]);
                        assert(lists@[slots@[t] as int] == before[slots@[t] as int]);
                        assert(postings_of(next, t) == postings_of(prior, t));
                    }
                }
                assert forall|t: Seq<char>| !#[trigger] slots@.contains_key(t) implies postings_of(
                    next,
                    t,
                ).len() == 0 by {
                    assert(postings_of(next, t) == postings_of(prior, t));
                }
                assert forall|t: Seq<char>| #[trigger] slots@.contains_key(t) implies postings_of(
                    next,
                    t,
                ).len() > 0 by {
                    if t != word {
                        assert(postings_of(next, t) == postings_of(prior, t));
                    }
                }
            }
        },
        None => {
            assert(postings_of(prior, word).len() == 0);
            assert(postings_of(done, word) =~= seq![]);
            let mut list: Vec<Posting> = Vec::new();
            list.push(Posting { doc, tf: 1 });
            assert(list@ =~= postings_of(next, word));
            slots.insert(term.clone(), lists.len());
            lists.push(list);
            proof {
                assert forall|t: Seq<char>| #[trigger] slots@.contains_key(t) implies slots@[t]
                    < lists@.len() && lists@[slots@[t] as int]@ == postings_of(next, t)
                    && postings_of(next, t).len() > 0 by {
                    if t != word {
                        assert(old_slots.contains_key(t));
                        assert(lists@[slots@[t] as int] == before[slots@[t] as int]);
                        assert(postings_of(next, t) == postings_of(prior, t));
                    }
                }
                assert forall|t: Seq<char>| !#[trigger] slots@.contains_key(t) implies postings_of(
                    next,
                    t,
                ).len() == 0 by {
                    assert(!old_slots.contains_key(t));
                    assert(postings_of(next, t) == postings_of(prior, t));
                }
                assert forall|t: Seq<char>, u: Seq<char>|
                    slots@.contains_key(t) && slots@.contains_key(u) && t
                        != u implies #[trigger] slots@[t] != #[trigger] slots@[u] by {
                    if t != word {
                        assert(old_slots.contains_key(t));
                    }
                    if u != word {
                        assert(old_slots.contains_key(u));
                    }
                }
                assert(slots@.contains_key(word));
            }
        },
    }
}

/// A document without tokens adds no postings.
proof fn lemma_start_document(
    done: Seq<Seq<Seq<char>>>,
    slots: Map<Seq<char>, usize>,
    lists: Seq<Vec<Posting>>,
)
    requires
        inverted(done, slots, lists),
    ensures
        inverted(done.push(seq![]), slots, lists),
{
    assert forall|t: Seq<char>| #[trigger] postings_of(done.push(seq![]), t) == postings_of(
        done,
        t,
    ) by {
        lemma_add_term(done, seq![], t, t);
    }
    assert forall|t: Seq<char>| #[trigger] slots.contains_key(t) implies slots[t] < lists.len()
        && lists[slots[t] as int]@ == postings_of(done.push(seq![]), t) && postings_of(
        done.push(seq![]),
        t,
    ).len() > 0 by {
        assert(postings_of(done.push(seq![]), t) == postings_of(done, t));
    }
    assert forall|t: Seq<char>| !#[trigger] slots.contains_key(t) implies postings_of(
        done.push(seq![]),
        t,
    ).len() == 0 by {
        assert(postings_of(done.push(seq![]), t) == postings_of(done, t));
    }
}

/// A term of some document has a posting for it.
proof fn lemma_has_posting(docs: Seq<Seq<Seq<char>>>, d: int, t: Seq<char>)
    requires
        0 <= d < docs.len(),
        term_count(docs[d], t) > 0,
    ensures
        exists|i: int|
            0 <= i < postings_of(docs, t).len() && (#[trigger] postings_of(docs, t)[i]).doc
                == d as usize,
    decreases docs.len(),
{
    let all = postings_of(docs, t);
    if d == docs.len() - 1 {
        assert(all[all.len() - 1].doc == d as usize);
    } else {
        let init = docs.drop_last();
        assert(init[d] == docs[d]);
        lemma_has_posting(init, d, t);
        let i = choose|i: int|
            0 <= i < postings_of(init, t).len() && (#[trigger] postings_of(init, t)[i]).doc
                == d as usize;
        assert(all[i] == postings_of(init, t)[i]);
    }
}

/// Whether no document holds a token.
pub open spec fn no_terms(docs: Seq<Seq<Seq<char>>>) -> bool {
    forall|d: int| 0 <= d < docs.len() ==> (#[trigger] docs[d]).len() == 0
}

proof fn lemma_no_lists(
    docs: Seq<Seq<Seq<char>>>,
    slots: Map<Seq<char>, usize>,
    lists: Seq<Vec<Posting>>,
)
    requires
        inverted(docs, slots, lists),
        docs.len() <= usize::MAX,
        forall|d: int| 0 <= d < docs.len() ==> (#[trigger] docs[d]).len() <= usize::MAX,
    ensures
        lists.len() == 0 <==> no_terms(docs),
{
    if lists.len() == 0 {
        assert forall|d: int| 0 <= d < docs.len() implies (#[trigger] docs[d]).len() == 0 by {
            if docs[d].len() > 0 {
                let t = docs[d][0];
                assert(docs[d].contains(t));
                lemma_term_count(docs[d], t);
                lemma_has_posting(docs, d, t);
                assert(!slots.contains_key(t));
            }
        }
    } else {
        let t = choose|t: Seq<char>| #[trigger] slots.contains_key(t);
        lemma_postings_docs(docs, t);
        let d = postings_of(docs, t)[0].doc as int;
        lemma_term_count(docs[d], t);
        assert(docs[d].len() > 0);
    }
}

impl LexicalIndex {
    /// Builds the channel from every record. With `include_structural` the
    /// structural header is searchable too. Fails when no record yields a term.
    pub fn build(records: &Vec<Record>, include_structural: bool) -> (r: Result<Self, EmptyChannel>)
        ensures
            match r {
                Ok(lex) => !no_terms(documents(records@, include_structural)) && lex.documents()
                    == documents(records@, include_structural),
                Err(_) => no_terms(documents(records@, include_structural)),
            },
    {
        let ghost docs = documents(records@, include_structural);
        let mut slots: StringHashMap<usize> = StringHashMap::new();
        let mut lists: Vec<Vec<Posting>> = Vec::new();
        let mut doc_len: Vec<usize> = Vec::new();
        let mut i: usize = 0;
        assert(docs.take(0) =~= seq![]);
        while i < records.len()
            invariant
                docs == documents(records@, include_structural),
                i <= records.len(),
                doc_len.len() == i,
                inverted(docs.take(i as int), slots@, lists@),
                forall|d: int| 0 <= d < i ==> doc_len@[d] == #[trigger] docs[d].len(),
            decreases records.len() - i,
        {
            let ghost done = docs.take(i as int);
            let terms = tokens_of_record(&records[i], include_structural);
            let ghost all = text::texts(terms@);
            assert(all == docs[i as int]);
            assert(all.len() == terms@.len());
            assert forall|d: int| 0 <= d < done.len() implies (#[trigger] done[d]).len()
                <= usize::MAX by {
                assert(doc_len@[d] == docs[d].len());
            }
            proof {
                lemma_start_document(done, slots@, lists@);
                assert(all.take(0) =~= seq![]);
            }
            let mut k: usize = 0;
            while k < terms.len()
                invariant
                    done.len() == i,
                    forall|d: int| 0 <= d < done.len() ==> (#[trigger] done[d]).len() <= usize::MAX,
                    all == text::texts(terms@),
                    all.len() == terms@.len(),
                    k <= terms.len(),
                    inverted(done.push(all.take(k as int)), slots@, lists@),
                decreases terms.len() - k,
            {
                add_term(
                    &mut slots,
                    &mut lists,
                    i,
                    &terms[k],
                    Ghost(done),
                    Ghost(all.take(k as int)),
                );
                assert(all.take(k as int).push(terms@[k as int]@) =~= all.take(k + 1));
                k += 1;
            }
            assert(all.take(all.len() as int) =~= all);
            assert(done.push(all) =~= docs.take(i + 1));
            doc_len.push(terms.len());
            i += 1;
        }
        assert(docs.take(docs.len() as int) =~= docs);
        proof {
            assert forall|d: int| 0 <= d < docs.len() implies (#[trigger] docs[d]).len()
                <= usize::MAX by {
                assert(doc_len@[d] == docs[d].len());
            }
            lemma_no_lists(docs, slots@, lists@);
        }
        if lists.len() == 0 {
            return Err(EmptyChannel);
        }
        Ok(LexicalIndex { slots, lists, doc_len, docs: Ghost(docs) })
    }

    /// Number of documents.
    pub fn doc_count(&self) -> (r: usize)
        ensures
            r == self.documents().len(),
    {
        proof {
            use_type_invariant(self);
        }
        self.doc_len.len()
    }

    /// Number of tokens of each document.
    pub fn doc_lens(&self) -> (r: &Vec<usize>)
        ensures
            r@.len() == self.documents().len(),
            forall|d: int| 0 <= d < r@.len() ==> r@[d] == #[trigger] self.documents()[d].len(),
    {
        proof {
            use_type_invariant(self);
        }
        &self.doc_len
    }
}

// ---------------------------------------------------------------------------
// Search
// ---------------------------------------------------------------------------

/// One query term in a matching document: its frequency there, and the number of
/// documents that hold it.
#[derive(Debug, Clone, Copy, PartialEq, Eq, Structural)]
pub struct TermMatch {
    pub tf: usize,
    pub df: usize,
}

/// A document that holds at least one query term, with all that its score depends
/// on: the matching terms in query order, its length, and the number of documents.
#[derive(Debug)]
pub struct DocMatch {
    pub doc: usize,
    pub doc_len: usize,
    pub doc_count: usize,
    pub terms: Vec<TermMatch>,
}

/// A list without repetitions, in order of first occurrence.
pub open spec fn distinct(list: Seq<Seq<char>>) -> Seq<Seq<char>>
    decreases list.len(),
{
    if list.len() == 0 {
        seq![]
    } else {
        let rest = distinct(list.drop_last());
        if rest.contains(list.last()) {
            rest
        } else {
            rest.push(list.last())
        }
    }
}

/// The terms of a query, each once.
pub open spec fn query_terms(query: Seq<char>) -> Seq<Seq<char>> {
    distinct(tokens(query))
}

/// The matches of `terms` in document `d`.
pub open spec fn term_matches(
    docs: Seq<Seq<Seq<char>>>,
    terms: Seq<Seq<char>>,
    d: int,
) -> Seq<TermMatch>
    decreases terms.len(),
{
    if terms.len() == 0 {
        seq![]
    } else {
        let rest = term_matches(docs, terms.drop_last(), d);
        let tf = term_count(docs[d], terms.last());
        if tf > 0 {
            rest.push(
                TermMatch { tf: tf as usize, df: postings_of(docs, terms.last()).len() as usize },
            )
        } else {
            rest
        }
    }
}

/// Whether `m` describes the match of the query in its document.
pub open spec fn describes(docs: Seq<Seq<Seq<char>>>, query: Seq<char>, m: DocMatch) -> bool {
    &&& m.doc < docs.len()
    &&& m.doc_len == docs[m.doc as int].len()
    &&& m.doc_count == docs.len()
    &&& m.terms@ == term_matches(docs, query_terms(query), m.doc as int)
    &&& m.terms@.len() > 0
}

/// The predicate that holds for the documents that a query matches.
pub open spec fn matched(docs: Seq<Seq<Seq<char>>>, query: Seq<char>) -> spec_fn(int) -> bool {
    |d: int| term_matches(docs, query_terms(query), d).len() > 0
}

/// Whether `list` describes every match of the query, by increasing document.
pub open spec fn all_matches(
    docs: Seq<Seq<Seq<char>>>,
    query: Seq<char>,
    list: Seq<DocMatch>,
) -> bool {
    &&& list.map_values(|m: DocMatch| m.doc) == order::positions(docs.len(), matched(docs, query))
    &&& forall|i: int| 0 <= i < list.len() ==> describes(docs, query, #[trigger] list[i])
}

/// The strings of a list without repetitions.
fn distinct_list(list: Vec<String>) -> (r: Vec<String>)
    ensures
        text::texts(r@) == distinct(text::texts(list@)),
{
    let ghost all = text::texts(list@);
    let mut seen = StringHashSet::new();
    let mut out: Vec<String> = Vec::new();
    let mut i: usize = 0;
    assert(distinct(all.take(0)) =~= seq![]);
    assert(text::texts(out@) =~= seq![]);
    while i < list.len()
        invariant
            all == text::texts(list@),
            i <= list.len(),
            text::texts(out@) == distinct(all.take(i as int)),
            forall|t: Seq<char>| #[trigger]
                seen@.contains(t) <==> distinct(all.take(i as int)).contains(t),
        decreases list.len() - i,
    {
        let ghost rest = distinct(all.take(i as int));
        proof {
            assert(all.take(i + 1).drop_last() =~= all.take(i as int));
            assert(all.take(i + 1).last() == list@[i as int]@);
        }
        let term = list[i].clone();
        if seen.insert(list[i].clone()) {
            proof {
                text::lemma_texts_push(out@, term);
                assert forall|t: Seq<char>| #[trigger] seen@.contains(t) <==> rest.push(
                    term@,
                ).contains(t) by {
                    let next = rest.push(term@);
                    if rest.contains(t) {
                        let k = choose|k: int| 0 <= k < rest.len() && rest[k] == t;
                        assert(next[k] == t);
                    }
                    if t == term@ {
                        assert(next[rest.len() as int] == t);
                    }
                    if next.contains(t) {
                        let k = choose|k: int| 0 <= k < next.len() && next[k] == t;
                        if k < rest.len() {
                            assert(rest[k] == t);
                        }
                    }
                }
            }
            out.push(term);
        }
        i += 1;
    }
    assert(all.take(all.len() as int) =~= all);
    out
}

/// Notes the matches of one term with each document that holds it.
fn note_term(
    acc: &mut Vec<Vec<TermMatch>>,
    list: &Vec<Posting>,
    Ghost(docs): Ghost<Seq<Seq<Seq<char>>>>,
    Ghost(terms): Ghost<Seq<Seq<char>>>,
    Ghost(term): Ghost<Seq<char>>,
)
    requires
        docs.len() <= usize::MAX,
        forall|d: int| 0 <= d < docs.len() ==> (#[trigger] docs[d]).len() <= usize::MAX,
        old(acc).len() == docs.len(),
        list@ == postings_of(docs, term),
        forall|d: int|
            0 <= d < docs.len() ==> (#[trigger] old(acc)@[d])@ == term_matches(docs, terms, d),
    ensures
        final(acc).len() == docs.len(),
        forall|d: int|
            0 <= d < docs.len() ==> (#[trigger] final(acc)@[d])@ == term_matches(
                docs,
                terms.push(term),
                d,
            ),
{
    let ghost next = terms.push(term);
    let ghost given = acc@;
    proof {
        lemma_postings_docs(docs, term);
        assert(next.drop_last() =~= terms);
    }
    let df: usize = list.len();
    let mut j: usize = 0;
    while j < list.len()
        invariant
            next == terms.push(term),
            next.drop_last() == terms,
            docs.len() <= usize::MAX,
            list@ == postings_of(docs, term),
            df == list.len(),
            acc.len() == docs.len(),
            given.len() == docs.len(),
            j <= list.len(),
            forall|i: int|
                0 <= i < list@.len() ==> (#[trigger] list@[i]).doc < docs.len() && list@[i].tf
                    == term_count(docs[list@[i].doc as int], term) && list@[i].tf > 0,
            forall|a: int, b: int|
                0 <= a < b < list@.len() ==> (#[trigger] list@[a]).doc < (#[trigger] list@[b]).doc,
            forall|d: int|
                0 <= d < docs.len() ==> (#[trigger] given[d])@ == term_matches(docs, terms, d),
            forall|m: int|
                0 <= m < j ==> acc@[(#[trigger] list@[m]).doc as int]@ == term_matches(
                    docs,
                    next,
                    list@[m].doc as int,
                ),
            forall|d: int|
                0 <= d < docs.len() && (forall|m: int| 0 <= m < j ==> (#[trigger] list@[m]).doc
                    != d) ==> #[trigger] acc@[d] == given[d],
        decreases list.len() - j,
    {
        let p = list[j];
        let ghost prior = acc@;
        assert(acc@[p.doc as int] == given[p.doc as int]);
        let slot = &mut acc[p.doc];
        slot.push(TermMatch { tf: p.tf, df });
        proof {
            assert(acc@[p.doc as int]@ =~= term_matches(docs, next, p.doc as int));
            assert forall|d: int|
                0 <= d < docs.len() && (forall|m: int|
                    0 <= m < j + 1 ==> (#[trigger] list@[m]).doc != d) implies #[trigger] acc@[d]
                == given[d] by {
                assert(list@[j as int].doc != d);
                assert(prior[d] == given[d]);
            }
        }
        j += 1;
    }
    proof {
        assert forall|d: int| 0 <= d < docs.len() implies (#[trigger] acc@[d])@ == term_matches(
            docs,
            next,
            d,
        ) by {
            if exists|m: int| 0 <= m < list@.len() && (#[trigger] list@[m]).doc == d {
                let m = choose|m: int| 0 <= m < list@.len() && (#[trigger] list@[m]).doc == d;
                assert(acc@[list@[m].doc as int]@ == term_matches(docs, next, list@[m].doc as int));
            } else {
                if term_count(docs[d], term) > 0 {
                    lemma_has_posting(docs, d, term);
                }
                assert(acc@[d] == given[d]);
            }
        }
    }
}

impl LexicalIndex {
    /// Every document that a query matches, by increasing position. A term that
    /// is repeated in the query counts once.
    pub fn matches(&self, query: &str) -> (r: Vec<DocMatch>)
        ensures
            all_matches(self.documents(), query@, r@),
    {
        proof {
            use_type_invariant(self);
        }
        let ghost docs = self.docs@;
        let n = self.doc_len.len();
        assert forall|d: int| 0 <= d < docs.len() implies (#[trigger] docs[d]).len()
            <= usize::MAX by {
            assert(self.doc_len@[d] == docs[d].len());
        }
        let terms = distinct_list(tokenize(query));
        let ghost all = text::texts(terms@);
        let mut acc: Vec<Vec<TermMatch>> = Vec::new();
        let mut i: usize = 0;
        while i < n
            invariant
                i <= n,
                acc.len() == i,
                forall|d: int| 0 <= d < i ==> (#[trigger] acc@[d])@ == Seq::<TermMatch>::empty(),
            decreases n - i,
        {
            acc.push(Vec::new());
            i += 1;
        }
        let mut k: usize = 0;
        while k < terms.len()
            invariant
                inverted(docs, self.slots@, self.lists@),
                docs.len() <= usize::MAX,
                forall|d: int| 0 <= d < docs.len() ==> (#[trigger] docs[d]).len() <= usize::MAX,
                all == text::texts(terms@),
                k <= terms.len(),
                acc.len() == docs.len(),
                forall|d: int|
                    0 <= d < docs.len() ==> (#[trigger] acc@[d])@ == term_matches(
                        docs,
                        all.take(k as int),
                        d,
                    ),
            decreases terms.len() - k,
        {
            let ghost term = terms@[k as int]@;
            assert(all.take(k as int).push(term) =~= all.take(k + 1));
            match self.slots.get(terms[k].as_str()) {
                Some(slot) => {
                    note_term(
                        &mut acc,
                        &self.lists[*slot],
                        Ghost(docs),
                        Ghost(all.take(k as int)),
                        Ghost(term),
                    );
                },
                None => {
                    proof {
                        assert(all.take(k + 1).drop_last() =~= all.take(k as int));
                        assert forall|d: int| 0 <= d < docs.len() implies (
                        #[trigger] acc@[d])@ == term_matches(docs, all.take(k + 1), d) by {
                            if term_count(docs[d], term) > 0 {
                                lemma_has_posting(docs, d, term);
                            }
                        }
                    }
                },
            }
            k += 1;
        }
        assert(all.take(all.len() as int) =~= all);
        let ghost hit = matched(docs, query@);
        let mut out: Vec<DocMatch> = Vec::new();
        let mut d: usize = 0;
        assert(out@.map_values(|m: DocMatch| m.doc) =~= seq![]);
        for terms in it: acc
            invariant
                it.seq() == acc@,
                d == it.index(),
                n == docs.len(),
                self.doc_len@.len() == n,
                acc@.len() == docs.len(),
                hit == matched(docs, query@),
                forall|d: int|
                    0 <= d < docs.len() ==> self.doc_len@[d] == #[trigger] docs[d].len(),
                forall|d: int|
                    0 <= d < docs.len() ==> (#[trigger] acc@[d])@ == term_matches(
                        docs,
                        query_terms(query@),
                        d,
                    ),
                out@.map_values(|m: DocMatch| m.doc) == order::positions(d as nat, hit),
                forall|i: int| 0 <= i < out@.len() ==> describes(docs, query@, #[trigger] out@[i]),
        {
            assert(terms == acc@[d as int]);
            assert(self.doc_len@[d as int] == docs[d as int].len());
            assert(hit(d as int) == (terms@.len() > 0));
            if terms.len() > 0 {
                let ghost prior = out@;
                let m = DocMatch { doc: d, doc_len: self.doc_len[d], doc_count: n, terms };
                out.push(m);
                assert(out@.map_values(|m: DocMatch| m.doc) =~= prior.map_values(
                    |m: DocMatch| m.doc,
                ).push(d));
            }
            d += 1;
        }
        out
    }
}

/// Whether each answer is one that `allowed` gave for the document of the match.
pub open spec fn asked<F: Fn(usize) -> bool>(
    allowed: F,
    list: Seq<DocMatch>,
    answers: Seq<bool>,
) -> bool {
    &&& answers.len() <= list.len()
    &&& forall|i: int|
        0 <= i < answers.len() ==> #[trigger] allowed.ensures((list[i].doc,), answers[i])
}

/// Whether `hits` holds one hit for each allowed match, with a score that `score`
/// gave for it.
pub open spec fn scored_matches<S: Fn(&DocMatch) -> FloatBits>(
    score: S,
    list: Seq<DocMatch>,
    answers: Seq<bool>,
    hits: Seq<Hit>,
) -> bool {
    let kept = order::positions(answers.len(), |i: int| answers[i]);
    &&& hits.len() == kept.len()
    &&& forall|j: int|
        0 <= j < hits.len() ==> (#[trigger] hits[j]).idx == list[kept[j] as int].doc
            && score.ensures((&list[kept[j] as int],), hits[j].score)
}

/// Whether `r` ranks the allowed matches of a query.
pub open spec fn keyword_search<F: Fn(usize) -> bool, S: Fn(&DocMatch) -> FloatBits>(
    docs: Seq<Seq<Seq<char>>>,
    query: Seq<char>,
    n: nat,
    allowed: F,
    score: S,
    r: Seq<Hit>,
) -> bool {
    exists|list: Seq<DocMatch>, answers: Seq<bool>, hits: Seq<Hit>|
        #![trigger all_matches(docs, query, list), asked(allowed, list, answers), store::is_ranking(hits, n, r)]
        all_matches(docs, query, list) && asked(allowed, list, answers) && answers.len()
            == list.len() && scored_matches(score, list, answers, hits) && store::is_ranking(
            hits,
            n,
            r,
        )
}

impl LexicalIndex {
    /// The best `n` of the documents that the query matches and `allowed` admits.
    /// `score` says what a match is worth.
    pub fn search<F: Fn(usize) -> bool, S: Fn(&DocMatch) -> FloatBits>(
        &self,
        query: &str,
        n: usize,
        allowed: F,
        score: S,
    ) -> (r: Vec<Hit>)
        requires
            forall|d: usize|
                d < self.documents().len() && matched(self.documents(), query@)(d as int)
                    ==> #[trigger] allowed.requires((d,)),
            forall|m: &DocMatch|
                describes(self.documents(), query@, *m) && allowed.ensures((m.doc,), true)
                    ==> #[trigger] score.requires((m,)),
        ensures
            keyword_search(self.documents(), query@, n as nat, allowed, score, r@),
    {
        let list = self.matches(query);
        let ghost docs = self.documents();
        let mut hits: Vec<Hit> = Vec::new();
        let ghost mut answers: Seq<bool> = seq![];
        let mut i: usize = 0;
        while i < list.len()
            invariant
                docs == self.documents(),
                all_matches(docs, query@, list@),
                forall|d: usize|
                    d < self.documents().len() && matched(self.documents(), query@)(d as int)
                        ==> #[trigger] allowed.requires((d,)),
                forall|m: &DocMatch|
                    describes(self.documents(), query@, *m) && allowed.ensures((m.doc,), true)
                        ==> #[trigger] score.requires((m,)),
                i <= list.len(),
                answers.len() == i,
                asked(allowed, list@, answers),
                scored_matches(score, list@, answers, hits@),
            decreases list.len() - i,
        {
            let m = &list[i];
            assert(describes(docs, query@, *m));
            let ok = allowed(m.doc);
            let ghost prior = answers;
            let ghost kept = order::positions(i as nat, |j: int| prior[j]);
            proof {
                answers = answers.push(ok);
                store::lemma_positions_agree(i as nat, |j: int| prior[j], |j: int| answers[j]);
                order::lemma_positions(i as nat, |j: int| prior[j]);
            }
            if ok {
                let s = score(m);
                let ghost before = hits@;
                hits.push(Hit { idx: m.doc, score: s });
                assert(order::positions(answers.len(), |j: int| answers[j]) == kept.push(i));
            }
            i += 1;
        }
        let r = store::rank_hits(&hits, n);
        assert(all_matches(docs, query@, list@) && asked(allowed, list@, answers)
            && store::is_ranking(hits@, n as nat, r@));
        r
    }
}

// ---------------------------------------------------------------------------
// Searches that agree
// ---------------------------------------------------------------------------

/// Whether two matches say the same.
pub open spec fn same_match(a: DocMatch, b: DocMatch) -> bool {
    a.doc == b.doc && a.doc_len == b.doc_len && a.doc_count == b.doc_count && a.terms@ == b.terms@
}

/// Whether `score` depends on what a match says alone.
pub open spec fn settled<S: Fn(&DocMatch) -> FloatBits>(score: S) -> bool {
    forall|a: &DocMatch, b: &DocMatch, x: FloatBits, y: FloatBits|
        same_match(*a, *b) && #[trigger] score.ensures((a,), x) && #[trigger] score.ensures(
            (b,),
            y,
        ) ==> x == y
}

/// Whether `allowed` admits exactly what `admits` says.
pub open spec fn answers_by<F: Fn(usize) -> bool>(
    allowed: F,
    admits: spec_fn(usize) -> bool,
) -> bool {
    forall|d: usize, x: bool| #[trigger] allowed.ensures((d,), x) ==> x == admits(d)
}

/// Whether a hit stands for an admitted match.
spec fn stands_for<S: Fn(&DocMatch) -> FloatBits>(
    score: S,
    m: DocMatch,
    admitted: bool,
    h: Hit,
) -> bool {
    admitted && h.idx == m.doc && score.ensures((&m,), h.score)
}

/// The hits of a search name different documents.
pub proof fn lemma_hits_of_matches<S: Fn(&DocMatch) -> FloatBits>(
    docs: Seq<Seq<Seq<char>>>,
    query: Seq<char>,
    score: S,
    list: Seq<DocMatch>,
    answers: Seq<bool>,
    hits: Seq<Hit>,
)
    requires
        docs.len() <= usize::MAX,
        all_matches(docs, query, list),
        answers.len() == list.len(),
        scored_matches(score, list, answers, hits),
    ensures
        store::distinct_ids(hits),
        hits.len() <= list.len() <= docs.len(),
{
    let ids = list.map_values(|m: DocMatch| m.doc);
    let hit = matched(docs, query);
    order::lemma_positions(docs.len(), hit);
    assert(ids.len() == list.len());
    let keep = |i: int| answers[i];
    let kept = order::positions(answers.len(), keep);
    order::lemma_positions(answers.len(), keep);
    assert forall|i: int, j: int| 0 <= i < j < hits.len() implies (#[trigger] hits[i]).idx != (
    #[trigger] hits[j]).idx by {
        let a = kept[i] as int;
        let b = kept[j] as int;
        assert(a < b);
        assert(ids[a] == list[a].doc && ids[b] == list[b].doc);
        assert(order::positions(docs.len(), hit)[a] < order::positions(docs.len(), hit)[b]);
    }
}

/// The match that a hit stands for.
proof fn lemma_match_of<S: Fn(&DocMatch) -> FloatBits>(
    score: S,
    list: Seq<DocMatch>,
    answers: Seq<bool>,
    hits: Seq<Hit>,
    j: int,
) -> (i: int)
    requires
        list.len() <= usize::MAX,
        answers.len() == list.len(),
        scored_matches(score, list, answers, hits),
        0 <= j < hits.len(),
    ensures
        0 <= i < list.len(),
        stands_for(score, list[i], answers[i], hits[j]),
{
    let keep = |i: int| answers[i];
    let kept = order::positions(answers.len(), keep);
    order::lemma_positions(answers.len(), keep);
    let i = kept[j] as int;
    assert(keep(i));
    i
}

/// The hit that stands for an admitted match.
proof fn lemma_hit_for<S: Fn(&DocMatch) -> FloatBits>(
    score: S,
    list: Seq<DocMatch>,
    answers: Seq<bool>,
    hits: Seq<Hit>,
    i: int,
) -> (j: int)
    requires
        list.len() <= usize::MAX,
        answers.len() == list.len(),
        scored_matches(score, list, answers, hits),
        0 <= i < list.len(),
        answers[i],
    ensures
        0 <= j < hits.len(),
        stands_for(score, list[i], answers[i], hits[j]),
{
    let keep = |i: int| answers[i];
    let kept = order::positions(answers.len(), keep);
    order::lemma_positions(answers.len(), keep);
    assert(keep(i));
    let j = choose|j: int| 0 <= j < kept.len() && kept[j] == i as usize;
    assert(hits[j].idx == list[kept[j] as int].doc);
    j
}

/// Searches for the same terms find the same matches; the one that admits less finds
/// those of the other that it admits.
proof fn lemma_hits_agree<
    F: Fn(usize) -> bool,
    G: Fn(usize) -> bool,
    S: Fn(&DocMatch) -> FloatBits,
>(
    docs: Seq<Seq<Seq<char>>>,
    q: Seq<char>,
    few: F,
    admits_few: spec_fn(usize) -> bool,
    a: (Seq<DocMatch>, Seq<bool>, Seq<Hit>),
    p: Seq<char>,
    many: G,
    admits_many: spec_fn(usize) -> bool,
    b: (Seq<DocMatch>, Seq<bool>, Seq<Hit>),
    score: S,
)
    requires
        docs.len() <= usize::MAX,
        query_terms(q) == query_terms(p),
        settled(score),
        answers_by(few, admits_few),
        answers_by(many, admits_many),
        forall|d: usize| #[trigger] admits_few(d) ==> admits_many(d),
        all_matches(docs, q, a.0),
        asked(few, a.0, a.1),
        a.1.len() == a.0.len(),
        scored_matches(score, a.0, a.1, a.2),
        all_matches(docs, p, b.0),
        asked(many, b.0, b.1),
        b.1.len() == b.0.len(),
        scored_matches(score, b.0, b.1, b.2),
    ensures
        store::distinct_ids(a.2),
        store::distinct_ids(b.2),
        b.2.len() <= docs.len(),
        forall|h: Hit| #[trigger] a.2.contains(h) <==> b.2.contains(h) && admits_few(h.idx),
{
    let (list, answers, hits) = a;
    let (wide, replies, found) = b;
    lemma_hits_of_matches(docs, q, score, list, answers, hits);
    lemma_hits_of_matches(docs, p, score, wide, replies, found);
    store::lemma_positions_agree(docs.len(), matched(docs, q), matched(docs, p));
    let ids = list.map_values(|m: DocMatch| m.doc);
    let others = wide.map_values(|m: DocMatch| m.doc);
    assert(ids == others);
    assert(list.len() == ids.len() && wide.len() == others.len());
    assert forall|i: int| 0 <= i < list.len() implies same_match(
        #[trigger] list[i],
        #[trigger] wide[i],
    ) by {
        assert(ids[i] == list[i].doc && others[i] == wide[i].doc);
        assert(describes(docs, q, list[i]) && describes(docs, p, wide[i]));
    }
    assert forall|i: int| 0 <= i < list.len() implies #[trigger] answers[i] == admits_few(
        list[i].doc,
    ) by {
        assert(few.ensures((list[i].doc,), answers[i]));
    }
    assert forall|i: int| 0 <= i < wide.len() implies #[trigger] replies[i] == admits_many(
        wide[i].doc,
    ) by {
        assert(many.ensures((wide[i].doc,), replies[i]));
    }
    assert forall|h: Hit| #[trigger] hits.contains(h) <==> found.contains(h) && admits_few(
        h.idx,
    ) by {
        if hits.contains(h) {
            let j = choose|j: int| 0 <= j < hits.len() && hits[j] == h;
            let i = lemma_match_of(score, list, answers, hits, j);
            assert(same_match(list[i], wide[i]));
            assert(admits_few(list[i].doc));
            assert(replies[i]);
            let k = lemma_hit_for(score, wide, replies, found, i);
            assert(found[k].score == h.score);
            assert(found[k] == h);
        }
        if found.contains(h) && admits_few(h.idx) {
            let k = choose|k: int| 0 <= k < found.len() && found[k] == h;
            let i = lemma_match_of(score, wide, replies, found, k);
            assert(same_match(list[i], wide[i]));
            assert(answers[i]);
            let j = lemma_hit_for(score, list, answers, hits, i);
            assert(hits[j].score == h.score);
            assert(hits[j] == h);
        }
    }
}

/// A filtered search is a part of the whole one: the hits that the filter admits, in
/// their order, as many as asked for.
pub proof fn a_filtered_search_is_a_part<
    F: Fn(usize) -> bool,
    G: Fn(usize) -> bool,
    S: Fn(&DocMatch) -> FloatBits,
>(
    docs: Seq<Seq<Seq<char>>>,
    query: Seq<char>,
    n: nat,
    filter: F,
    admits: spec_fn(usize) -> bool,
    part: Seq<Hit>,
    m: nat,
    any: G,
    whole: Seq<Hit>,
    score: S,
)
    requires
        docs.len() <= usize::MAX,
        docs.len() <= m,
        settled(score),
        answers_by(filter, admits),
        answers_by(any, |d: usize| true),
        keyword_search(docs, query, n, filter, score, part),
        keyword_search(docs, query, m, any, score, whole),
    ensures
        part.len() == if n < whole.filter(|h: Hit| admits(h.idx)).len() {
            n
        } else {
            whole.filter(|h: Hit| admits(h.idx)).len()
        },
        part == whole.filter(|h: Hit| admits(h.idx)).take(part.len() as int),
{
    let a = choose|list: Seq<DocMatch>, answers: Seq<bool>, hits: Seq<Hit>|
        #![trigger all_matches(docs, query, list), asked(filter, list, answers), store::is_ranking(hits, n, part)]
        all_matches(docs, query, list) && asked(filter, list, answers) && answers.len()
            == list.len() && scored_matches(score, list, answers, hits) && store::is_ranking(
            hits,
            n,
            part,
        );
    let b = choose|list: Seq<DocMatch>, answers: Seq<bool>, hits: Seq<Hit>|
        #![trigger all_matches(docs, query, list), asked(any, list, answers), store::is_ranking(hits, m, whole)]
        all_matches(docs, query, list) && asked(any, list, answers) && answers.len()
            == list.len() && scored_matches(score, list, answers, hits) && store::is_ranking(
            hits,
            m,
            whole,
        );
    let all = |d: usize| true;
    assert forall|d: usize| #[trigger] admits(d) implies all(d) by {}
    lemma_hits_agree(docs, query, filter, admits, a, query, any, all, b, score);
    let keep = |h: Hit| admits(h.idx);
    assert forall|h: Hit| #[trigger] a.2.contains(h) <==> b.2.contains(h) && keep(h) by {}
    store::ranking_a_part_drops_the_rest(a.2, n, part, b.2, m, whole, keep);
}

/// A search that asks for fewer hits gives the start of one that asks for more. Only the
/// terms of the query count, each once.
pub proof fn a_shorter_search_is_a_start<
    F: Fn(usize) -> bool,
    S: Fn(&DocMatch) -> FloatBits,
>(
    docs: Seq<Seq<Seq<char>>>,
    query: Seq<char>,
    n: nat,
    few: Seq<Hit>,
    other: Seq<char>,
    m: nat,
    many: Seq<Hit>,
    allowed: F,
    admits: spec_fn(usize) -> bool,
    score: S,
)
    requires
        docs.len() <= usize::MAX,
        n <= m,
        query_terms(query) == query_terms(other),
        settled(score),
        answers_by(allowed, admits),
        keyword_search(docs, query, n, allowed, score, few),
        keyword_search(docs, other, m, allowed, score, many),
    ensures
        few.len() == if n < many.len() {
            n
        } else {
            many.len()
        },
        few == many.take(few.len() as int),
{
    let a = choose|list: Seq<DocMatch>, answers: Seq<bool>, hits: Seq<Hit>|
        #![trigger all_matches(docs, query, list), asked(allowed, list, answers), store::is_ranking(hits, n, few)]
        all_matches(docs, query, list) && asked(allowed, list, answers) && answers.len()
            == list.len() && scored_matches(score, list, answers, hits) && store::is_ranking(
            hits,
            n,
            few,
        );
    let b = choose|list: Seq<DocMatch>, answers: Seq<bool>, hits: Seq<Hit>|
        #![trigger all_matches(docs, other, list), asked(allowed, list, answers), store::is_ranking(hits, m, many)]
        all_matches(docs, other, list) && asked(allowed, list, answers) && answers.len()
            == list.len() && scored_matches(score, list, answers, hits) && store::is_ranking(
            hits,
            m,
            many,
        );
    lemma_hits_agree(docs, query, allowed, admits, a, other, allowed, admits, b, score);
    lemma_hits_agree(docs, other, allowed, admits, b, query, allowed, admits, a, score);
    assert forall|h: Hit| #[trigger] a.2.contains(h) <==> b.2.contains(h) by {
        if b.2.contains(h) {
            assert(a.2.contains(h));
        }
    }
    store::shorter_ranking_is_a_start(a.2, n, few, b.2, m, many);
}

/// A document matches exactly where it holds one of the terms.
proof fn lemma_term_matches(docs: Seq<Seq<Seq<char>>>, terms: Seq<Seq<char>>, d: int)
    ensures
        term_matches(docs, terms, d).len() > 0 <==> exists|i: int|
            0 <= i < terms.len() && docs[d].contains(#[trigger] terms[i]),
    decreases terms.len(),
{
    if terms.len() > 0 {
        let rest = terms.drop_last();
        lemma_term_matches(docs, rest, d);
        lemma_term_count(docs[d], terms.last());
        if docs[d].contains(terms.last()) {
            assert(docs[d].contains(terms[terms.len() - 1]));
        }
        if exists|i: int| 0 <= i < rest.len() && docs[d].contains(#[trigger] rest[i]) {
            let i = choose|i: int| 0 <= i < rest.len() && docs[d].contains(#[trigger] rest[i]);
            assert(docs[d].contains(terms[i]));
        }
        if exists|i: int| 0 <= i < terms.len() && docs[d].contains(#[trigger] terms[i]) {
            let i = choose|i: int| 0 <= i < terms.len() && docs[d].contains(#[trigger] terms[i]);
            if i < rest.len() {
                assert(docs[d].contains(rest[i]));
            }
        }
    }
}

/// What a list without repetitions holds, the list holds.
proof fn lemma_distinct_members(list: Seq<Seq<char>>, i: int)
    requires
        0 <= i < distinct(list).len(),
    ensures
        list.contains(distinct(list)[i]),
    decreases list.len(),
{
    let init = list.drop_last();
    let rest = distinct(init);
    if i < rest.len() {
        lemma_distinct_members(init, i);
        let k = choose|k: int| 0 <= k < init.len() && init[k] == rest[i];
        assert(list[k] == distinct(list)[i]);
    } else {
        assert(list[list.len() - 1] == distinct(list)[i]);
    }
}

/// Whether a document shares a term with a query.
pub open spec fn shares_term(docs: Seq<Seq<Seq<char>>>, query: Seq<char>, d: int) -> bool {
    exists|i: int| 0 <= i < tokens(query).len() && docs[d].contains(#[trigger] tokens(query)[i])
}

pub proof fn lemma_matched(docs: Seq<Seq<Seq<char>>>, query: Seq<char>, d: int)
    ensures
        matched(docs, query)(d) == shares_term(docs, query, d),
{
    let all = tokens(query);
    let terms = query_terms(query);
    lemma_term_matches(docs, terms, d);
    if exists|i: int| 0 <= i < terms.len() && docs[d].contains(#[trigger] terms[i]) {
        let i = choose|i: int| 0 <= i < terms.len() && docs[d].contains(#[trigger] terms[i]);
        lemma_distinct_members(all, i);
        let k = choose|k: int| 0 <= k < all.len() && all[k] == terms[i];
        assert(docs[d].contains(all[k]));
    }
    if shares_term(docs, query, d) {
        let k = choose|k: int| 0 <= k < all.len() && docs[d].contains(#[trigger] all[k]);
        lemma_distinct_keeps(all, k);
        let i = choose|i: int| 0 <= i < terms.len() && terms[i] == all[k];
        assert(docs[d].contains(terms[i]));
    }
}

/// A search without a filter that asks for enough lists each document that shares a term
/// with the query once, and no other, best score first and equal ones by position.
pub proof fn a_whole_search_lists_every_match<
    F: Fn(usize) -> bool,
    S: Fn(&DocMatch) -> FloatBits,
>(
    docs: Seq<Seq<Seq<char>>>,
    query: Seq<char>,
    n: nat,
    any: F,
    score: S,
    whole: Seq<Hit>,
)
    requires
        docs.len() <= usize::MAX,
        docs.len() <= n,
        answers_by(any, |d: usize| true),
        keyword_search(docs, query, n, any, score, whole),
    ensures
        store::distinct_ids(whole),
        forall|i: int|
            0 <= i < whole.len() ==> (#[trigger] whole[i]).idx < docs.len() && shares_term(
                docs,
                query,
                whole[i].idx as int,
            ),
        forall|d: int|
            0 <= d < docs.len() && #[trigger] shares_term(docs, query, d) ==> exists|i: int|
                0 <= i < whole.len() && (#[trigger] whole[i]).idx == d,
        forall|i: int, j: int|
            0 <= i < j < whole.len() ==> {
                ||| (#[trigger] whole[i]).score.total_rank() > (
                #[trigger] whole[j]).score.total_rank()
                ||| (whole[i].score == whole[j].score && whole[i].idx < whole[j].idx)
            },
{
    let (list, answers, hits) = choose|list: Seq<DocMatch>, answers: Seq<bool>, hits: Seq<Hit>|
        #![trigger all_matches(docs, query, list), asked(any, list, answers), store::is_ranking(hits, n, whole)]
        all_matches(docs, query, list) && asked(any, list, answers) && answers.len()
            == list.len() && scored_matches(score, list, answers, hits) && store::is_ranking(
            hits,
            n,
            whole,
        );
    lemma_hits_of_matches(docs, query, score, list, answers, hits);
    store::ranking_keeps_the_best(hits, n, whole);
    let q = choose|q: Seq<usize>| #[trigger] store::picks_best(hits, n, q, whole);
    order::lemma_sorts_distinct(store::hit_keys(hits), q);
    let hit = matched(docs, query);
    let ids = list.map_values(|m: DocMatch| m.doc);
    order::lemma_positions(docs.len(), hit);
    assert forall|i: int, j: int| 0 <= i < j < whole.len() implies (#[trigger] whole[i]).idx != (
    #[trigger] whole[j]).idx by {
        assert(whole[i] == hits[q[i] as int] && whole[j] == hits[q[j] as int]);
        assert(q[i] != q[j]);
        if q[i] < q[j] {
            assert(hits[q[i] as int].idx != hits[q[j] as int].idx);
        } else {
            assert(hits[q[j] as int].idx != hits[q[i] as int].idx);
        }
    }
    assert forall|i: int| 0 <= i < whole.len() implies (#[trigger] whole[i]).idx < docs.len()
        && shares_term(docs, query, whole[i].idx as int) by {
        assert(whole[i] == hits[q[i] as int]);
        let m = lemma_match_of(score, list, answers, hits, q[i] as int);
        assert(ids[m] == list[m].doc);
        assert(hit(order::positions(docs.len(), hit)[m] as int));
        lemma_matched(docs, query, list[m].doc as int);
    }
    assert forall|d: int| 0 <= d < docs.len() && #[trigger] shares_term(docs, query, d) implies exists|
        i: int,
    | 0 <= i < whole.len() && (#[trigger] whole[i]).idx == d by {
        lemma_matched(docs, query, d);
        assert(hit(d));
        let m = choose|m: int| 0 <= m < ids.len() && ids[m] == d as usize;
        assert(list[m].doc == d);
        assert(any.ensures((list[m].doc,), answers[m]));
        let j = lemma_hit_for(score, list, answers, hits, m);
        order::lemma_sorts_all(store::hit_keys(hits), q, j);
        let i = choose|i: int| 0 <= i < q.len() && #[trigger] q[i] == j;
        assert(whole[i] == hits[j]);
    }
}

/// Every item of a list is among the list without repetitions.
proof fn lemma_distinct_keeps(list: Seq<Seq<char>>, i: int)
    requires
        0 <= i < list.len(),
    ensures
        distinct(list).contains(list[i]),
    decreases list.len(),
{
    let rest = distinct(list.drop_last());
    let all = distinct(list);
    if i < list.len() - 1 {
        lemma_distinct_keeps(list.drop_last(), i);
        let k = choose|k: int| 0 <= k < rest.len() && rest[k] == list[i];
        assert(all[k] == list[i]);
    } else if !rest.contains(list[i]) {
        assert(all[rest.len() as int] == list[i]);
    }
}

proof fn lemma_distinct_known(list: Seq<Seq<char>>, more: Seq<Seq<char>>)
    requires
        forall|i: int| 0 <= i < more.len() ==> list.contains(#[trigger] more[i]),
    ensures
        distinct(list + more) == distinct(list),
    decreases more.len(),
{
    if more.len() == 0 {
        assert(list + more =~= list);
    } else {
        assert forall|i: int| 0 <= i < more.drop_last().len() implies list.contains(
            #[trigger] more.drop_last()[i],
        ) by {
            assert(more.drop_last()[i] == more[i]);
        }
        lemma_distinct_known(list, more.drop_last());
        assert((list + more).drop_last() =~= list + more.drop_last());
        assert(list.contains(more[more.len() - 1]));
        let i = choose|i: int| 0 <= i < list.len() && list[i] == more.last();
        lemma_distinct_keeps(list, i);
    }
}

/// Writing a query twice, with a separator between, asks for the same terms.
pub proof fn a_repeated_query_asks_the_same(query: Seq<char>, sep: char)
    requires
        !text::alphanumeric(sep),
        sep != '_',
    ensures
        query_terms(query + seq![sep] + query) == query_terms(query),
{
    let list = tokens(query);
    a_separator_parts_the_tokens(query, sep, query);
    assert forall|i: int| 0 <= i < list.len() implies list.contains(#[trigger] list[i]) by {}
    lemma_distinct_known(list, list);
}

/// A query that is written twice finds the same hits.
pub proof fn a_repeated_query_finds_the_same<
    F: Fn(usize) -> bool,
    S: Fn(&DocMatch) -> FloatBits,
>(
    docs: Seq<Seq<Seq<char>>>,
    query: Seq<char>,
    sep: char,
    n: nat,
    allowed: F,
    admits: spec_fn(usize) -> bool,
    score: S,
    once: Seq<Hit>,
    twice: Seq<Hit>,
)
    requires
        docs.len() <= usize::MAX,
        !text::alphanumeric(sep),
        sep != '_',
        settled(score),
        answers_by(allowed, admits),
        keyword_search(docs, query, n, allowed, score, once),
        keyword_search(docs, query + seq![sep] + query, n, allowed, score, twice),
    ensures
        twice == once,
{
    let again = query + seq![sep] + query;
    a_repeated_query_asks_the_same(query, sep);
    a_shorter_search_is_a_start(docs, again, n, twice, query, n, once, allowed, admits, score);
    a_shorter_search_is_a_start(docs, query, n, once, again, n, twice, allowed, admits, score);
    assert(once.take(once.len() as int) =~= once);
}

// ---------------------------------------------------------------------------
// What a record is found by
// ---------------------------------------------------------------------------

/// The tokens of a text that may be absent.
pub open spec fn tokens_if_any(o: Option<String>) -> Seq<Seq<char>> {
    if o is Some {
        tokens((o->0)@)
    } else {
        Seq::empty()
    }
}

/// The tokens of each heading, heading after heading.
pub open spec fn heading_tokens(headings: Seq<String>) -> Seq<Seq<char>> {
    Seq::new(headings.len(), |i: int| tokens(headings[i]@)).flatten()
}

proof fn lemma_texts_tokens_concat(a: Seq<Seq<char>>, b: Seq<Seq<char>>)
    ensures
        texts_tokens(a + b) == texts_tokens(a) + texts_tokens(b),
    decreases b.len(),
{
    if b.len() == 0 {
        assert(a + b =~= a);
        assert(texts_tokens(a) + texts_tokens(b) =~= texts_tokens(a));
    } else {
        lemma_texts_tokens_concat(a, b.drop_last());
        assert((a + b).drop_last() =~= a + b.drop_last());
        assert((a + b).last() == b.last());
        assert(texts_tokens(a + b) =~= texts_tokens(a) + texts_tokens(b));
    }
}

proof fn lemma_texts_tokens_one(s: Seq<char>)
    ensures
        texts_tokens(seq![s]) == tokens(s),
{
    let one = seq![s];
    assert(one.drop_last() =~= Seq::<Seq<char>>::empty());
    assert(texts_tokens(one.drop_last()) =~= Seq::<Seq<char>>::empty());
    assert(texts_tokens(one) =~= tokens(s));
}

proof fn lemma_opt_tokens(o: Option<String>)
    ensures
        texts_tokens(opt_list(o)) == tokens_if_any(o),
{
    if o is Some {
        lemma_texts_tokens_one((o->0)@);
    }
}

proof fn lemma_heading_tokens(headings: Seq<String>)
    ensures
        headings.len() > 0 ==> tokens(text::join(text::texts(headings), seq![' ']))
            == heading_tokens(headings),
    decreases headings.len(),
{
    if headings.len() > 0 {
        let init = headings.drop_last();
        let last = headings.last();
        lemma_heading_tokens(init);
        let lists = Seq::new(headings.len(), |i: int| tokens(headings[i]@));
        let fewer = Seq::new(init.len(), |i: int| tokens(init[i]@));
        assert(lists =~= fewer.push(tokens(last@)));
        fewer.lemma_flatten_push(tokens(last@));
        let texts = text::texts(init);
        assert(text::texts(headings) =~= texts.push(last@));
        text::joining_appends(texts, seq![' '], last@);
        if init.len() == 0 {
            assert(fewer =~= Seq::<Seq<Seq<char>>>::empty());
            assert(fewer.flatten() =~= Seq::<Seq<char>>::empty());
            assert(heading_tokens(headings) =~= tokens(last@));
        } else {
            a_separator_parts_the_tokens(text::join(texts, seq![' ']), ' ', last@);
        }
    }
}

/// The document of a record is the tokens of its path and its text, and between them,
/// where structure counts, those of its symbol, its kind, its parent, its signature and
/// each of its headings. Where it does not count, nothing of the five is in it.
pub proof fn documents_hold_every_field(r: Record)
    ensures
        record_tokens(r, true) == tokens(r.file@) + tokens_if_any(r.symbol) + tokens_if_any(r.kind)
            + tokens_if_any(r.parent) + tokens_if_any(r.signature) + heading_tokens(r.headings@)
            + tokens(r.text@),
        record_tokens(r, false) == tokens(r.file@) + tokens(r.text@),
{
    lemma_structural_tokens(r);
    lemma_sums(
        tokens(r.file@),
        tokens_if_any(r.symbol),
        tokens_if_any(r.kind),
        tokens_if_any(r.parent),
        tokens_if_any(r.signature),
        heading_tokens(r.headings@),
    );
    assert(tokens(r.file@) + Seq::<Seq<char>>::empty() =~= tokens(r.file@));
}

proof fn lemma_structural_tokens(r: Record)
    ensures
        texts_tokens(structural_texts(r)) == tokens_if_any(r.symbol) + tokens_if_any(r.kind)
            + tokens_if_any(r.parent) + tokens_if_any(r.signature) + heading_tokens(r.headings@),
{
    let symbol = opt_list(r.symbol);
    let kind = opt_list(r.kind);
    let parent = opt_list(r.parent);
    let signature = opt_list(r.signature);
    let heads = if r.headings@.len() == 0 {
        Seq::<Seq<char>>::empty()
    } else {
        seq![text::join(text::texts(r.headings@), seq![' '])]
    };
    lemma_opt_tokens(r.symbol);
    lemma_opt_tokens(r.kind);
    lemma_opt_tokens(r.parent);
    lemma_opt_tokens(r.signature);
    lemma_heading_tokens(r.headings@);
    if r.headings@.len() > 0 {
        lemma_texts_tokens_one(heads[0]);
        assert(heads =~= seq![heads[0]]);
    } else {
        let none = Seq::new(r.headings@.len(), |i: int| tokens(r.headings@[i]@));
        assert(none =~= Seq::<Seq<Seq<char>>>::empty());
        assert(heading_tokens(r.headings@) =~= Seq::<Seq<char>>::empty());
    }
    lemma_texts_tokens_concat(symbol, kind);
    lemma_texts_tokens_concat(symbol + kind, parent);
    lemma_texts_tokens_concat(symbol + kind + parent, signature);
    lemma_texts_tokens_concat(symbol + kind + parent + signature, heads);
    assert(structural_texts(r) == symbol + kind + parent + signature + heads);
}

proof fn lemma_sums(
    a: Seq<Seq<char>>,
    b: Seq<Seq<char>>,
    c: Seq<Seq<char>>,
    d: Seq<Seq<char>>,
    e: Seq<Seq<char>>,
    f: Seq<Seq<char>>,
)
    ensures
        a + (b + c + d + e + f) == a + b + c + d + e + f,
{
    assert(a + (b + c + d + e + f) =~= a + (b + c + d + e) + f);
    assert(a + (b + c + d + e) =~= a + (b + c + d) + e);
    assert(a + (b + c + d) =~= a + (b + c) + d);
    assert(a + (b + c) =~= a + b + c);
}

/// Whether a token is one of a text that may be absent.
pub open spec fn token_of(o: Option<String>, t: Seq<char>) -> bool {
    o is Some && tokens((o->0)@).contains(t)
}

/// Whether a token is one of some heading.
pub open spec fn token_of_heading(headings: Seq<String>, t: Seq<char>) -> bool {
    exists|i: int| 0 <= i < headings.len() && tokens((#[trigger] headings[i])@).contains(t)
}

proof fn lemma_sum_contains(a: Seq<Seq<char>>, b: Seq<Seq<char>>, t: Seq<char>)
    ensures
        (a + b).contains(t) <==> a.contains(t) || b.contains(t),
{
    if a.contains(t) {
        let i = choose|i: int| 0 <= i < a.len() && a[i] == t;
        assert((a + b)[i] == t);
    }
    if b.contains(t) {
        let i = choose|i: int| 0 <= i < b.len() && b[i] == t;
        assert((a + b)[a.len() + i] == t);
    }
    if (a + b).contains(t) {
        let i = choose|i: int| 0 <= i < (a + b).len() && (a + b)[i] == t;
        if i < a.len() {
            assert(a[i] == t);
        } else {
            assert(b[i - a.len()] == t);
        }
    }
}

proof fn lemma_heading_token(headings: Seq<String>, t: Seq<char>)
    ensures
        heading_tokens(headings).contains(t) <==> token_of_heading(headings, t),
    decreases headings.len(),
{
    if headings.len() == 0 {
        let none = Seq::new(headings.len(), |i: int| tokens(headings[i]@));
        assert(none =~= Seq::<Seq<Seq<char>>>::empty());
        assert(heading_tokens(headings) =~= Seq::<Seq<char>>::empty());
    } else {
        let init = headings.drop_last();
        lemma_heading_token(init, t);
        let lists = Seq::new(headings.len(), |i: int| tokens(headings[i]@));
        let fewer = Seq::new(init.len(), |i: int| tokens(init[i]@));
        assert(lists =~= fewer.push(tokens(headings.last()@)));
        fewer.lemma_flatten_push(tokens(headings.last()@));
        lemma_sum_contains(fewer.flatten(), tokens(headings.last()@), t);
        if token_of_heading(init, t) {
            let i = choose|i: int| 0 <= i < init.len() && tokens((#[trigger] init[i])@).contains(t);
            assert(headings[i] == init[i]);
        }
        if token_of_heading(headings, t) {
            let i = choose|i: int|
                0 <= i < headings.len() && tokens((#[trigger] headings[i])@).contains(t);
            if i < init.len() {
                assert(headings[i] == init[i]);
            }
        }
        if tokens(headings.last()@).contains(t) {
            assert(tokens(headings[headings.len() - 1]@).contains(t));
        }
    }
}

/// A query of a token finds a record, where structure counts, exactly if the token is one
/// of its path, its text, its symbol, its kind, its parent, its signature or one of its
/// headings, and where structure does not count, exactly if it is one of its path or its
/// text.
pub proof fn records_are_found_by_their_fields(
    records: Seq<Record>,
    d: int,
    query: Seq<char>,
    t: Seq<char>,
)
    requires
        0 <= d < records.len(),
        tokens(query) == seq![t],
    ensures
        matched(documents(records, true), query)(d) <==> {
            let r = records[d];
            ||| tokens(r.file@).contains(t)
            ||| tokens(r.text@).contains(t)
            ||| token_of(r.symbol, t)
            ||| token_of(r.kind, t)
            ||| token_of(r.parent, t)
            ||| token_of(r.signature, t)
            ||| token_of_heading(r.headings@, t)
        },
        matched(documents(records, false), query)(d) <==> tokens(records[d].file@).contains(t)
            || tokens(records[d].text@).contains(t),
{
    let r = records[d];
    documents_hold_every_field(r);
    let (a, b, c) = (tokens(r.file@), tokens_if_any(r.symbol), tokens_if_any(r.kind));
    let (e, f, g) = (tokens_if_any(r.parent), tokens_if_any(r.signature), heading_tokens(r.headings@));
    let h = tokens(r.text@);
    lemma_sum_contains(a, b, t);
    lemma_sum_contains(a + b, c, t);
    lemma_sum_contains(a + b + c, e, t);
    lemma_sum_contains(a + b + c + e, f, t);
    lemma_sum_contains(a + b + c + e + f, g, t);
    lemma_sum_contains(a + b + c + e + f + g, h, t);
    lemma_sum_contains(a, h, t);
    lemma_heading_token(r.headings@, t);
    lemma_matched(documents(records, true), query, d);
    lemma_matched(documents(records, false), query, d);
    assert(documents(records, true)[d] == record_tokens(r, true));
    assert(documents(records, false)[d] == record_tokens(r, false));
    assert(tokens(query)[0] == t);
}

/// A query finds a record exactly if the two share a token: so each token of a field finds
/// the record, whatever else the query asks for.
pub proof fn a_shared_token_finds_the_record(
    records: Seq<Record>,
    include_structural: bool,
    d: int,
    query: Seq<char>,
)
    requires
        0 <= d < records.len(),
    ensures
        matched(documents(records, include_structural), query)(d) <==> exists|t: Seq<char>| #[trigger]
            tokens(query).contains(t) && record_tokens(records[d], include_structural).contains(t),
{
    let docs = documents(records, include_structural);
    lemma_matched(docs, query, d);
    assert(docs[d] == record_tokens(records[d], include_structural));
    if shares_term(docs, query, d) {
        let i = choose|i: int|
            0 <= i < tokens(query).len() && docs[d].contains(#[trigger] tokens(query)[i]);
        assert(tokens(query).contains(tokens(query)[i]));
    }
    if exists|t: Seq<char>| #[trigger] tokens(query).contains(t) && docs[d].contains(t) {
        let t = choose|t: Seq<char>| #[trigger]
            tokens(query).contains(t) && docs[d].contains(t);
        let i = choose|i: int| 0 <= i < tokens(query).len() && tokens(query)[i] == t;
        assert(docs[d].contains(tokens(query)[i]));
    }
}

// ---------------------------------------------------------------------------
// What a match says
// ---------------------------------------------------------------------------

/// How often a term stands in a document.
pub open spec fn occurrences(doc: Seq<Seq<char>>, term: Seq<char>) -> nat {
    doc.filter(|t: Seq<char>| t == term).len()
}

/// How many documents hold a term.
pub open spec fn holders(docs: Seq<Seq<Seq<char>>>, term: Seq<char>) -> nat {
    docs.filter(|doc: Seq<Seq<char>>| doc.contains(term)).len()
}

proof fn lemma_occurrences(doc: Seq<Seq<char>>, term: Seq<char>)
    ensures
        term_count(doc, term) == occurrences(doc, term),
    decreases doc.len(),
{
    reveal(Seq::filter);
    if doc.len() > 0 {
        lemma_occurrences(doc.drop_last(), term);
    }
}

proof fn lemma_holders(docs: Seq<Seq<Seq<char>>>, term: Seq<char>)
    ensures
        postings_of(docs, term).len() == holders(docs, term),
    decreases docs.len(),
{
    reveal(Seq::filter);
    if docs.len() > 0 {
        lemma_holders(docs.drop_last(), term);
        lemma_term_count(docs.last(), term);
    }
}

/// A term is posted once for each document that holds it, in the order of the documents,
/// with how often it stands there.
pub proof fn postings_name_the_holders(docs: Seq<Seq<Seq<char>>>, term: Seq<char>)
    requires
        docs.len() <= usize::MAX,
        forall|d: int| 0 <= d < docs.len() ==> (#[trigger] docs[d]).len() <= usize::MAX,
    ensures
        postings_of(docs, term).len() == holders(docs, term),
        forall|i: int|
            0 <= i < postings_of(docs, term).len() ==> {
                let p = #[trigger] postings_of(docs, term)[i];
                p.doc < docs.len() && docs[p.doc as int].contains(term) && p.tf == occurrences(
                    docs[p.doc as int],
                    term,
                )
            },
        forall|i: int, j: int|
            0 <= i < j < postings_of(docs, term).len() ==> (#[trigger] postings_of(
                docs,
                term,
            )[i]).doc < (#[trigger] postings_of(docs, term)[j]).doc,
{
    lemma_holders(docs, term);
    lemma_postings_docs(docs, term);
    assert forall|i: int| 0 <= i < postings_of(docs, term).len() implies {
        let p = #[trigger] postings_of(docs, term)[i];
        p.doc < docs.len() && docs[p.doc as int].contains(term) && p.tf == occurrences(
            docs[p.doc as int],
            term,
        )
    } by {
        let p = postings_of(docs, term)[i];
        lemma_term_count(docs[p.doc as int], term);
        lemma_occurrences(docs[p.doc as int], term);
    }
}

/// A document's match lists, of the terms asked for, each one that stands in it, in the
/// order asked: how often it stands there, and how many documents hold it.
pub proof fn matches_list_the_terms_they_hold(
    docs: Seq<Seq<Seq<char>>>,
    terms: Seq<Seq<char>>,
    d: int,
)
    requires
        docs.len() <= usize::MAX,
        docs[d].len() <= usize::MAX,
    ensures
        term_matches(docs, terms, d).len() == terms.filter(
            |t: Seq<char>| docs[d].contains(t),
        ).len(),
        forall|i: int|
            0 <= i < term_matches(docs, terms, d).len() ==> {
                let t = terms.filter(|t: Seq<char>| docs[d].contains(t))[i];
                let m = #[trigger] term_matches(docs, terms, d)[i];
                m.tf == occurrences(docs[d], t) && m.df == holders(docs, t)
            },
    decreases terms.len(),
{
    reveal(Seq::filter);
    if terms.len() > 0 {
        let t = terms.last();
        matches_list_the_terms_they_hold(docs, terms.drop_last(), d);
        lemma_term_count(docs[d], t);
        lemma_occurrences(docs[d], t);
        lemma_holders(docs, t);
        docs.lemma_filter_len(|doc: Seq<Seq<char>>| doc.contains(t));
        assert(holders(docs, t) <= docs.len());
    }
}

/// Whether `x` stands in a list before any `y`.
pub open spec fn comes_before(list: Seq<Seq<char>>, x: Seq<char>, y: Seq<char>) -> bool {
    exists|p: int|
        #![trigger list[p]]
        0 <= p < list.len() && list[p] == x && !list.take(p).contains(y)
}

/// The terms of a query are its tokens, each once, in the order in which they first come.
pub proof fn query_terms_come_once(query: Seq<char>)
    ensures
        query_terms(query).no_duplicates(),
        forall|t: Seq<char>| #[trigger]
            query_terms(query).contains(t) <==> tokens(query).contains(t),
        forall|i: int, j: int|
            0 <= i < j < query_terms(query).len() ==> comes_before(
                tokens(query),
                #[trigger] query_terms(query)[i],
                #[trigger] query_terms(query)[j],
            ),
{
    lemma_distinct_in_order(tokens(query));
    assert forall|t: Seq<char>| #[trigger]
        query_terms(query).contains(t) <==> tokens(query).contains(t) by {
        if query_terms(query).contains(t) {
            let i = choose|i: int| 0 <= i < query_terms(query).len() && query_terms(query)[i] == t;
            lemma_distinct_members(tokens(query), i);
        }
        if tokens(query).contains(t) {
            let i = choose|i: int| 0 <= i < tokens(query).len() && tokens(query)[i] == t;
            lemma_distinct_keeps(tokens(query), i);
        }
    }
}

proof fn lemma_distinct_in_order(list: Seq<Seq<char>>)
    ensures
        distinct(list).no_duplicates(),
        forall|i: int, j: int|
            0 <= i < j < distinct(list).len() ==> comes_before(
                list,
                #[trigger] distinct(list)[i],
                #[trigger] distinct(list)[j],
            ),
    decreases list.len(),
{
    if list.len() > 0 {
        let init = list.drop_last();
        let (rest, all) = (distinct(init), distinct(list));
        lemma_distinct_in_order(init);
        assert forall|i: int, j: int| 0 <= i < j < all.len() implies comes_before(
            list,
            #[trigger] all[i],
            #[trigger] all[j],
        ) by {
            if j < rest.len() {
                assert(comes_before(init, rest[i], rest[j]));
                let p = choose|p: int|
                    #![trigger init[p]]
                    0 <= p < init.len() && init[p] == rest[i] && !init.take(p).contains(rest[j]);
                assert(list[p] == init[p]);
                assert(list.take(p) =~= init.take(p));
            } else {
                lemma_distinct_members(init, i);
                let p = choose|p: int| 0 <= p < init.len() && init[p] == rest[i];
                assert(list[p] == init[p]);
                let before = list.take(p);
                if before.contains(all[j]) {
                    let q = choose|q: int| 0 <= q < before.len() && before[q] == all[j];
                    assert(init[q] == all[j]);
                    lemma_distinct_keeps(init, q);
                }
            }
        }
    }
}

// ---------------------------------------------------------------------------
// What a token is
// ---------------------------------------------------------------------------

/// A text of letters, digits and underscores alone is one identifier.
pub proof fn underscores_do_not_part_identifiers(s: Seq<char>)
    requires
        s.len() > 0,
        forall|i: int| 0 <= i < s.len() ==> text::alphanumeric(#[trigger] s[i]) || s[i] == '_',
    ensures
        tokens(s) == ident_tokens(s),
{
    assert forall|i: int| 0 <= i < s.len() implies is_ident()(#[trigger] s[i]) by {}
    text::a_whole_run(s, is_ident());
    let one = seq![s];
    assert(one.drop_last() =~= Seq::<Seq<char>>::empty());
    assert(idents_tokens(one.drop_last()) =~= Seq::<Seq<char>>::empty());
    assert(idents_tokens(one) =~= ident_tokens(s));
}

/// Whether a token is a camel-case part, in small letters, of one of the pieces that
/// underscores part an identifier into.
pub open spec fn part_of(ident: Seq<char>, t: Seq<char>) -> bool {
    exists|k: int, n: int|
        #![trigger camel_parts(text::split_on(ident, '_')[k])[n]]
        0 <= k < text::split_on(ident, '_').len() && text::split_on(ident, '_')[k].len() > 0 && 0
            <= n < camel_parts(text::split_on(ident, '_')[k]).len() && t == text::lowercase(
            camel_parts(text::split_on(ident, '_')[k])[n],
        )
}

/// The tokens of an identifier are its parts, and at the end, once, the whole of it in
/// small letters.
pub proof fn identifiers_give_their_parts_and_themselves(ident: Seq<char>)
    ensures
        ident_tokens(ident).len() > 0,
        ident_tokens(ident).last() == text::lowercase(ident),
        !ident_tokens(ident).drop_last().contains(text::lowercase(ident)),
        forall|t: Seq<char>|
            t != text::lowercase(ident) ==> (#[trigger] ident_tokens(ident).contains(t) <==> part_of(
                ident,
                t,
            )),
{
    let whole = text::lowercase(ident);
    let pieces = text::split_on(ident, '_');
    let subs = sub_tokens(pieces);
    let keep = differs_from(whole);
    let kept = subs.filter(keep);
    let all = ident_tokens(ident);
    assert(all.drop_last() =~= kept);
    if kept.contains(whole) {
        let i = choose|i: int| 0 <= i < kept.len() && kept[i] == whole;
        subs.lemma_filter_pred(keep, i);
    }
    assert forall|t: Seq<char>| t != whole implies (#[trigger] all.contains(t) <==> part_of(
        ident,
        t,
    )) by {
        lemma_sub_token(pieces, t);
        if all.contains(t) {
            let i = choose|i: int| 0 <= i < all.len() && all[i] == t;
            assert(kept[i] == t);
            subs.lemma_filter_contains_rev(keep, t);
        }
        if subs.contains(t) {
            let i = choose|i: int| 0 <= i < subs.len() && subs[i] == t;
            assert(keep(subs[i]));
            subs.lemma_filter_contains(keep, i);
            let k = choose|k: int| 0 <= k < kept.len() && kept[k] == t;
            assert(all[k] == t);
        }
    }
}

proof fn lemma_sub_token(pieces: Seq<Seq<char>>, t: Seq<char>)
    ensures
        sub_tokens(pieces).contains(t) <==> exists|k: int, n: int|
            #![trigger camel_parts(pieces[k])[n]]
            0 <= k < pieces.len() && pieces[k].len() > 0 && 0 <= n < camel_parts(pieces[k]).len()
                && t == text::lowercase(camel_parts(pieces[k])[n]),
    decreases pieces.len(),
{
    if pieces.len() > 0 {
        let init = pieces.drop_last();
        let last = pieces.last();
        lemma_sub_token(init, t);
        let low = lowered(camel_parts(last));
        lemma_sum_contains(sub_tokens(init), low, t);
        if sub_tokens(init).contains(t) {
            let (k, n) = choose|k: int, n: int|
                #![trigger camel_parts(init[k])[n]]
                0 <= k < init.len() && init[k].len() > 0 && 0 <= n < camel_parts(init[k]).len() && t
                    == text::lowercase(camel_parts(init[k])[n]);
            assert(pieces[k] == init[k]);
            assert(camel_parts(pieces[k])[n] == camel_parts(init[k])[n]);
        }
        if last.len() > 0 && low.contains(t) {
            let n = choose|n: int| 0 <= n < low.len() && low[n] == t;
            let k = pieces.len() - 1;
            assert(pieces[k] == last);
            assert(camel_parts(pieces[k])[n] == camel_parts(last)[n]);
        }
        if exists|k: int, n: int|
            #![trigger camel_parts(pieces[k])[n]]
            0 <= k < pieces.len() && pieces[k].len() > 0 && 0 <= n < camel_parts(pieces[k]).len()
                && t == text::lowercase(camel_parts(pieces[k])[n]) {
            let (k, n) = choose|k: int, n: int|
                #![trigger camel_parts(pieces[k])[n]]
                0 <= k < pieces.len() && pieces[k].len() > 0 && 0 <= n < camel_parts(
                    pieces[k],
                ).len() && t == text::lowercase(camel_parts(pieces[k])[n]);
            if k < init.len() {
                assert(pieces[k] == init[k]);
                assert(camel_parts(init[k])[n] == camel_parts(pieces[k])[n]);
            } else {
                assert(low[n] == t);
            }
        }
    }
}

/// Whether a new part of a word starts at a character: at a capital behind a small letter,
/// and at the last of several capitals when a small letter follows it.
pub open spec fn starts_part(w: Seq<char>, i: int) -> bool {
    text::uppercase_char(w[i]) && (text::lowercase_char(w[i - 1]) || (text::uppercase_char(w[i - 1])
        && i + 1 < w.len() && text::lowercase_char(w[i + 1])))
}

/// Whether a part is what stands in a word between two places.
pub open spec fn stands_between(w: Seq<char>, part: Seq<char>, lo: int, hi: int) -> bool {
    0 <= lo < hi <= w.len() && part == w.subrange(lo, hi)
}

/// Whether the parts stand in a word from each place to the next.
pub open spec fn cut_at(w: Seq<char>, parts: Seq<Seq<char>>, cuts: Seq<int>) -> bool {
    forall|k: int|
        0 <= k < parts.len() ==> stands_between(w, #[trigger] parts[k], cuts[k], cuts[k + 1])
}

proof fn lemma_cuts_rise(w: Seq<char>, parts: Seq<Seq<char>>, cuts: Seq<int>, n: int)
    requires
        cut_at(w, parts, cuts),
        0 <= n <= parts.len(),
    ensures
        cuts[0] <= cuts[n],
    decreases n,
{
    if n > 0 {
        lemma_cuts_rise(w, parts, cuts, n - 1);
        assert(stands_between(w, parts[n - 1], cuts[n - 1], cuts[n]));
    }
}

/// The parts of a word stand one behind the other, cut at each character that starts a
/// part and nowhere else.
pub proof fn words_are_cut_at_their_capitals(w: Seq<char>) -> (cuts: Seq<int>)
    requires
        w.len() > 0,
    ensures
        cuts.len() == camel_parts(w).len() + 1,
        cuts[0] == 0,
        cuts.last() == w.len(),
        cut_at(w, camel_parts(w), cuts),
        forall|i: int| 0 < i < w.len() ==> (#[trigger] cuts.contains(i) <==> starts_part(w, i)),
{
    lemma_camel_cuts(w, 0, 1)
}

proof fn lemma_camel_cuts(w: Seq<char>, start: int, i: int) -> (cuts: Seq<int>)
    requires
        0 <= start < i <= w.len(),
    ensures
        cuts.len() == camel_from(w, start, i).len() + 1,
        cuts[0] == start,
        cuts.last() == w.len(),
        cut_at(w, camel_from(w, start, i), cuts),
        forall|j: int| start < j < i ==> !#[trigger] cuts.contains(j),
        forall|j: int| i <= j < w.len() ==> (#[trigger] cuts.contains(j) <==> starts_part(w, j)),
    decreases w.len() - i,
{
    let parts = camel_from(w, start, i);
    if i >= w.len() {
        let cuts = seq![start, w.len() as int];
        assert(parts =~= seq![w.subrange(start, w.len() as int)]);
        assert(stands_between(w, parts[0], cuts[0], cuts[1]));
        cuts
    } else if camel_boundary(w, i) {
        let more = lemma_camel_cuts(w, i, i + 1);
        let rest = camel_from(w, i, i + 1);
        let cuts = seq![start] + more;
        assert forall|k: int| 0 <= k < parts.len() implies stands_between(
            w,
            #[trigger] parts[k],
            cuts[k],
            cuts[k + 1],
        ) by {
            if k > 0 {
                assert(parts[k] == rest[k - 1]);
                assert(cuts[k] == more[k - 1] && cuts[k + 1] == more[k]);
            } else {
                assert(cuts[1] == more[0]);
            }
        }
        assert forall|j: int| j != start implies (#[trigger] cuts.contains(j) <==> more.contains(
            j,
        )) by {
            if more.contains(j) {
                let n = choose|n: int| 0 <= n < more.len() && more[n] == j;
                assert(cuts[n + 1] == j);
            }
            if cuts.contains(j) {
                let n = choose|n: int| 0 <= n < cuts.len() && cuts[n] == j;
                assert(more[n - 1] == j);
            }
        }
        assert(more.contains(more[0]));
        assert forall|j: int| start < j < i implies !#[trigger] cuts.contains(j) by {
            if more.contains(j) {
                let n = choose|n: int| 0 <= n < more.len() && more[n] == j;
                lemma_cuts_rise(w, rest, more, n);
            }
        }
        cuts
    } else {
        let cuts = lemma_camel_cuts(w, start, i + 1);
        cuts
    }
}

/// The fields of a record that search counts besides its text are its symbol, its kind,
/// its parent, its signature and its headings: their tokens are those of the list.
pub proof fn structural_fields_hold_every_token(r: &Record, list: Vec<String>, t: Seq<char>)
    requires
        call_ensures(structural_fields, (r,), list),
    ensures
        (exists|i: int| 0 <= i < list@.len() && tokens((#[trigger] list@[i])@).contains(t)) <==> {
            ||| token_of(r.symbol, t)
            ||| token_of(r.kind, t)
            ||| token_of(r.parent, t)
            ||| token_of(r.signature, t)
            ||| token_of_heading(r.headings@, t)
        },
{
    let texts = text::texts(list@);
    lemma_texts_token(texts, t);
    assert(texts.len() == list@.len());
    if exists|i: int| 0 <= i < list@.len() && tokens((#[trigger] list@[i])@).contains(t) {
        let i = choose|i: int| 0 <= i < list@.len() && tokens((#[trigger] list@[i])@).contains(t);
        assert(tokens(texts[i]).contains(t));
    }
    if exists|i: int| 0 <= i < texts.len() && tokens(#[trigger] texts[i]).contains(t) {
        let i = choose|i: int| 0 <= i < texts.len() && tokens(#[trigger] texts[i]).contains(t);
        assert(tokens(list@[i]@).contains(t));
    }
    let (b, c) = (tokens_if_any(r.symbol), tokens_if_any(r.kind));
    let (e, f) = (tokens_if_any(r.parent), tokens_if_any(r.signature));
    let g = heading_tokens(r.headings@);
    lemma_structural_tokens(*r);
    lemma_sum_contains(b, c, t);
    lemma_sum_contains(b + c, e, t);
    lemma_sum_contains(b + c + e, f, t);
    lemma_sum_contains(b + c + e + f, g, t);
    lemma_heading_token(r.headings@, t);
}

proof fn lemma_texts_token(list: Seq<Seq<char>>, t: Seq<char>)
    ensures
        texts_tokens(list).contains(t) <==> exists|i: int|
            0 <= i < list.len() && tokens(#[trigger] list[i]).contains(t),
    decreases list.len(),
{
    if list.len() > 0 {
        let init = list.drop_last();
        lemma_texts_token(init, t);
        lemma_sum_contains(texts_tokens(init), tokens(list.last()), t);
        if texts_tokens(init).contains(t) {
            let i = choose|i: int| 0 <= i < init.len() && tokens(#[trigger] init[i]).contains(t);
            assert(list[i] == init[i]);
        }
        if tokens(list.last()).contains(t) {
            assert(tokens(list[list.len() - 1]).contains(t));
        }
        if exists|i: int| 0 <= i < list.len() && tokens(#[trigger] list[i]).contains(t) {
            let i = choose|i: int| 0 <= i < list.len() && tokens(#[trigger] list[i]).contains(t);
            if i < init.len() {
                assert(init[i] == list[i]);
            }
        }
    }
}

/// A word is cut where its capitals say, and its parts make it up.
pub proof fn words_come_in_parts(word: &str, r: Vec<String>, i: int)
    requires
        call_ensures(camel_split, (word,), r),
        word@.len() > 0,
        0 <= i < r@.len(),
    ensures
        concat(text::texts(r@)) == word@,
        r@[i]@.len() > 0,
        forall|j: int| 0 < j < r@[i]@.len() - 1 ==> !#[trigger] starts_part(r@[i]@, j),
{
    let parts = camel_parts(word@);
    camel_parts_make_up_the_word(word@);
    let cuts = words_are_cut_at_their_capitals(word@);
    assert(text::texts(r@).len() == r@.len());
    assert(text::texts(r@)[i] == r@[i]@);
    assert(stands_between(word@, parts[i], cuts[i], cuts[i + 1]));
    let part = r@[i]@;
    assert forall|j: int| 0 < j < part.len() - 1 implies !#[trigger] starts_part(part, j) by {
        let at = cuts[i] + j;
        assert(part[j] == word@[at] && part[j - 1] == word@[at - 1] && part[j + 1] == word@[at + 1]);
        if starts_part(part, j) {
            assert(starts_part(word@, at));
            assert(cuts.contains(at));
            let n = choose|n: int| 0 <= n < cuts.len() && cuts[n] == at;
            if n <= i {
                lemma_cuts_between(word@, parts, cuts, n, i);
            } else {
                lemma_cuts_between(word@, parts, cuts, i + 1, n);
            }
        }
    }
}

proof fn lemma_cuts_between(w: Seq<char>, parts: Seq<Seq<char>>, cuts: Seq<int>, m: int, n: int)
    requires
        cut_at(w, parts, cuts),
        0 <= m <= n <= parts.len(),
    ensures
        cuts[m] <= cuts[n],
    decreases n - m,
{
    if m < n {
        lemma_cuts_between(w, parts, cuts, m, n - 1);
        assert(stands_between(w, parts[n - 1], cuts[n - 1], cuts[n]));
    }
}

/// A search channel is built over one document for each record, and there is none exactly
/// if no record has a token.
pub proof fn channels_have_a_document_for_each_record(
    records: &Vec<Record>,
    include_structural: bool,
    r: Result<LexicalIndex, EmptyChannel>,
    k: int,
)
    requires
        call_ensures(LexicalIndex::build, (records, include_structural), r),
        0 <= k < records@.len(),
    ensures
        r is Ok ==> r->Ok_0.documents().len() == records@.len() && r->Ok_0.documents()[k]
            == record_tokens(records@[k], include_structural),
        record_tokens(records@[k], include_structural).len() > 0 ==> r is Ok,
{
    let docs = documents(records@, include_structural);
    assert(docs[k] == record_tokens(records@[k], include_structural));
}

/// A match tells the length of its document and the number of all of them, with each term
/// of the query that stands in it.
pub proof fn matches_describe_their_document(
    lex: &LexicalIndex,
    query: &str,
    list: Vec<DocMatch>,
    i: int,
)
    requires
        call_ensures(LexicalIndex::matches, (lex, query), list),
        lex.documents().len() <= usize::MAX,
        0 <= i < list@.len(),
    ensures
        list@[i].doc < lex.documents().len(),
        shares_term(lex.documents(), query@, list@[i].doc as int),
        list@[i].doc_len == lex.documents()[list@[i].doc as int].len(),
        list@[i].doc_count == lex.documents().len(),
        list@[i].terms@.len() == query_terms(query@).filter(
            |t: Seq<char>| lex.documents()[list@[i].doc as int].contains(t),
        ).len(),
{
    let docs = lex.documents();
    assert(describes(docs, query@, list@[i]));
    let d = list@[i].doc as int;
    lemma_matched(docs, query@, d);
    matches_list_the_terms_they_hold(docs, query_terms(query@), d);
}

} // verus!
