//! Jump to definition: records by symbol name, or by keyword with definitions first.

use crate::float::FloatBits;
use crate::lexical;
use crate::lexical::DocMatch;
use crate::lexical::LexicalIndex;
use crate::order;
use crate::store;
use crate::store::Hit;
use crate::store::Index;
use crate::store::Record;
use crate::text;
use vstd::prelude::*;

verus! {

/// Whether a word opens a definition in one of the languages. Words that open a binding
/// are left out: what follows them is mostly a call.
pub open spec fn opens_definition(word: Seq<char>) -> bool {
    let w = text::ascii_lower(word);
    ||| w == "fn"@
    ||| w == "def"@
    ||| w == "func"@
    ||| w == "function"@
    ||| w == "class"@
    ||| w == "struct"@
    ||| w == "enum"@
    ||| w == "trait"@
    ||| w == "interface"@
    ||| w == "type"@
    ||| w == "impl"@
    ||| w == "mod"@
    ||| w == "module"@
    ||| w == "package"@
}

/// Whether a word is the name, in any case.
pub open spec fn is_named(word: Seq<char>, name: Seq<char>) -> bool {
    text::lowercase(word) == text::lowercase(name)
}

/// Whether the first word that is the name has a word before it that opens a
/// definition.
pub open spec fn words_define(words: Seq<Seq<char>>, name: Seq<char>) -> bool {
    exists|i: int, j: int|
        0 <= j < i < words.len() && is_named(#[trigger] words[i], name) && opens_definition(
            #[trigger] words[j],
        ) && (forall|k: int| 0 <= k < i ==> !is_named(#[trigger] words[k], name))
}

/// Whether a character is ASCII and cannot stand in an identifier.
pub open spec fn is_separator(c: char) -> bool {
    text::ascii(c) && !lexical::is_ident()(c)
}

/// Whether a text holds an ASCII character that cannot stand in an identifier.
pub open spec fn holds_separator(s: Seq<char>) -> bool {
    exists|i: int| 0 <= i < s.len() && is_separator(#[trigger] s[i])
}

/// Whether a line defines the name.
pub open spec fn line_defines(line: Seq<char>, name: Seq<char>) -> bool {
    words_define(text::runs(line, lexical::is_ident()), name)
}

/// Whether some line of a text defines the name.
pub open spec fn defines(s: Seq<char>, name: Seq<char>) -> bool {
    exists|i: int|
        0 <= i < text::lines(s).len() && line_defines(#[trigger] text::lines(s)[i], name)
}

fn is_opening(word: &str) -> (r: bool)
    ensures
        r == opens_definition(word@),
{
    let lower = text::ascii_lowered(word);
    let w = lower.as_str();
    text::same_text(w, "fn") || text::same_text(w, "def") || text::same_text(w, "func")
        || text::same_text(w, "function") || text::same_text(w, "class") || text::same_text(
        w,
        "struct",
    ) || text::same_text(w, "enum") || text::same_text(w, "trait") || text::same_text(
        w,
        "interface",
    ) || text::same_text(w, "type") || text::same_text(w, "impl") || text::same_text(w, "mod")
        || text::same_text(w, "module") || text::same_text(w, "package")
}

fn is_definition_line(line: &str, name_lower: &str, Ghost(name): Ghost<Seq<char>>) -> (r: bool)
    requires
        name_lower@ == text::lowercase(name),
        holds_separator(name) ==> holds_separator(name_lower@),
    ensures
        r == line_defines(line@, name),
        name.len() == 0 ==> !r,
        holds_separator(name) ==> !r,
{
    let words = lexical::identifiers(line);
    let ghost all = text::runs(line@, lexical::is_ident());
    let mut opened = false;
    let mut i: usize = 0;
    assert(text::texts(words@).len() == words@.len());
    while i < words.len()
        invariant
            name_lower@ == text::lowercase(name),
            holds_separator(name) ==> holds_separator(name_lower@),
            all == text::runs(line@, lexical::is_ident()),
            all == text::texts(words@),
            all.len() == words.len(),
            i <= words.len(),
            forall|k: int| 0 <= k < i ==> !is_named(#[trigger] all[k], name),
            opened == exists|j: int| 0 <= j < i && opens_definition(#[trigger] all[j]),
        decreases words.len() - i,
    {
        assert(all[i as int] == words@[i as int]@);
        let lower = text::to_lowercase(words[i].as_str());
        proof {
            text::lemma_run_chars(line@, lexical::is_ident(), i as int);
        }
        if text::same_text(lower.as_str(), name_lower) {
            assert(name.len() > 0);
            proof {
                if holds_separator(name) {
                    let n = choose|n: int|
                        0 <= n < name_lower@.len() && is_separator(#[trigger] name_lower@[n]);
                    let c = name_lower@[n];
                    assert(lower@.contains(c));
                    assert(words@[i as int]@.contains(c));
                    let k = choose|k: int|
                        0 <= k < words@[i as int]@.len() && words@[i as int]@[k] == c;
                    assert(lexical::is_ident()(all[i as int][k]));
                }
            }
            proof {
                assert(is_named(all[i as int], name));
                if words_define(all, name) {
                    let (a, b) = choose|a: int, b: int|
                        0 <= b < a < all.len() && is_named(#[trigger] all[a], name)
                            && opens_definition(#[trigger] all[b]) && (forall|k: int|
                            0 <= k < a ==> !is_named(#[trigger] all[k], name));
                    assert(a == i);
                    assert(opens_definition(all[b]));
                }
                if opened {
                    let j = choose|j: int| 0 <= j < i && opens_definition(#[trigger] all[j]);
                    assert(is_named(all[i as int], name) && opens_definition(all[j]));
                }
            }
            return opened;
        }
        let opens = is_opening(words[i].as_str());
        proof {
            if opens {
                assert(opens_definition(all[i as int]));
            }
        }
        opened = opened || opens;
        i += 1;
    }
    false
}

/// Whether a text defines the name, and does not only mention it: some line has a word
/// that opens a definition before the name. Nothing defines an empty name, or one that
/// holds an ASCII character that cannot stand in an identifier.
pub fn is_definition_like(s: &str, name: &str) -> (r: bool)
    ensures
        r == defines(s@, name@),
        name@.len() == 0 ==> !r,
        holds_separator(name@) ==> !r,
{
    let name_lower = text::to_lowercase(name);
    proof {
        if holds_separator(name@) {
            let n = choose|n: int| 0 <= n < name@.len() && is_separator(#[trigger] name@[n]);
            assert(name@.contains(name@[n]));
            assert(name_lower@.contains(name@[n]));
            let k = choose|k: int| 0 <= k < name_lower@.len() && name_lower@[k] == name@[n];
            assert(is_separator(name_lower@[k]));
        }
    }
    let list = text::split_lines(s);
    let ghost all = text::lines(s@);
    let mut i: usize = 0;
    assert(text::texts(list@).len() == list@.len());
    while i < list.len()
        invariant
            name_lower@ == text::lowercase(name@),
            holds_separator(name@) ==> holds_separator(name_lower@),
            all == text::lines(s@),
            all == text::texts(list@),
            all.len() == list.len(),
            i <= list.len(),
            forall|k: int| 0 <= k < i ==> !line_defines(#[trigger] all[k], name@),
        decreases list.len() - i,
    {
        assert(all[i as int] == list@[i as int]@);
        if is_definition_line(list[i].as_str(), name_lower.as_str(), Ghost(name@)) {
            assert(line_defines(text::lines(s@)[i as int], name@));
            return true;
        }
        i += 1;
    }
    false
}

/// A line that ends with a carriage return defines what it defines without.
proof fn lemma_chomped_line_defines(line: Seq<char>, name: Seq<char>)
    ensures
        line_defines(text::chomp(line), name) == line_defines(line, name),
{
    if line.len() > 0 && line.last() == '\r' {
        let cut = line.drop_last();
        let none = Seq::<char>::empty();
        text::lemma_runs_part(cut, '\r', none, lexical::is_ident());
        assert(cut + seq!['\r'] + none =~= line);
        text::lemma_no_runs(none, lexical::is_ident());
        assert(text::runs(cut, lexical::is_ident()) + Seq::<Seq<char>>::empty() =~= text::runs(
            cut,
            lexical::is_ident(),
        ));
    }
}

/// A line feed at the end of a text makes no difference to what it defines.
proof fn lemma_ended_text_defines(a: Seq<char>, name: Seq<char>)
    ensures
        defines(a + seq!['\n'], name) == defines(a, name),
    decreases a.len(),
{
    let p = text::other_than('\n');
    let i = text::find_char(a, '\n') as int;
    let ended = a + seq!['\n'];
    let old_lines = text::lines(a);
    let new_lines = text::lines(ended);
    text::lemma_prefix_len(a, p);
    assert forall|j: int| 0 <= j < i implies p(#[trigger] ended[j]) by {
        assert(ended[j] == a[j]);
    }
    if i < a.len() {
        assert(ended[i] == a[i]);
        text::lemma_prefix_len_is(ended, p, i);
        lemma_ended_text_defines(a.skip(i + 1), name);
        assert(ended.skip(i + 1) =~= a.skip(i + 1) + seq!['\n']);
        assert(ended.take(i) =~= a.take(i));
        lemma_defines_first(a, name, i);
        lemma_defines_first(ended, name, i);
    } else {
        assert(ended[i] == '\n');
        text::lemma_prefix_len_is(ended, p, i);
        assert(ended.take(i) =~= a);
        assert(ended.skip(i + 1) =~= seq![]);
        lemma_defines_first(ended, name, i);
        lemma_chomped_line_defines(a, name);
        assert(!defines(Seq::<char>::empty(), name));
        if a.len() == 0 {
            text::lemma_no_runs(a, lexical::is_ident());
            assert(text::chomp(a) =~= a);
        } else {
            assert(old_lines =~= seq![a]);
            if line_defines(a, name) {
                assert(line_defines(old_lines[0], name));
            }
        }
    }
}

/// What a text defines, its first line or the rest does.
proof fn lemma_defines_first(s: Seq<char>, name: Seq<char>, i: int)
    requires
        i == text::find_char(s, '\n'),
        i < s.len(),
    ensures
        defines(s, name) == (line_defines(text::chomp(s.take(i)), name) || defines(
            s.skip(i + 1),
            name,
        )),
{
    let first = text::chomp(s.take(i));
    let rest = text::lines(s.skip(i + 1));
    let all = text::lines(s);
    assert(all =~= seq![first] + rest);
    if defines(s, name) {
        let k = choose|k: int| 0 <= k < all.len() && line_defines(#[trigger] all[k], name);
        if k > 0 {
            assert(line_defines(rest[k - 1], name));
        }
    }
    if line_defines(first, name) {
        assert(line_defines(all[0], name));
    }
    if defines(s.skip(i + 1), name) {
        let k = choose|k: int| 0 <= k < rest.len() && line_defines(#[trigger] rest[k], name);
        assert(line_defines(all[k + 1], name));
    }
}

/// A definition stands on one line: two texts with a line feed between define what one of
/// them defines.
pub proof fn a_line_feed_parts_definitions(a: Seq<char>, b: Seq<char>, name: Seq<char>)
    ensures
        defines(a + seq!['\n'] + b, name) == (defines(a, name) || defines(b, name)),
{
    let head = a + seq!['\n'];
    let all = text::lines(head + b);
    let front = text::lines(head);
    let back = text::lines(b);
    text::lemma_lines_concat(head, b);
    lemma_ended_text_defines(a, name);
    if defines(head + b, name) {
        let k = choose|k: int| 0 <= k < all.len() && line_defines(#[trigger] all[k], name);
        if k < front.len() {
            assert(line_defines(front[k], name));
        } else {
            assert(line_defines(back[k - front.len()], name));
        }
    }
    if defines(head, name) {
        let k = choose|k: int| 0 <= k < front.len() && line_defines(#[trigger] front[k], name);
        assert(line_defines(all[k], name));
    }
    if defines(b, name) {
        let k = choose|k: int| 0 <= k < back.len() && line_defines(#[trigger] back[k], name);
        assert(line_defines(all[front.len() + k], name));
    }
}

/// The case of the name makes no difference.
pub proof fn the_case_of_the_name_does_not_count(s: Seq<char>, name: Seq<char>, other: Seq<char>)
    requires
        text::lowercase(name) == text::lowercase(other),
    ensures
        defines(s, name) == defines(s, other),
{
    assert forall|line: Seq<char>| #[trigger] line_defines(line, name) == line_defines(
        line,
        other,
    ) by {
        let words = text::runs(line, lexical::is_ident());
        assert forall|w: Seq<char>| #[trigger] is_named(w, name) == is_named(w, other) by {}
        if words_define(words, name) {
            let (i, j) = choose|i: int, j: int|
                0 <= j < i < words.len() && is_named(#[trigger] words[i], name)
                    && opens_definition(#[trigger] words[j]) && (forall|k: int|
                    0 <= k < i ==> !is_named(#[trigger] words[k], name));
            assert(is_named(words[i], other) && opens_definition(words[j]));
        }
        if words_define(words, other) {
            let (i, j) = choose|i: int, j: int|
                0 <= j < i < words.len() && is_named(#[trigger] words[i], other)
                    && opens_definition(#[trigger] words[j]) && (forall|k: int|
                    0 <= k < i ==> !is_named(#[trigger] words[k], other));
            assert(is_named(words[i], name) && opens_definition(words[j]));
        }
    }
}

// ---------------------------------------------------------------------------
// Candidates by keyword
// ---------------------------------------------------------------------------

/// Number of results unless another is asked for.
pub const DEFAULT_LIMIT: usize = 10;

/// How many candidates are drawn for some number of results.
pub open spec fn pool_size(limit: nat) -> nat {
    if limit * 4 < 20 {
        20
    } else {
        limit * 4
    }
}

/// Whether `r` ranks all documents that a query matches.
pub open spec fn unfiltered_search<S: Fn(&DocMatch) -> FloatBits>(
    docs: Seq<Seq<Seq<char>>>,
    query: Seq<char>,
    n: nat,
    score: S,
    r: Seq<Hit>,
) -> bool {
    exists|list: Seq<DocMatch>, hits: Seq<Hit>|
        #![trigger lexical::all_matches(docs, query, list), store::is_ranking(hits, n, r)]
        lexical::all_matches(docs, query, list) && lexical::scored_matches(
            score,
            list,
            Seq::new(list.len(), |i: int| true),
            hits,
        ) && store::is_ranking(hits, n, r)
}

/// The predicate of hits whose record defines the name.
pub open spec fn hit_defines(records: Seq<Record>, name: Seq<char>) -> spec_fn(Hit) -> bool {
    |h: Hit| defines(records[h.idx as int].text@, name)
}

/// The predicate of hits whose record does not define the name.
pub open spec fn hit_mentions(records: Seq<Record>, name: Seq<char>) -> spec_fn(Hit) -> bool {
    |h: Hit| !defines(records[h.idx as int].text@, name)
}

/// The hits whose record defines the name, and then the others, each in order.
pub open spec fn definitions_first(
    records: Seq<Record>,
    name: Seq<char>,
    hits: Seq<Hit>,
) -> Seq<Hit> {
    hits.filter(hit_defines(records, name)) + hits.filter(hit_mentions(records, name))
}

/// Whether all hits are records.
pub open spec fn hits_in_range(hits: Seq<Hit>, len: nat) -> bool {
    forall|i: int| 0 <= i < hits.len() ==> (#[trigger] hits[i]).idx < len
}

fn always(doc: usize) -> (r: bool)
    ensures
        r,
{
    true
}

/// The hits of a search are documents.
proof fn lemma_hits_in_range<S: Fn(&DocMatch) -> FloatBits>(
    docs: Seq<Seq<Seq<char>>>,
    query: Seq<char>,
    n: nat,
    score: S,
    r: Seq<Hit>,
)
    requires
        docs.len() <= usize::MAX,
        unfiltered_search(docs, query, n, score, r),
    ensures
        hits_in_range(r, docs.len()),
{
    let (list, hits) = choose|list: Seq<DocMatch>, hits: Seq<Hit>|
        #![trigger lexical::all_matches(docs, query, list), store::is_ranking(hits, n, r)]
        lexical::all_matches(docs, query, list) && lexical::scored_matches(
            score,
            list,
            Seq::new(list.len(), |i: int| true),
            hits,
        ) && store::is_ranking(hits, n, r);
    let answers = Seq::new(list.len(), |i: int| true);
    let yes = |i: int| answers[i];
    let docs_of = list.map_values(|m: DocMatch| m.doc);
    assert(list.len() == docs_of.len());
    order::lemma_positions(docs.len(), lexical::matched(docs, query));
    order::lemma_positions(answers.len(), yes);
    let kept = order::positions(answers.len(), yes);
    assert forall|i: int| 0 <= i < hits.len() implies (#[trigger] hits[i]).idx < docs.len() by {
        let m = list[kept[i] as int];
        assert(lexical::describes(docs, query, m));
        assert(hits[i].idx == m.doc);
    }
    let q = choose|q: Seq<usize>| #[trigger] store::picks_best(hits, n, q, r);
    order::lemma_sorts_distinct(store::hit_keys(hits), q);
    assert forall|i: int| 0 <= i < r.len() implies (#[trigger] r[i]).idx < docs.len() by {
        assert(r[i] == hits[q[i] as int]);
    }
}

fn search_all<S: Fn(&DocMatch) -> FloatBits>(
    lex: &LexicalIndex,
    query: &str,
    n: usize,
    score: S,
) -> (r: Vec<Hit>)
    requires
        lex.documents().len() <= usize::MAX,
        forall|m: &DocMatch|
            lexical::describes(lex.documents(), query@, *m) ==> #[trigger] score.requires((m,)),
    ensures
        unfiltered_search(lex.documents(), query@, n as nat, score, r@),
        hits_in_range(r@, lex.documents().len()),
{
    let ghost docs = lex.documents();
    let ghost q = query@;
    let r = lex.search(query, n, always, score);
    proof {
        let (list, answers, hits) = choose|list: Seq<DocMatch>, answers: Seq<bool>, hits: Seq<Hit>|
            #![trigger lexical::all_matches(docs, q, list), lexical::asked(always, list, answers), store::is_ranking(hits, n as nat, r@)]
            lexical::all_matches(docs, q, list) && lexical::asked(always, list, answers)
                && answers.len() == list.len() && lexical::scored_matches(
                score,
                list,
                answers,
                hits,
            ) && store::is_ranking(hits, n as nat, r@);
        assert forall|i: int| 0 <= i < list.len() implies answers[i] by {
            assert(call_ensures(always, (list[i].doc,), answers[i]));
        }
        assert(answers =~= Seq::new(list.len(), |i: int| true));
        lemma_hits_in_range(docs, q, n as nat, score, r@);
    }
    r
}

/// Hits whose record defines the name first, then the others.
fn partition(index: &Index, name: &str, hits: &Vec<Hit>) -> (r: Vec<usize>)
    requires
        hits_in_range(hits@, index.records@.len()),
    ensures
        r@ == definitions_first(index.records@, name@, hits@).map_values(|h: Hit| h.idx),
        forall|i: int| 0 <= i < r@.len() ==> #[trigger] r@[i] < index.records@.len(),
{
    let ghost records = index.records@;
    let ghost yes = hit_defines(records, name@);
    let ghost no = hit_mentions(records, name@);
    let ghost idx = |h: Hit| h.idx;
    let mut first: Vec<usize> = Vec::new();
    let mut rest: Vec<usize> = Vec::new();
    let mut i: usize = 0;
    proof {
        reveal(Seq::filter);
        assert(hits@.take(0).filter(yes).map_values(idx) =~= first@);
        assert(hits@.take(0).filter(no).map_values(idx) =~= rest@);
    }
    while i < hits.len()
        invariant
            records == index.records@,
            yes == hit_defines(records, name@),
            no == hit_mentions(records, name@),
            idx == (|h: Hit| h.idx),
            hits_in_range(hits@, records.len()),
            i <= hits.len(),
            first@ == hits@.take(i as int).filter(yes).map_values(idx),
            rest@ == hits@.take(i as int).filter(no).map_values(idx),
            forall|j: int| 0 <= j < first@.len() ==> #[trigger] first@[j] < records.len(),
            forall|j: int| 0 <= j < rest@.len() ==> #[trigger] rest@[j] < records.len(),
        decreases hits.len() - i,
    {
        let h = hits[i];
        let ghost few = hits@.take(i as int);
        proof {
            reveal(Seq::filter);
            assert(hits@.take(i + 1).drop_last() =~= few);
            assert(hits@[i as int].idx < records.len());
            assert(few.filter(yes).push(h).map_values(idx) =~= few.filter(yes).map_values(idx).push(
                h.idx,
            ));
            assert(few.filter(no).push(h).map_values(idx) =~= few.filter(no).map_values(idx).push(
                h.idx,
            ));
        }
        if is_definition_like(index.records[h.idx].text.as_str(), name) {
            first.push(h.idx);
        } else {
            rest.push(h.idx);
        }
        i += 1;
    }
    assert(hits@.take(hits@.len() as int) =~= hits@);
    let ghost a = first@;
    let ghost b = rest@;
    first.append(&mut rest);
    assert(first@ =~= definitions_first(records, name@, hits@).map_values(idx));
    assert forall|j: int| 0 <= j < first@.len() implies #[trigger] first@[j] < records.len() by {
        if j < a.len() {
            assert(first@[j] == a[j]);
        } else {
            assert(first@[j] == b[j - a.len()]);
        }
    }
    first
}

/// Whether `picked` lists the positions of the candidates that keywords give for a
/// name, those that define it first.
pub open spec fn keyword_candidates<S: Fn(&DocMatch) -> FloatBits>(
    records: Seq<Record>,
    docs: Seq<Seq<Seq<char>>>,
    name: Seq<char>,
    limit: nat,
    score: S,
    picked: Seq<usize>,
) -> bool {
    exists|hits: Seq<Hit>| #[trigger]
        unfiltered_search(docs, name, pool_size(limit), score, hits) && picked
            == definitions_first(records, name, hits).map_values(|h: Hit| h.idx)
}

/// A pool that covers every document is as good as a larger one.
proof fn lemma_pool_covers<S: Fn(&DocMatch) -> FloatBits>(
    docs: Seq<Seq<Seq<char>>>,
    query: Seq<char>,
    n: nat,
    m: nat,
    score: S,
    r: Seq<Hit>,
)
    requires
        docs.len() <= usize::MAX,
        unfiltered_search(docs, query, n, score, r),
        n == m || (docs.len() <= n && docs.len() <= m),
    ensures
        unfiltered_search(docs, query, m, score, r),
{
    let (list, hits) = choose|list: Seq<DocMatch>, hits: Seq<Hit>|
        #![trigger lexical::all_matches(docs, query, list), store::is_ranking(hits, n, r)]
        lexical::all_matches(docs, query, list) && lexical::scored_matches(
            score,
            list,
            Seq::new(list.len(), |i: int| true),
            hits,
        ) && store::is_ranking(hits, n, r);
    let all = Seq::new(list.len(), |i: int| true);
    lexical::lemma_hits_of_matches(docs, query, score, list, all, hits);
    let p = choose|p: Seq<usize>| #[trigger] store::picks_best(hits, n, p, r);
    assert(store::picks_best(hits, m, p, r));
    assert(store::is_ranking(hits, m, r));
}

/// Records that hold the words of a name, best first among those that define it and
/// among the others.
pub fn candidates<'a, S: Fn(&DocMatch) -> FloatBits>(
    index: &'a Index,
    lex: &LexicalIndex,
    name: &str,
    limit: usize,
    score: S,
) -> (r: Vec<&'a Record>)
    requires
        lex.documents().len() <= index.records@.len(),
        forall|m: &DocMatch|
            lexical::describes(lex.documents(), name@, *m) ==> #[trigger] score.requires((m,)),
    ensures
        exists|picked: Seq<usize>| #[trigger]
            keyword_candidates(
                index.records@,
                lex.documents(),
                name@,
                limit as nat,
                score,
                picked,
            ) && store::refers_to(r@, index.records@, picked),
{
    let pool: usize = if limit < 5 {
        20
    } else if limit > usize::MAX / 4 {
        usize::MAX
    } else {
        limit * 4
    };
    assert(index.records.len() <= usize::MAX);
    let hits = search_all(lex, name, pool, score);
    let picked = partition(index, name, &hits);
    proof {
        lemma_pool_covers(lex.documents(), name@, pool as nat, pool_size(limit as nat), score, hits@);
    }
    assert(unfiltered_search(lex.documents(), name@, pool_size(limit as nat), score, hits@));
    assert(keyword_candidates(
        index.records@,
        lex.documents(),
        name@,
        limit as nat,
        score,
        picked@,
    ));
    store::records_at(&index.records, &picked)
}

/// Why a name was not found.
#[derive(Debug, Clone, Copy, PartialEq, Eq, Structural)]
pub enum FindError {
    /// There are no words to search by.
    NoTerms,
    NoMatch,
}

/// Whether `r` holds the first results, or says that there are none.
pub open spec fn first_found(
    records: Seq<Record>,
    picked: Seq<usize>,
    limit: nat,
    r: Result<Vec<&Record>, FindError>,
) -> bool {
    if picked.len() == 0 {
        r == Err::<Vec<&Record>, FindError>(FindError::NoMatch)
    } else {
        r is Ok && store::refers_to(
            r->Ok_0@,
            records,
            if limit < picked.len() {
                picked.take(limit as int)
            } else {
                picked
            },
        )
    }
}

/// Whether `r` is what a name is found by: its symbols where there are any, and else
/// keywords.
pub open spec fn found<S: Fn(&DocMatch) -> FloatBits, P: FnOnce(&LexicalIndex) -> S>(
    records: Seq<Record>,
    name: Seq<char>,
    limit: nat,
    prepare: P,
    r: Result<Vec<&Record>, FindError>,
) -> bool {
    let docs = lexical::documents(records, true);
    if has_symbol(records, name) {
        exists|picked: Seq<usize>| #[trigger]
            store::is_symbol_search(records, name, picked) && first_found(records, picked, limit, r)
    } else if lexical::no_terms(docs) {
        r == Err::<Vec<&Record>, FindError>(FindError::NoTerms)
    } else {
        exists|lex: &LexicalIndex, score: S, picked: Seq<usize>|
            #![trigger prepare.ensures((lex,), score), keyword_candidates(records, docs, name, limit, score, picked)]
            lex.documents() == docs && prepare.ensures((lex,), score) && keyword_candidates(
                records,
                docs,
                name,
                limit,
                score,
                picked,
            ) && first_found(records, picked, limit, r)
    }
}

/// Whether the name is, or is part of, the symbol of some record.
pub open spec fn has_symbol(records: Seq<Record>, name: Seq<char>) -> bool {
    exists|i: int|
        0 <= i < records.len() && store::symbol_rank(#[trigger] records[i], name) is Some
}

/// Whether a name is looked up by keywords in these documents: it is no symbol, and the
/// documents of the records hold words.
pub open spec fn searches_words(
    records: Seq<Record>,
    name: Seq<char>,
    docs: Seq<Seq<Seq<char>>>,
) -> bool {
    !has_symbol(records, name) && docs == lexical::documents(records, true) && !lexical::no_terms(
        docs,
    )
}

/// Where a name is the symbol of some record, symbol search finds it.
proof fn lemma_symbol_found(records: Seq<Record>, name: Seq<char>, picked: Seq<usize>)
    requires
        records.len() <= usize::MAX,
        store::is_symbol_search(records, name, picked),
    ensures
        picked.len() > 0 <==> has_symbol(records, name),
{
    let yes = |i: int| store::symbol_rank(records[i], name) is Some;
    let at = order::positions(records.len(), yes);
    order::lemma_positions(records.len(), yes);
    if at.len() > 0 {
        assert(yes(at[0] as int));
        assert(store::symbol_rank(records[at[0] as int], name) is Some);
    }
    if has_symbol(records, name) {
        let i = choose|i: int|
            0 <= i < records.len() && store::symbol_rank(#[trigger] records[i], name) is Some;
        assert(yes(i));
        assert(at.contains(i as usize));
    }
}

fn first_results<'a>(list: Vec<&'a Record>, limit: usize, Ghost(records): Ghost<Seq<Record>>, Ghost(
    picked,
): Ghost<Seq<usize>>) -> (r: Result<Vec<&'a Record>, FindError>)
    requires
        store::refers_to(list@, records, picked),
    ensures
        first_found(records, picked, limit as nat, r),
{
    if list.len() == 0 {
        return Err(FindError::NoMatch);
    }
    if limit >= list.len() {
        return Ok(list);
    }
    let ghost few = picked.take(limit as int);
    assert forall|j: int| 0 <= j < limit implies #[trigger] few[j] < records.len() by {
        assert(*list@[j] == records[picked[j] as int]);
    }
    let mut out: Vec<&'a Record> = Vec::new();
    let mut i: usize = 0;
    while i < limit
        invariant
            i <= limit < list.len(),
            store::refers_to(list@, records, picked),
            few == picked.take(limit as int),
            out.len() == i,
            forall|j: int|
                0 <= j < i ==> *#[trigger] out@[j] == records[few[j] as int],
            forall|j: int| 0 <= j < limit ==> #[trigger] few[j] < records.len(),
        decreases limit - i,
    {
        let r = list[i];
        assert(*list@[i as int] == records[picked[i as int] as int]);
        assert(few[i as int] == picked[i as int]);
        out.push(r);
        i += 1;
    }
    assert(store::refers_to(out@, records, few));
    Ok(out)
}

/// Jumps to where a name is defined. Records whose symbol is or contains the name come
/// from symbol search; where there are none, as when a chunk cuts through a definition,
/// keywords give candidates. `prepare` says how matches in a channel are scored.
pub fn find<'a, S: Fn(&DocMatch) -> FloatBits, P: FnOnce(&LexicalIndex) -> S>(
    index: &'a Index,
    name: &str,
    limit: usize,
    prepare: P,
) -> (r: Result<Vec<&'a Record>, FindError>)
    requires
        forall|lex: &LexicalIndex|
            searches_words(index.records@, name@, lex.documents()) ==> #[trigger] prepare.requires(
                (lex,),
            ),
        forall|lex: &LexicalIndex, score: S, m: &DocMatch|
            #![trigger prepare.ensures((lex,), score), score.requires((m,))]
            searches_words(index.records@, name@, lex.documents()) && prepare.ensures((lex,), score)
                && lexical::describes(lex.documents(), name@, *m) ==> score.requires((m,)),
    ensures
        found(index.records@, name@, limit as nat, prepare, r),
{
    let ghost records = index.records@;
    let ghost docs = lexical::documents(records, true);
    let symbols = index.find_symbol(name);
    let ghost picked = choose|picked: Seq<usize>| #[trigger]
        store::is_symbol_search(records, name@, picked) && store::refers_to(
            symbols@,
            records,
            picked,
        );
    proof {
        assert(index.records.len() <= usize::MAX);
        lemma_symbol_found(records, name@, picked);
    }
    if symbols.len() > 0 {
        let r = first_results(symbols, limit, Ghost(records), Ghost(picked));
        assert(store::is_symbol_search(records, name@, picked) && first_found(
            records,
            picked,
            limit as nat,
            r,
        ));
        return r;
    }
    let lex = match LexicalIndex::build(&index.records, true) {
        Ok(lex) => lex,
        Err(_) => {
            return Err(FindError::NoTerms);
        },
    };
    let score = prepare(&lex);
    assert(docs.len() == records.len());
    let list = candidates(index, &lex, name, limit, score);
    let ghost chosen = choose|chosen: Seq<usize>| #[trigger]
        keyword_candidates(records, docs, name@, limit as nat, score, chosen) && store::refers_to(
            list@,
            records,
            chosen,
        );
    let r = first_results(list, limit, Ghost(records), Ghost(chosen));
    assert(prepare.ensures((&lex,), score) && keyword_candidates(
        records,
        docs,
        name@,
        limit as nat,
        score,
        chosen,
    ) && first_found(records, chosen, limit as nat, r));
    r
}

// ---------------------------------------------------------------------------
// Laws
// ---------------------------------------------------------------------------

/// Putting definitions first loses no candidate and adds none.
pub proof fn definitions_first_keeps_candidates(
    records: Seq<Record>,
    name: Seq<char>,
    hits: Seq<Hit>,
    h: Hit,
)
    ensures
        definitions_first(records, name, hits).contains(h) <==> hits.contains(h),
        definitions_first(records, name, hits).len() == hits.len(),
    decreases hits.len(),
{
    reveal(Seq::filter);
    let yes = hit_defines(records, name);
    let no = hit_mentions(records, name);
    let out = definitions_first(records, name, hits);
    let a = hits.filter(yes);
    let b = hits.filter(no);
    if out.contains(h) {
        let i = choose|i: int| 0 <= i < out.len() && out[i] == h;
        if i < a.len() {
            assert(a[i] == h);
            hits.lemma_filter_contains_rev(yes, h);
        } else {
            assert(b[i - a.len()] == h);
            hits.lemma_filter_contains_rev(no, h);
        }
    }
    if hits.contains(h) {
        let i = choose|i: int| 0 <= i < hits.len() && hits[i] == h;
        if yes(h) {
            hits.lemma_filter_contains(yes, i);
            let j = choose|j: int| 0 <= j < a.len() && a[j] == h;
            assert(out[j] == h);
        } else {
            hits.lemma_filter_contains(no, i);
            let j = choose|j: int| 0 <= j < b.len() && b[j] == h;
            assert(out[a.len() + j] == h);
        }
    }
    if hits.len() > 0 {
        definitions_first_keeps_candidates(records, name, hits.drop_last(), h);
    }
}

/// No candidate that only mentions the name stands before one that defines it.
pub proof fn definitions_come_first(
    records: Seq<Record>,
    name: Seq<char>,
    hits: Seq<Hit>,
    i: int,
    j: int,
)
    requires
        0 <= i < j < definitions_first(records, name, hits).len(),
        defines(records[definitions_first(records, name, hits)[j].idx as int].text@, name),
    ensures
        defines(records[definitions_first(records, name, hits)[i].idx as int].text@, name),
{
    let yes = hit_defines(records, name);
    let no = hit_mentions(records, name);
    let out = definitions_first(records, name, hits);
    let a = hits.filter(yes);
    let b = hits.filter(no);
    if j >= a.len() {
        hits.lemma_filter_pred(no, j - a.len());
        assert(no(out[j]));
    } else {
        hits.lemma_filter_pred(yes, i);
        assert(yes(out[i]));
    }
}

/// What opens a definition: one of these words, in whatever case.
pub proof fn definitions_open_with_a_keyword(word: Seq<char>)
    ensures
        opens_definition(word) <==> exists|k: int|
            0 <= k < 14 && text::ascii_lower(word) == #[trigger] openers()[k],
{
    let w = text::ascii_lower(word);
    let all = openers();
    assert(all[0] == "fn"@);
    assert(all[1] == "def"@);
    assert(all[2] == "func"@);
    assert(all[3] == "function"@);
    assert(all[4] == "class"@);
    assert(all[5] == "struct"@);
    assert(all[6] == "enum"@);
    assert(all[7] == "trait"@);
    assert(all[8] == "interface"@);
    assert(all[9] == "type"@);
    assert(all[10] == "impl"@);
    assert(all[11] == "mod"@);
    assert(all[12] == "module"@);
    assert(all[13] == "package"@);
}

/// The words that open a definition.
pub open spec fn openers() -> Seq<Seq<char>> {
    seq![
        "fn"@,
        "def"@,
        "func"@,
        "function"@,
        "class"@,
        "struct"@,
        "enum"@,
        "trait"@,
        "interface"@,
        "type"@,
        "impl"@,
        "mod"@,
        "module"@,
        "package"@,
    ]
}

/// A line defines a name if a word before the first that is the name opens a definition,
/// whatever stands before, between and behind the two. A line whose first such word has
/// no opening word before it does not, whatever follows.
pub proof fn an_opening_word_comes_first(
    before: Seq<Seq<char>>,
    word: Seq<char>,
    behind: Seq<Seq<char>>,
    name: Seq<char>,
)
    requires
        text::lowercase(word) == text::lowercase(name),
        forall|k: int|
            0 <= k < before.len() ==> text::lowercase(#[trigger] before[k]) != text::lowercase(name),
    ensures
        words_define(before + seq![word] + behind, name) <==> exists|k: int|
            0 <= k < before.len() && opens_definition(#[trigger] before[k]),
        !words_define(before, name),
{
    let all = before + seq![word] + behind;
    let n = before.len() as int;
    assert(all[n] == word);
    assert forall|k: int| 0 <= k < n implies !is_named(#[trigger] all[k], name) by {
        assert(all[k] == before[k]);
    }
    if words_define(all, name) {
        let (i, j) = choose|i: int, j: int|
            0 <= j < i < all.len() && is_named(#[trigger] all[i], name) && opens_definition(
                #[trigger] all[j],
            ) && (forall|k: int| 0 <= k < i ==> !is_named(#[trigger] all[k], name));
        if i < n {
            assert(!is_named(all[i], name));
        }
        if i > n {
            assert(is_named(all[n], name));
        }
        assert(before[j] == all[j]);
    }
    if exists|k: int| 0 <= k < before.len() && opens_definition(#[trigger] before[k]) {
        let k = choose|k: int| 0 <= k < before.len() && opens_definition(#[trigger] before[k]);
        assert(all[k] == before[k]);
        assert(is_named(all[n], name) && opens_definition(all[k]));
    }
}

/// The pool that candidates are taken from is at least four for each that is asked for,
/// and at least twenty.
pub proof fn pools_are_wide(limit: nat)
    ensures
        pool_size(limit) >= 20,
        pool_size(limit) >= 4 * limit,
        pool_size(limit) == 20 || pool_size(limit) == 4 * limit,
{
}

/// Definitions stand in the order in which they were ranked, and so do mentions.
pub proof fn the_ranking_stays_within_each_group(
    records: Seq<Record>,
    name: Seq<char>,
    hits: Seq<Hit>,
)
    ensures
        definitions_first(records, name, hits).filter(
            |h: Hit| defines(records[h.idx as int].text@, name),
        ) == hits.filter(|h: Hit| defines(records[h.idx as int].text@, name)),
        definitions_first(records, name, hits).filter(
            |h: Hit| !defines(records[h.idx as int].text@, name),
        ) == hits.filter(|h: Hit| !defines(records[h.idx as int].text@, name)),
{
    let yes = |h: Hit| defines(records[h.idx as int].text@, name);
    let no = |h: Hit| !defines(records[h.idx as int].text@, name);
    assert(hit_defines(records, name) =~= yes);
    assert(hit_mentions(records, name) =~= no);
    let a = hits.filter(yes);
    let b = hits.filter(no);
    Seq::filter_distributes_over_add(a, b, yes);
    Seq::filter_distributes_over_add(a, b, no);
    assert forall|i: int| 0 <= i < a.len() implies yes(#[trigger] a[i]) by {
        hits.lemma_filter_pred(yes, i);
    }
    assert forall|i: int| 0 <= i < b.len() implies no(#[trigger] b[i]) by {
        hits.lemma_filter_pred(no, i);
    }
    lemma_all_kept(a, yes);
    lemma_none_kept(a, no);
    lemma_all_kept(b, no);
    lemma_none_kept(b, yes);
    assert(a + Seq::<Hit>::empty() =~= a);
    assert(Seq::<Hit>::empty() + b =~= b);
}

proof fn lemma_all_kept(list: Seq<Hit>, keep: spec_fn(Hit) -> bool)
    requires
        forall|i: int| 0 <= i < list.len() ==> keep(#[trigger] list[i]),
    ensures
        list.filter(keep) == list,
    decreases list.len(),
{
    reveal(Seq::filter);
    if list.len() > 0 {
        lemma_all_kept(list.drop_last(), keep);
        assert(keep(list[list.len() - 1]));
    }
    assert(list.filter(keep) =~= list);
}

proof fn lemma_none_kept(list: Seq<Hit>, keep: spec_fn(Hit) -> bool)
    requires
        forall|i: int| 0 <= i < list.len() ==> !keep(#[trigger] list[i]),
    ensures
        list.filter(keep) == Seq::<Hit>::empty(),
    decreases list.len(),
{
    reveal(Seq::filter);
    if list.len() > 0 {
        lemma_none_kept(list.drop_last(), keep);
        assert(!keep(list[list.len() - 1]));
    }
    assert(list.filter(keep) =~= Seq::<Hit>::empty());
}

/// Where some symbol holds the name, what is found are records with such symbols: as many
/// as there are or as were asked for.
pub proof fn symbols_are_found_before_words<
    S: Fn(&DocMatch) -> FloatBits,
    P: FnOnce(&LexicalIndex) -> S,
>(
    records: Seq<Record>,
    name: Seq<char>,
    limit: nat,
    prepare: P,
    r: Result<Vec<&Record>, FindError>,
    k: int,
)
    requires
        records.len() <= usize::MAX,
        found(records, name, limit, prepare, r),
        0 <= k < records.len(),
        store::named_somewhere(records[k], name),
    ensures
        r is Ok,
        r->Ok_0@.len() <= limit,
        forall|i: int|
            0 <= i < r->Ok_0@.len() ==> records.contains(*#[trigger] r->Ok_0@[i])
                && store::named_somewhere(*r->Ok_0@[i], name),
        r->Ok_0@.len() < limit ==> exists|i: int|
            0 <= i < r->Ok_0@.len() && *#[trigger] r->Ok_0@[i] == records[k],
{
    store::lemma_symbol_rank(records[k], name);
    assert(has_symbol(records, name));
    let picked = choose|picked: Seq<usize>| #[trigger]
        store::is_symbol_search(records, name, picked) && first_found(records, picked, limit, r);
    store::symbols_are_found_wherever_the_name_stands(records, name, picked);
    assert(store::named_somewhere(records[k], name));
    assert(picked.contains(k as usize));
    let list = r->Ok_0@;
    let shown = if limit < picked.len() {
        picked.take(limit as int)
    } else {
        picked
    };
    assert forall|i: int| 0 <= i < list.len() implies records.contains(*#[trigger] list[i])
        && store::named_somewhere(*list[i], name) by {
        assert(shown[i] == picked[i]);
        let at = picked[i] as int;
        assert(*list[i] == records[at]);
        assert(picked.contains(picked[i]));
        assert(store::named_somewhere(records[at], name));
    }
    if list.len() < limit {
        assert(shown == picked);
        let i = choose|i: int| 0 <= i < picked.len() && picked[i] == k as usize;
        assert(*list[i] == records[picked[i] as int]);
    }
}

/// The candidates by keyword are records that share a term with the name, each once,
/// those that define it first. None that does is left out while there are fewer than four
/// for each that is asked for, and than twenty.
pub proof fn candidates_share_a_term<S: Fn(&DocMatch) -> FloatBits>(
    records: Seq<Record>,
    docs: Seq<Seq<Seq<char>>>,
    name: Seq<char>,
    limit: nat,
    score: S,
    picked: Seq<usize>,
)
    requires
        docs.len() <= usize::MAX,
        keyword_candidates(records, docs, name, limit, score, picked),
    ensures
        picked.len() <= 20 || picked.len() <= 4 * limit,
        forall|i: int|
            0 <= i < picked.len() ==> #[trigger] picked[i] < docs.len() && lexical::shares_term(
                docs,
                name,
                picked[i] as int,
            ),
        forall|i: int, j: int|
            0 <= i < j < picked.len() ==> (defines(
                records[#[trigger] picked[j] as int].text@,
                name,
            ) ==> defines(records[#[trigger] picked[i] as int].text@, name)),
        picked.len() < 20 || picked.len() < 4 * limit ==> forall|d: int|
            0 <= d < docs.len() && #[trigger] lexical::shares_term(docs, name, d)
                ==> picked.contains(d as usize),
{
    let hits = choose|hits: Seq<Hit>| #[trigger]
        unfiltered_search(docs, name, pool_size(limit), score, hits) && picked == definitions_first(
            records,
            name,
            hits,
        ).map_values(|h: Hit| h.idx);
    let out = definitions_first(records, name, hits);
    lemma_pool(docs, name, pool_size(limit), score, hits);
    pools_are_wide(limit);
    if hits.len() > 0 {
        definitions_first_keeps_candidates(records, name, hits, hits[0]);
    } else {
        definitions_first_keeps_candidates(records, name, hits, Hit { idx: 0, score: FloatBits { bits: 0 } });
    }
    assert forall|i: int| 0 <= i < picked.len() implies #[trigger] picked[i] < docs.len()
        && lexical::shares_term(docs, name, picked[i] as int) by {
        assert(picked[i] == out[i].idx);
        assert(out.contains(out[i]));
        definitions_first_keeps_candidates(records, name, hits, out[i]);
        let k = choose|k: int| 0 <= k < hits.len() && hits[k] == out[i];
        assert(hits[k].idx < docs.len());
    }
    assert forall|i: int, j: int| 0 <= i < j < picked.len() implies (defines(
        records[#[trigger] picked[j] as int].text@,
        name,
    ) ==> defines(records[#[trigger] picked[i] as int].text@, name)) by {
        assert(picked[i] == out[i].idx && picked[j] == out[j].idx);
        if defines(records[out[j].idx as int].text@, name) {
            definitions_come_first(records, name, hits, i, j);
        }
    }
    if picked.len() < 20 || picked.len() < 4 * limit {
        assert forall|d: int|
            0 <= d < docs.len() && #[trigger] lexical::shares_term(
                docs,
                name,
                d,
            ) implies picked.contains(d as usize) by {
            let k = choose|k: int| 0 <= k < hits.len() && (#[trigger] hits[k]).idx == d;
            definitions_first_keeps_candidates(records, name, hits, hits[k]);
            assert(hits.contains(hits[k]));
            let i = choose|i: int| 0 <= i < out.len() && out[i] == hits[k];
            assert(picked[i] == d as usize);
        }
    }
}

proof fn lemma_pool<S: Fn(&DocMatch) -> FloatBits>(
    docs: Seq<Seq<Seq<char>>>,
    name: Seq<char>,
    n: nat,
    score: S,
    r: Seq<Hit>,
)
    requires
        docs.len() <= usize::MAX,
        unfiltered_search(docs, name, n, score, r),
    ensures
        r.len() <= n,
        forall|i: int|
            0 <= i < r.len() ==> (#[trigger] r[i]).idx < docs.len() && lexical::shares_term(
                docs,
                name,
                r[i].idx as int,
            ),
        r.len() < n ==> forall|d: int|
            0 <= d < docs.len() && #[trigger] lexical::shares_term(docs, name, d) ==> exists|i: int|
                0 <= i < r.len() && (#[trigger] r[i]).idx == d,
{
    let (list, hits) = choose|list: Seq<DocMatch>, hits: Seq<Hit>|
        #![trigger lexical::all_matches(docs, name, list), store::is_ranking(hits, n, r)]
        lexical::all_matches(docs, name, list) && lexical::scored_matches(
            score,
            list,
            Seq::new(list.len(), |i: int| true),
            hits,
        ) && store::is_ranking(hits, n, r);
    let answers = Seq::new(list.len(), |i: int| true);
    lexical::lemma_hits_of_matches(docs, name, score, list, answers, hits);
    store::ranking_keeps_the_best(hits, n, r);
    let q = choose|q: Seq<usize>| #[trigger] store::picks_best(hits, n, q, r);
    let hit = lexical::matched(docs, name);
    let ids = list.map_values(|m: DocMatch| m.doc);
    order::lemma_positions(docs.len(), hit);
    let keep = |i: int| answers[i];
    order::lemma_positions(answers.len(), keep);
    let kept = order::positions(answers.len(), keep);
    assert(kept == order::positions(answers.len(), |i: int| answers[i]));
    assert forall|i: int| 0 <= i < r.len() implies (#[trigger] r[i]).idx < docs.len()
        && lexical::shares_term(docs, name, r[i].idx as int) by {
        let h = q[i] as int;
        assert(r[i] == hits[h]);
        let m = kept[h] as int;
        assert(keep(m));
        assert(ids[m] == list[m].doc);
        assert(hit(ids[m] as int));
        lexical::lemma_matched(docs, name, list[m].doc as int);
    }
    if r.len() < n {
        assert forall|d: int|
            0 <= d < docs.len() && #[trigger] lexical::shares_term(docs, name, d) implies exists|
            i: int,
        | 0 <= i < r.len() && (#[trigger] r[i]).idx == d by {
            lexical::lemma_matched(docs, name, d);
            assert(hit(d));
            let m = choose|m: int| 0 <= m < ids.len() && ids[m] == d as usize;
            assert(list[m].doc == d);
            assert(answers[m]);
            assert(keep(m));
            let h = choose|h: int| 0 <= h < kept.len() && kept[h] == m as usize;
            assert(hits[h].idx == d);
            order::lemma_sorts_all(store::hit_keys(hits), q, h);
            let i = choose|i: int| 0 <= i < q.len() && #[trigger] q[i] == h;
            assert(r[i] == hits[h]);
        }
    }
}

/// Without a symbol that holds the name something is found exactly if some record shares
/// a term with it, and there is nothing to look in exactly if no record has any.
pub proof fn words_are_found_where_they_stand<
    S: Fn(&DocMatch) -> FloatBits,
    P: FnOnce(&LexicalIndex) -> S,
>(
    records: Seq<Record>,
    name: Seq<char>,
    limit: nat,
    prepare: P,
    r: Result<Vec<&Record>, FindError>,
)
    requires
        records.len() <= usize::MAX,
        found(records, name, limit, prepare, r),
        forall|k: int|
            0 <= k < records.len() ==> !store::named_somewhere(#[trigger] records[k], name),
    ensures
        r is Ok <==> exists|d: int|
            0 <= d < records.len() && #[trigger] lexical::shares_term(
                lexical::documents(records, true),
                name,
                d,
            ),
        r is Ok ==> r->Ok_0@.len() <= limit && forall|i: int|
            0 <= i < r->Ok_0@.len() ==> records.contains(*#[trigger] r->Ok_0@[i]),
        r == Err::<Vec<&Record>, FindError>(FindError::NoTerms) <==> lexical::no_terms(
            lexical::documents(records, true),
        ),
{
    let docs = lexical::documents(records, true);
    if has_symbol(records, name) {
        let k = choose|k: int|
            0 <= k < records.len() && store::symbol_rank(#[trigger] records[k], name) is Some;
        store::lemma_symbol_rank(records[k], name);
        assert(!store::named_somewhere(records[k], name));
    }
    if lexical::no_terms(docs) {
        assert forall|d: int| 0 <= d < records.len() implies !#[trigger] lexical::shares_term(
            docs,
            name,
            d,
        ) by {
            assert(docs[d].len() == 0);
        }
    } else {
        let (lex, score, picked) = choose|lex: &LexicalIndex, score: S, picked: Seq<usize>|
            #![trigger prepare.ensures((lex,), score), keyword_candidates(records, docs, name, limit, score, picked)]
            lex.documents() == docs && prepare.ensures((lex,), score) && keyword_candidates(
                records,
                docs,
                name,
                limit,
                score,
                picked,
            ) && first_found(records, picked, limit, r);
        candidates_share_a_term(records, docs, name, limit, score, picked);
        assert(docs.len() == records.len());
        if picked.len() > 0 {
            assert(lexical::shares_term(docs, name, picked[0] as int));
        }
        if exists|d: int| 0 <= d < records.len() && #[trigger] lexical::shares_term(docs, name, d) {
            let d = choose|d: int|
                0 <= d < records.len() && #[trigger] lexical::shares_term(docs, name, d);
            assert(picked.len() == 0 ==> picked.contains(d as usize));
        }
        if r is Ok {
            let list = r->Ok_0@;
            let shown = if limit < picked.len() {
                picked.take(limit as int)
            } else {
                picked
            };
            assert forall|i: int| 0 <= i < list.len() implies records.contains(
                *#[trigger] list[i],
            ) by {
                assert(*list[i] == records[shown[i] as int]);
            }
        }
    }
}

} // verus!
