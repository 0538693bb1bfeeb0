//! Text primitives: what lines, trimmed text, runs and substrings are, stated
//! over character sequences, with the functions that compute them.

use vstd::prelude::*;

verus! {

/// `String::push` appends one character.
pub assume_specification[ String::push ](s: &mut String, c: char)
    ensures
        final(s)@ == old(s)@.push(c),
;

/// `String::push_str` appends a whole string slice.
pub assume_specification[ String::push_str ](s: &mut String, t: &str)
    ensures
        final(s)@ == old(s)@ + t@,
;

/// The characters with the Unicode `White_Space` property.
pub open spec fn white_space(c: char) -> bool {
    ||| '\u{9}' <= c <= '\u{d}'
    ||| c == '\u{20}'
    ||| c == '\u{85}'
    ||| c == '\u{a0}'
    ||| c == '\u{1680}'
    ||| '\u{2000}' <= c <= '\u{200a}'
    ||| c == '\u{2028}'
    ||| c == '\u{2029}'
    ||| c == '\u{202f}'
    ||| c == '\u{205f}'
    ||| c == '\u{3000}'
}

/// `char::is_whitespace` decides the Unicode `White_Space` property.
pub assume_specification[ char::is_whitespace ](c: char) -> (b: bool)
    ensures
        b == white_space(c),
;

/// Whether a character is ASCII.
pub open spec fn ascii(c: char) -> bool {
    c <= '\u{7f}'
}

/// Whether a text holds ASCII characters alone.
pub open spec fn ascii_text(s: Seq<char>) -> bool {
    forall|i: int| 0 <= i < s.len() ==> ascii(#[trigger] s[i])
}

/// Whether a character is an ASCII letter.
pub open spec fn ascii_letter(c: char) -> bool {
    'a' <= c <= 'z' || 'A' <= c <= 'Z'
}

/// The Unicode properties `Alphabetic` and those of numbers, beyond ASCII.
pub uninterp spec fn unicode_alphanumeric(c: char) -> bool;

/// Whether a character is alphabetic or numeric by its Unicode properties: of ASCII the
/// letters and the digits.
pub open spec fn alphanumeric(c: char) -> bool {
    if ascii(c) {
        'a' <= c <= 'z' || 'A' <= c <= 'Z' || '0' <= c <= '9'
    } else {
        unicode_alphanumeric(c)
    }
}

/// `char::is_alphanumeric` is a fixed property of the character; of ASCII the letters
/// and the digits have it.
pub assume_specification[ char::is_alphanumeric ](c: char) -> (b: bool)
    ensures
        ascii(c) ==> b == ('a' <= c <= 'z' || 'A' <= c <= 'Z' || '0' <= c <= '9'),
        !ascii(c) ==> b == unicode_alphanumeric(c),
;

/// The Unicode property `Lowercase`, beyond ASCII.
pub uninterp spec fn unicode_lowercase_char(c: char) -> bool;

/// Whether a character has the Unicode `Lowercase` property: of ASCII `a` to `z`.
pub open spec fn lowercase_char(c: char) -> bool {
    if ascii(c) {
        'a' <= c <= 'z'
    } else {
        unicode_lowercase_char(c)
    }
}

/// `char::is_lowercase` is a fixed property of the character; of ASCII `a` to `z` have
/// it.
pub assume_specification[ char::is_lowercase ](c: char) -> (b: bool)
    ensures
        ascii(c) ==> b == ('a' <= c <= 'z'),
        !ascii(c) ==> b == unicode_lowercase_char(c),
;

/// The Unicode property `Uppercase`, beyond ASCII.
pub uninterp spec fn unicode_uppercase_char(c: char) -> bool;

/// Whether a character has the Unicode `Uppercase` property: of ASCII `A` to `Z`.
pub open spec fn uppercase_char(c: char) -> bool {
    if ascii(c) {
        'A' <= c <= 'Z'
    } else {
        unicode_uppercase_char(c)
    }
}

/// `char::is_uppercase` is a fixed property of the character; of ASCII `A` to `Z` have
/// it.
pub assume_specification[ char::is_uppercase ](c: char) -> (b: bool)
    ensures
        ascii(c) ==> b == ('A' <= c <= 'Z'),
        !ascii(c) ==> b == unicode_uppercase_char(c),
;

/// The Unicode case mapping of a text that is not ASCII alone.
pub uninterp spec fn unicode_lowercase(s: Seq<char>) -> Seq<char>;

/// The lowercase equivalent of a text, by the Unicode case mapping: of an ASCII text the
/// one with `a` to `z` in place of `A` to `Z`.
pub open spec fn lowercase(s: Seq<char>) -> Seq<char> {
    if ascii_text(s) {
        ascii_lower(s)
    } else {
        unicode_lowercase(s)
    }
}

/// `str::to_lowercase`: the result depends on the text alone. In an ASCII text it changes
/// `A` to `Z` and nothing else, and of no text with a character in it it makes an empty
/// one. In every text an ASCII character that is no letter has no lowercase mapping and
/// stays, and no other character has one to it.
#[verifier::external_body]
pub(crate) fn to_lowercase(s: &str) -> (r: String)
    ensures
        ascii_text(s@) ==> r@ == ascii_lower(s@),
        !ascii_text(s@) ==> r@ == unicode_lowercase(s@),
        s@.len() > 0 ==> r@.len() > 0,
        forall|c: char|
            ascii(c) && !ascii_letter(c) ==> #[trigger] r@.contains(c) == s@.contains(c),
{
    s.to_lowercase()
}

/// The contents of a list of strings.
pub open spec fn texts(v: Seq<String>) -> Seq<Seq<char>> {
    v.map_values(|s: String| s@)
}

/// The content of an optional string.
pub open spec fn opt_text(o: Option<String>) -> Option<Seq<char>> {
    match o {
        Some(s) => Some(s@),
        None => None,
    }
}

/// Length of the longest prefix whose characters all satisfy `p`.
pub open spec fn prefix_len(s: Seq<char>, p: spec_fn(char) -> bool) -> nat
    decreases s.len(),
{
    if s.len() == 0 || !p(s[0]) {
        0
    } else {
        1 + prefix_len(s.drop_first(), p)
    }
}

/// Length of the longest suffix whose characters all satisfy `p`.
pub open spec fn suffix_len(s: Seq<char>, p: spec_fn(char) -> bool) -> nat
    decreases s.len(),
{
    if s.len() == 0 || !p(s.last()) {
        0
    } else {
        1 + suffix_len(s.drop_last(), p)
    }
}

/// The test for white space, as a predicate.
pub open spec fn is_white() -> spec_fn(char) -> bool {
    |c: char| white_space(c)
}

/// The test for any character but `c`, as a predicate.
pub open spec fn other_than(c: char) -> spec_fn(char) -> bool {
    |x: char| x != c
}

/// The test for the character `c`, as a predicate.
pub open spec fn same_as(c: char) -> spec_fn(char) -> bool {
    |x: char| x == c
}

/// The text without the longest prefix of characters satisfying `p`.
pub open spec fn drop_prefix(s: Seq<char>, p: spec_fn(char) -> bool) -> Seq<char> {
    s.skip(prefix_len(s, p) as int)
}

/// The text without the longest suffix of characters satisfying `p`.
pub open spec fn drop_suffix(s: Seq<char>, p: spec_fn(char) -> bool) -> Seq<char> {
    s.take(s.len() - suffix_len(s, p))
}

/// The text without leading and trailing white space.
pub open spec fn trim(s: Seq<char>) -> Seq<char> {
    drop_suffix(drop_prefix(s, is_white()), is_white())
}

/// Position of the first `c`, or the length when there is none.
pub open spec fn find_char(s: Seq<char>, c: char) -> nat {
    prefix_len(s, other_than(c))
}

/// A terminated line without the carriage return that belongs to its ending.
pub open spec fn chomp(line: Seq<char>) -> Seq<char> {
    if line.len() > 0 && line.last() == '\r' {
        line.drop_last()
    } else {
        line
    }
}

/// The lines of a text. A line ends at `\n` or `\r\n`, which are not part of
/// it; the ending of the last line is optional.
pub open spec fn lines(s: Seq<char>) -> Seq<Seq<char>>
    decreases s.len(),
{
    let i = find_char(s, '\n') as int;
    if s.len() == 0 {
        seq![]
    } else if i >= s.len() {
        seq![s]
    } else {
        seq![chomp(s.take(i))] + lines(s.skip(i + 1))
    }
}

/// The pieces of a text between the occurrences of `c`, at most `limit` of
/// them: the last piece holds whatever remains.
pub open spec fn split_limit(s: Seq<char>, c: char, limit: nat) -> Seq<Seq<char>>
    decreases s.len(),
{
    let i = find_char(s, c) as int;
    if limit <= 1 || i >= s.len() {
        seq![s]
    } else {
        seq![s.take(i)] + split_limit(s.skip(i + 1), c, (limit - 1) as nat)
    }
}

/// The pieces of a text between the occurrences of `c`.
pub open spec fn split_on(s: Seq<char>, c: char) -> Seq<Seq<char>>
    decreases s.len(),
{
    let i = find_char(s, c) as int;
    if i >= s.len() {
        seq![s]
    } else {
        seq![s.take(i)] + split_on(s.skip(i + 1), c)
    }
}

/// The maximal runs of characters satisfying `p`, in order.
pub open spec fn runs(s: Seq<char>, p: spec_fn(char) -> bool) -> Seq<Seq<char>>
    decreases s.len(),
{
    if s.len() == 0 {
        seq![]
    } else if !p(s[0]) {
        runs(s.drop_first(), p)
    } else {
        let n = prefix_len(s, p) as int;
        if 0 < n <= s.len() {
            seq![s.take(n)] + runs(s.skip(n), p)
        } else {
            seq![]
        }
    }
}

/// The lines of a text whose first part ends with a line feed are those of the part and
/// then those of the rest.
pub proof fn lemma_lines_concat(a: Seq<char>, b: Seq<char>)
    requires
        a.len() > 0 ==> a.last() == '\n',
    ensures
        lines(a + b) == lines(a) + lines(b),
    decreases a.len(),
{
    if a.len() == 0 {
        assert(a + b =~= b);
        assert(lines(a) + lines(b) =~= lines(b));
    } else {
        let p = other_than('\n');
        let i = find_char(a, '\n') as int;
        lemma_prefix_len(a, p);
        if i == a.len() {
            assert(p(a[a.len() - 1]));
        }
        assert forall|j: int| 0 <= j < i implies p(#[trigger] (a + b)[j]) by {
            assert((a + b)[j] == a[j]);
        }
        assert((a + b)[i] == a[i]);
        lemma_prefix_len_is(a + b, p, i);
        assert((a + b).take(i) =~= a.take(i));
        assert((a + b).skip(i + 1) =~= a.skip(i + 1) + b);
        lemma_lines_concat(a.skip(i + 1), b);
        assert(lines(a + b) =~= lines(a) + lines(b));
    }
}

/// A run is not empty, and holds characters of the text that satisfy `p`.
pub proof fn lemma_run_chars(s: Seq<char>, p: spec_fn(char) -> bool, i: int)
    requires
        0 <= i < runs(s, p).len(),
    ensures
        runs(s, p)[i].len() > 0,
        forall|j: int|
            0 <= j < runs(s, p)[i].len() ==> p(#[trigger] runs(s, p)[i][j]) && s.contains(
                runs(s, p)[i][j],
            ),
    decreases s.len(),
{
    let r = runs(s, p)[i];
    if !p(s[0]) {
        lemma_run_chars(s.drop_first(), p, i);
        assert forall|j: int| 0 <= j < r.len() implies p(#[trigger] r[j]) && s.contains(r[j]) by {
            assert(s.drop_first().contains(r[j]));
            let k = choose|k: int| 0 <= k < s.drop_first().len() && s.drop_first()[k] == r[j];
            assert(s[k + 1] == r[j]);
        }
    } else {
        let n = prefix_len(s, p) as int;
        lemma_prefix_len(s, p);
        if i == 0 {
            assert(r =~= s.take(n));
            assert forall|j: int| 0 <= j < r.len() implies p(#[trigger] r[j]) && s.contains(
                r[j],
            ) by {
                assert(s[j] == r[j]);
            }
        } else {
            lemma_run_chars(s.skip(n), p, i - 1);
            assert(r == runs(s.skip(n), p)[i - 1]);
            assert forall|j: int| 0 <= j < r.len() implies p(#[trigger] r[j]) && s.contains(
                r[j],
            ) by {
                assert(s.skip(n).contains(r[j]));
                let k = choose|k: int| 0 <= k < s.skip(n).len() && s.skip(n)[k] == r[j];
                assert(s[k + n] == r[j]);
            }
        }
    }
}

/// A character that is not in any run parts the runs before it from those behind it.
pub proof fn lemma_runs_part(a: Seq<char>, c: char, b: Seq<char>, p: spec_fn(char) -> bool)
    requires
        !p(c),
    ensures
        runs(a + seq![c] + b, p) == runs(a, p) + runs(b, p),
    decreases a.len(),
{
    let all = a + seq![c] + b;
    if a.len() == 0 {
        assert(all[0] == c);
        assert(all.drop_first() =~= b);
        assert(runs(a, p) + runs(b, p) =~= runs(b, p));
    } else if !p(a[0]) {
        lemma_runs_part(a.drop_first(), c, b, p);
        assert(all.drop_first() =~= a.drop_first() + seq![c] + b);
    } else {
        let n = prefix_len(a, p) as int;
        lemma_prefix_len(a, p);
        assert(n > 0);
        if n < a.len() {
            assert(all[n] == a[n]);
        } else {
            assert(all[n] == c);
        }
        assert forall|j: int| 0 <= j < n implies p(#[trigger] all[j]) by {
            assert(all[j] == a[j]);
        }
        lemma_prefix_len_is(all, p, n);
        lemma_runs_part(a.skip(n), c, b, p);
        assert(all.skip(n) =~= a.skip(n) + seq![c] + b);
        assert(all.take(n) =~= a.take(n));
        assert(runs(all, p) =~= runs(a, p) + runs(b, p));
    }
}

/// Where no character satisfies `p` there is no run.
pub proof fn lemma_no_runs(s: Seq<char>, p: spec_fn(char) -> bool)
    requires
        forall|i: int| 0 <= i < s.len() ==> !p(#[trigger] s[i]),
    ensures
        runs(s, p) == Seq::<Seq<char>>::empty(),
    decreases s.len(),
{
    if s.len() > 0 {
        assert forall|i: int| 0 <= i < s.drop_first().len() implies !p(
            #[trigger] s.drop_first()[i],
        ) by {
            assert(s.drop_first()[i] == s[i + 1]);
        }
        lemma_no_runs(s.drop_first(), p);
    }
}

/// The pieces of `list` in order, with `sep` between neighbours.
pub open spec fn join(list: Seq<Seq<char>>, sep: Seq<char>) -> Seq<char>
    decreases list.len(),
{
    if list.len() == 0 {
        seq![]
    } else if list.len() == 1 {
        list[0]
    } else {
        join(list.drop_last(), sep) + sep + list.last()
    }
}

/// Whether `part` stands in `s` at position `i`.
pub open spec fn stands_at(s: Seq<char>, part: Seq<char>, i: int) -> bool {
    0 <= i && i + part.len() <= s.len() && s.subrange(i, i + part.len()) == part
}

/// Whether `part` occurs in `s`.
pub open spec fn contains(s: Seq<char>, part: Seq<char>) -> bool {
    exists|i: int| #[trigger] stands_at(s, part, i)
}

/// Whether `s` begins with `prefix`.
pub open spec fn starts_with(s: Seq<char>, prefix: Seq<char>) -> bool {
    stands_at(s, prefix, 0)
}

/// Whether `s` ends with `suffix`.
pub open spec fn ends_with(s: Seq<char>, suffix: Seq<char>) -> bool {
    stands_at(s, suffix, s.len() - suffix.len())
}

/// An ASCII capital turned small, any other character as it is.
pub open spec fn ascii_lower_char(c: char) -> char {
    if 'A' <= c <= 'Z' {
        (c as u8 + 32) as char
    } else {
        c
    }
}

/// The text with ASCII capitals turned small.
pub open spec fn ascii_lower(s: Seq<char>) -> Seq<char> {
    s.map_values(|c: char| ascii_lower_char(c))
}

/// The decimal digit of value `d`.
pub open spec fn digit_char(d: nat) -> char {
    (d + 48) as char
}

/// The decimal notation of `n`.
pub open spec fn decimal(n: nat) -> Seq<char>
    decreases n,
{
    if n < 10 {
        seq![digit_char(n)]
    } else {
        decimal(n / 10).push(digit_char(n % 10))
    }
}

/// The lowercase hexadecimal digit of value `d`.
pub open spec fn hex_char(d: nat) -> char {
    if d < 10 {
        (d + 48) as char
    } else {
        (d + 87) as char
    }
}

/// `n` in hexadecimal notation, with exactly `width` digits.
pub open spec fn hex(n: nat, width: nat) -> Seq<char>
    decreases width,
{
    if width == 0 {
        seq![]
    } else {
        hex(n / 16, (width - 1) as nat).push(hex_char(n % 16))
    }
}

pub proof fn lemma_prefix_len(s: Seq<char>, p: spec_fn(char) -> bool)
    ensures
        prefix_len(s, p) <= s.len(),
        forall|j: int| 0 <= j < prefix_len(s, p) ==> p(#[trigger] s[j]),
        prefix_len(s, p) < s.len() ==> !p(s[prefix_len(s, p) as int]),
    decreases s.len(),
{
    if s.len() > 0 && p(s[0]) {
        lemma_prefix_len(s.drop_first(), p);
        assert forall|j: int| 0 <= j < prefix_len(s, p) implies p(#[trigger] s[j]) by {
            if j > 0 {
                assert(s.drop_first()[j - 1] == s[j]);
            }
        }
    }
}

pub proof fn lemma_prefix_len_is(s: Seq<char>, p: spec_fn(char) -> bool, n: int)
    requires
        0 <= n <= s.len(),
        forall|j: int| 0 <= j < n ==> p(#[trigger] s[j]),
        n < s.len() ==> !p(s[n]),
    ensures
        prefix_len(s, p) == n,
    decreases s.len(),
{
    if n > 0 {
        assert(p(s[0]));
        assert forall|j: int| 0 <= j < n - 1 implies p(#[trigger] s.drop_first()[j]) by {
            assert(s.drop_first()[j] == s[j + 1]);
        }
        lemma_prefix_len_is(s.drop_first(), p, n - 1);
    }
}

pub proof fn lemma_suffix_len(s: Seq<char>, p: spec_fn(char) -> bool)
    ensures
        suffix_len(s, p) <= s.len(),
        forall|j: int| s.len() - suffix_len(s, p) <= j < s.len() ==> p(#[trigger] s[j]),
        suffix_len(s, p) < s.len() ==> !p(s[s.len() - suffix_len(s, p) - 1]),
    decreases s.len(),
{
    if s.len() > 0 && p(s.last()) {
        let init = s.drop_last();
        lemma_suffix_len(init, p);
        assert forall|j: int| s.len() - suffix_len(s, p) <= j < s.len() implies p(
            #[trigger] s[j],
        ) by {
            if j < init.len() {
                assert(init[j] == s[j]);
            }
        }
    }
}

/// A text with a character that is no white space does not trim to nothing.
pub proof fn lemma_trim_nonempty(s: Seq<char>, i: int)
    requires
        0 <= i < s.len(),
        !white_space(s[i]),
    ensures
        trim(s).len() > 0,
{
    let w = is_white();
    lemma_prefix_len(s, w);
    let n = prefix_len(s, w) as int;
    if i < n {
        assert(w(s[i]));
    }
    let rest = drop_prefix(s, w);
    lemma_suffix_len(rest, w);
    let m = suffix_len(rest, w) as int;
    if m == rest.len() {
        assert(w(rest[i - n]));
    }
}

pub proof fn lemma_suffix_len_is(s: Seq<char>, p: spec_fn(char) -> bool, n: int)
    requires
        0 <= n <= s.len(),
        forall|j: int| s.len() - n <= j < s.len() ==> p(#[trigger] s[j]),
        n < s.len() ==> !p(s[s.len() - n - 1]),
    ensures
        suffix_len(s, p) == n,
    decreases s.len(),
{
    if n > 0 {
        assert(p(s[s.len() - 1]));
        assert forall|j: int| s.len() - n <= j < s.len() - 1 implies p(
            #[trigger] s.drop_last()[j],
        ) by {
            assert(s.drop_last()[j] == s[j]);
        }
        lemma_suffix_len_is(s.drop_last(), p, n - 1);
    }
}

pub proof fn lemma_texts_push(v: Seq<String>, s: String)
    ensures
        texts(v.push(s)) == texts(v).push(s@),
{
    assert(texts(v.push(s)) =~= texts(v).push(s@));
}

/// The characters of a text.
pub(crate) fn chars_of(s: &str) -> (r: Vec<char>)
    ensures
        r@ == s@,
{
    let mut out: Vec<char> = Vec::new();
    for c in it: s.chars()
        invariant
            it.seq() == s@,
            out@ == s@.take(it.index()),
    {
        out.push(c);
        assert(out@ =~= s@.take(it.index() + 1));
    }
    assert(s@.take(s@.len() as int) =~= s@);
    out
}

/// The text made of the characters `lo..hi`.
pub(crate) fn string_of(cs: &Vec<char>, lo: usize, hi: usize) -> (r: String)
    requires
        lo <= hi <= cs.len(),
    ensures
        r@ == cs@.subrange(lo as int, hi as int),
{
    let mut out = String::new();
    let mut i = lo;
    while i < hi
        invariant
            lo <= i <= hi <= cs.len(),
            out@ == cs@.subrange(lo as int, i as int),
        decreases hi - i,
    {
        out.push(cs[i]);
        i += 1;
        assert(out@ =~= cs@.subrange(lo as int, i as int));
    }
    out
}

/// Whether two texts are the same.
pub fn same_text(a: &str, b: &str) -> (r: bool)
    ensures
        r == (a@ == b@),
{
    let x = a.as_bytes();
    let y = b.as_bytes();
    proof {
        vstd::utf8::encode_utf8_decode_utf8(a@);
        vstd::utf8::encode_utf8_decode_utf8(b@);
    }
    if x.len() != y.len() {
        return false;
    }
    let mut i: usize = 0;
    while i < x.len()
        invariant
            x@ == vstd::utf8::encode_utf8(a@),
            y@ == vstd::utf8::encode_utf8(b@),
            x.len() == y.len(),
            i <= x.len(),
            forall|j: int| 0 <= j < i ==> x@[j] == y@[j],
        decreases x.len() - i,
    {
        if x[i] != y[i] {
            return false;
        }
        i += 1;
    }
    assert(x@ =~= y@);
    true
}

/// Whether any string of the list is `s`.
pub fn list_has(list: &Vec<String>, s: &str) -> (r: bool)
    ensures
        r == texts(list@).contains(s@),
{
    let mut i: usize = 0;
    while i < list.len()
        invariant
            i <= list.len(),
            forall|j: int| 0 <= j < i ==> texts(list@)[j] != s@,
        decreases list.len() - i,
    {
        if same_text(list[i].as_str(), s) {
            assert(texts(list@)[i as int] == s@);
            return true;
        }
        i += 1;
    }
    false
}

/// A copy of an optional string.
pub(crate) fn copy_opt(o: &Option<String>) -> (r: Option<String>)
    ensures
        r == *o,
{
    match o {
        Some(s) => Some(s.clone()),
        None => None,
    }
}

/// A copy of a list of strings.
pub(crate) fn copy_list(v: &Vec<String>) -> (r: Vec<String>)
    ensures
        r@ == v@,
{
    let mut out: Vec<String> = Vec::new();
    let mut i: usize = 0;
    while i < v.len()
        invariant
            i <= v.len(),
            out@ == v@.take(i as int),
        decreases v.len() - i,
    {
        out.push(v[i].clone());
        i += 1;
        assert(out@ =~= v@.take(i as int));
    }
    assert(v@.take(v@.len() as int) =~= v@);
    out
}

/// The text without leading white space.
pub(crate) fn trimmed_start(s: &str) -> (r: String)
    ensures
        r@ == drop_prefix(s@, is_white()),
{
    let cs = chars_of(s);
    let mut i: usize = 0;
    while i < cs.len() && cs[i].is_whitespace()
        invariant
            i <= cs.len(),
            forall|j: int| 0 <= j < i ==> is_white()(#[trigger] cs@[j]),
        decreases cs.len() - i,
    {
        i += 1;
    }
    proof {
        lemma_prefix_len_is(cs@, is_white(), i as int);
    }
    string_of(&cs, i, cs.len())
}

/// The text without trailing white space.
pub(crate) fn trimmed_end(s: &str) -> (r: String)
    ensures
        r@ == drop_suffix(s@, is_white()),
{
    let cs = chars_of(s);
    let mut n: usize = cs.len();
    while n > 0 && cs[n - 1].is_whitespace()
        invariant
            n <= cs.len(),
            forall|j: int| n <= j < cs.len() ==> is_white()(#[trigger] cs@[j]),
        decreases n,
    {
        n -= 1;
    }
    proof {
        lemma_suffix_len_is(cs@, is_white(), cs.len() - n);
    }
    string_of(&cs, 0, n)
}

/// The text without trailing occurrences of `c`.
pub(crate) fn without_trailing(s: &str, c: char) -> (r: String)
    ensures
        r@ == drop_suffix(s@, same_as(c)),
{
    let cs = chars_of(s);
    let mut n: usize = cs.len();
    while n > 0 && cs[n - 1] == c
        invariant
            n <= cs.len(),
            forall|j: int| n <= j < cs.len() ==> same_as(c)(#[trigger] cs@[j]),
        decreases n,
    {
        n -= 1;
    }
    proof {
        lemma_suffix_len_is(cs@, same_as(c), cs.len() - n);
    }
    string_of(&cs, 0, n)
}

/// The text without leading and trailing white space.
pub fn trimmed(s: &str) -> (r: String)
    ensures
        r@ == trim(s@),
{
    let start = trimmed_start(s);
    trimmed_end(start.as_str())
}

/// Position of the first `c` at or after `from`, or the length.
pub(crate) fn next_char(cs: &Vec<char>, from: usize, c: char) -> (r: usize)
    requires
        from <= cs.len(),
    ensures
        from <= r <= cs.len(),
        r - from == find_char(cs@.skip(from as int), c),
        r < cs.len() ==> cs@[r as int] == c,
{
    let mut i = from;
    while i < cs.len() && cs[i] != c
        invariant
            from <= i <= cs.len(),
            forall|j: int| from <= j < i ==> cs@[j] != c,
        decreases cs.len() - i,
    {
        i += 1;
    }
    proof {
        lemma_prefix_len_is(cs@.skip(from as int), other_than(c), i - from);
    }
    i
}

/// The lines of a text.
pub fn split_lines(s: &str) -> (r: Vec<String>)
    ensures
        texts(r@) == lines(s@),
{
    let cs = chars_of(s);
    let mut out: Vec<String> = Vec::new();
    let mut start: usize = 0;
    assert(cs@.skip(0) =~= s@);
    assert(texts(out@) + lines(s@) =~= lines(s@));
    while start < cs.len()
        invariant
            cs@ == s@,
            start <= cs.len(),
            texts(out@) + lines(cs@.skip(start as int)) == lines(s@),
        decreases cs.len() - start,
    {
        let ghost before = texts(out@);
        let ghost from = start as int;
        let ghost rest = cs@.skip(from);
        let end = next_char(&cs, start, '\n');
        if end >= cs.len() {
            let last = string_of(&cs, start, end);
            assert(last@ =~= rest);
            proof {
                lemma_texts_push(out@, last);
            }
            out.push(last);
            start = end;
            assert(lines(cs@.skip(start as int)) =~= seq![]);
            assert(texts(out@) + lines(cs@.skip(start as int)) =~= before + lines(rest));
        } else {
            let stop = if end > start && cs[end - 1] == '\r' {
                end - 1
            } else {
                end
            };
            let line = string_of(&cs, start, stop);
            assert(rest.take(end - start) =~= cs@.subrange(start as int, end as int));
            assert(line@ =~= chomp(rest.take(end - start)));
            proof {
                lemma_texts_push(out@, line);
            }
            out.push(line);
            start = end + 1;
            assert(rest.skip(end - from + 1) =~= cs@.skip(start as int));
            assert(texts(out@) + lines(cs@.skip(start as int)) =~= before + lines(rest));
        }
    }
    assert(lines(cs@.skip(start as int)) =~= seq![]);
    assert(texts(out@) + lines(cs@.skip(start as int)) =~= texts(out@));
    out
}

/// The pieces of a text between the occurrences of `c`, at most `limit`.
pub(crate) fn pieces_limit(s: &str, c: char, limit: usize) -> (r: Vec<String>)
    ensures
        texts(r@) == split_limit(s@, c, limit as nat),
{
    let cs = chars_of(s);
    let mut out: Vec<String> = Vec::new();
    let mut start: usize = 0;
    let mut left = limit;
    assert(cs@.skip(0) =~= s@);
    assert(texts(out@) + split_limit(s@, c, limit as nat) =~= split_limit(s@, c, limit as nat));
    loop
        invariant
            cs@ == s@,
            start <= cs.len(),
            texts(out@) + split_limit(cs@.skip(start as int), c, left as nat) == split_limit(
                s@,
                c,
                limit as nat,
            ),
        decreases cs.len() - start,
    {
        let ghost before = texts(out@);
        let ghost from = start as int;
        let ghost rest = cs@.skip(from);
        let end = next_char(&cs, start, c);
        if left <= 1 || end >= cs.len() {
            let last = string_of(&cs, start, cs.len());
            assert(last@ =~= rest);
            proof {
                lemma_texts_push(out@, last);
            }
            out.push(last);
            assert(texts(out@) =~= before + seq![rest]);
            return out;
        }
        let piece = string_of(&cs, start, end);
        assert(piece@ =~= rest.take(end - from));
        proof {
            lemma_texts_push(out@, piece);
        }
        out.push(piece);
        start = end + 1;
        assert(rest.skip(end - from + 1) =~= cs@.skip(start as int));
        assert(texts(out@) + split_limit(cs@.skip(start as int), c, (left - 1) as nat) =~= before
            + split_limit(rest, c, left as nat));
        left -= 1;
    }
}

/// The pieces of a text between the occurrences of `c`.
pub(crate) fn pieces(s: &str, c: char) -> (r: Vec<String>)
    ensures
        texts(r@) == split_on(s@, c),
{
    let cs = chars_of(s);
    let mut out: Vec<String> = Vec::new();
    let mut start: usize = 0;
    assert(cs@.skip(0) =~= s@);
    assert(texts(out@) + split_on(s@, c) =~= split_on(s@, c));
    loop
        invariant
            cs@ == s@,
            start <= cs.len(),
            texts(out@) + split_on(cs@.skip(start as int), c) == split_on(s@, c),
        decreases cs.len() - start,
    {
        let ghost before = texts(out@);
        let ghost from = start as int;
        let ghost rest = cs@.skip(from);
        let end = next_char(&cs, start, c);
        let piece = string_of(&cs, start, end);
        assert(piece@ =~= rest.take(end - from));
        proof {
            lemma_texts_push(out@, piece);
        }
        out.push(piece);
        if end >= cs.len() {
            assert(rest.take(end - from) =~= rest);
            assert(texts(out@) =~= before + seq![rest]);
            return out;
        }
        start = end + 1;
        assert(rest.skip(end - from + 1) =~= cs@.skip(start as int));
        assert(texts(out@) + split_on(cs@.skip(start as int), c) =~= before + split_on(rest, c));
    }
}

/// The maximal runs of the characters that `f` accepts; `p` is what `f` decides.
pub(crate) fn runs_of<F: Fn(char) -> bool>(
    s: &str,
    f: F,
    Ghost(p): Ghost<spec_fn(char) -> bool>,
) -> (r: Vec<String>)
    requires
        forall|c: char| #[trigger] f.requires((c,)),
        forall|c: char, b: bool| #[trigger] f.ensures((c,), b) ==> b == p(c),
    ensures
        texts(r@) == runs(s@, p),
{
    let cs = chars_of(s);
    let mut out: Vec<String> = Vec::new();
    let mut i: usize = 0;
    assert(cs@.skip(0) =~= s@);
    assert(texts(out@) + runs(s@, p) =~= runs(s@, p));
    while i < cs.len()
        invariant
            cs@ == s@,
            i <= cs.len(),
            forall|c: char| #[trigger] f.requires((c,)),
            forall|c: char, b: bool| #[trigger] f.ensures((c,), b) ==> b == p(c),
            texts(out@) + runs(cs@.skip(i as int), p) == runs(s@, p),
        decreases cs.len() - i,
    {
        let ghost rest = cs@.skip(i as int);
        let ghost before = texts(out@);
        let first = cs[i];
        assert(rest[0] == first);
        if !f(first) {
            i += 1;
            assert(rest.drop_first() =~= cs@.skip(i as int));
        } else {
            let start = i;
            i += 1;
            while i < cs.len() && f(cs[i])
                invariant
                    start < i <= cs.len(),
                    forall|c: char| #[trigger] f.requires((c,)),
                    forall|c: char, b: bool| #[trigger] f.ensures((c,), b) ==> b == p(c),
                    forall|j: int| start <= j < i ==> p(#[trigger] cs@[j]),
                ensures
                    start < i <= cs.len(),
                    forall|j: int| start <= j < i ==> p(#[trigger] cs@[j]),
                    i < cs.len() ==> !p(cs@[i as int]),
                decreases cs.len() - i,
            {
                i += 1;
            }
            let run = string_of(&cs, start, i);
            proof {
                lemma_prefix_len_is(rest, p, i - start);
                assert(run@ =~= rest.take(i - start));
                assert(rest.skip(i - start) =~= cs@.skip(i as int));
                lemma_texts_push(out@, run);
            }
            out.push(run);
            assert(texts(out@) + runs(cs@.skip(i as int), p) =~= before + runs(rest, p));
        }
    }
    assert(texts(out@) + runs(cs@.skip(i as int), p) =~= texts(out@));
    out
}

/// The strings of a list in order, with `sep` between neighbours.
pub fn joined(list: &Vec<String>, sep: &str) -> (r: String)
    ensures
        r@ == join(texts(list@), sep@),
{
    let mut out = String::new();
    let mut i: usize = 0;
    assert(texts(list@).take(0) =~= seq![]);
    while i < list.len()
        invariant
            i <= list.len(),
            out@ == join(texts(list@).take(i as int), sep@),
        decreases list.len() - i,
    {
        let ghost done = texts(list@).take(i as int);
        let ghost next = texts(list@).take(i + 1);
        assert(next.drop_last() =~= done);
        if i > 0 {
            out.push_str(sep);
        }
        out.push_str(list[i].as_str());
        i += 1;
        assert(next.last() == list@[i - 1]@);
        assert(out@ =~= join(next, sep@));
    }
    assert(texts(list@).take(list@.len() as int) =~= texts(list@));
    out
}

/// Whether `part` stands in `cs` at position `i`.
fn matches_at(cs: &Vec<char>, part: &Vec<char>, i: usize) -> (r: bool)
    requires
        i + part.len() <= cs.len(),
    ensures
        r == stands_at(cs@, part@, i as int),
{
    let mut k: usize = 0;
    while k < part.len()
        invariant
            i + part.len() <= cs.len(),
            k <= part.len(),
            forall|j: int| 0 <= j < k ==> cs@[i + j] == part@[j],
        decreases part.len() - k,
    {
        if cs[i + k] != part[k] {
            assert(cs@.subrange(i as int, i + part.len())[k as int] != part@[k as int]);
            return false;
        }
        k += 1;
    }
    assert(cs@.subrange(i as int, i + part.len()) =~= part@);
    true
}

/// Whether `part` occurs in `s`.
pub fn has_part(s: &str, part: &str) -> (r: bool)
    ensures
        r == contains(s@, part@),
{
    let cs = chars_of(s);
    let ps = chars_of(part);
    let mut i: usize = 0;
    while ps.len() <= cs.len() - i
        invariant
            cs@ == s@,
            ps@ == part@,
            i <= cs.len(),
            forall|j: int| 0 <= j < i ==> !stands_at(s@, part@, j),
        ensures
            ps.len() > cs.len() - i || i == cs.len(),
            forall|j: int| 0 <= j < i ==> !stands_at(s@, part@, j),
            ps.len() <= cs.len() - i ==> !stands_at(s@, part@, i as int),
        decreases cs.len() - i,
    {
        if matches_at(&cs, &ps, i) {
            return true;
        }
        if i == cs.len() {
            break;
        }
        i += 1;
    }
    assert forall|j: int| !stands_at(s@, part@, j) by {
        if j > i && stands_at(s@, part@, j) {
            assert(j + part@.len() <= s@.len());
        }
    }
    false
}

/// Whether `s` begins with `prefix`.
pub fn begins_with(s: &str, prefix: &str) -> (r: bool)
    ensures
        r == starts_with(s@, prefix@),
{
    let cs = chars_of(s);
    let ps = chars_of(prefix);
    ps.len() <= cs.len() && matches_at(&cs, &ps, 0)
}

/// Whether `s` ends with `suffix`.
pub fn finishes_with(s: &str, suffix: &str) -> (r: bool)
    ensures
        r == ends_with(s@, suffix@),
{
    let cs = chars_of(s);
    let ps = chars_of(suffix);
    ps.len() <= cs.len() && matches_at(&cs, &ps, cs.len() - ps.len())
}

/// What follows `prefix` in `s`, if `s` begins with it.
pub(crate) fn after_prefix(s: &str, prefix: &str) -> (r: Option<String>)
    ensures
        match r {
            Some(rest) => starts_with(s@, prefix@) && rest@ == s@.skip(prefix@.len() as int),
            None => !starts_with(s@, prefix@),
        },
{
    let cs = chars_of(s);
    let ps = chars_of(prefix);
    if ps.len() <= cs.len() && matches_at(&cs, &ps, 0) {
        let rest = string_of(&cs, ps.len(), cs.len());
        assert(rest@ =~= s@.skip(prefix@.len() as int));
        Some(rest)
    } else {
        None
    }
}

/// The text with ASCII capitals turned small.
pub(crate) fn ascii_lowered(s: &str) -> (r: String)
    ensures
        r@ == ascii_lower(s@),
{
    let cs = chars_of(s);
    let mut out = String::new();
    let mut i: usize = 0;
    while i < cs.len()
        invariant
            i <= cs.len(),
            cs@ == s@,
            out@ == ascii_lower(s@.take(i as int)),
        decreases cs.len() - i,
    {
        let c = cs[i];
        let low = if 'A' <= c && c <= 'Z' {
            ((c as u8) + 32) as char
        } else {
            c
        };
        out.push(low);
        i += 1;
        assert(out@ =~= ascii_lower(s@.take(i as int)));
    }
    assert(s@.take(s@.len() as int) =~= s@);
    out
}

/// Appends the decimal notation of `n`.
pub(crate) fn push_decimal(out: &mut String, n: u64)
    ensures
        final(out)@ == old(out)@ + decimal(n as nat),
    decreases n,
{
    if n >= 10 {
        push_decimal(out, n / 10);
    }
    let d = (n % 10) as u8;
    out.push((d + 48) as char);
    assert(out@ =~= old(out)@ + decimal(n as nat));
}

/// Appends `n` in hexadecimal notation with exactly `width` digits.
pub(crate) fn push_hex(out: &mut String, n: u128, width: usize)
    ensures
        final(out)@ == old(out)@ + hex(n as nat, width as nat),
    decreases width,
{
    if width > 0 {
        push_hex(out, n / 16, width - 1);
        let d = (n % 16) as u8;
        let c = if d < 10 {
            (d + 48) as char
        } else {
            (d + 87) as char
        };
        out.push(c);
    }
    assert(out@ =~= old(out)@ + hex(n as nat, width as nat));
}

/// The encoding of two texts in a row is that of the one and then the other.
pub proof fn lemma_encode_concat(a: Seq<char>, b: Seq<char>)
    ensures
        vstd::utf8::encode_utf8(a + b) == vstd::utf8::encode_utf8(a) + vstd::utf8::encode_utf8(b),
    decreases a.len(),
{
    if a.len() == 0 {
        assert(a + b =~= b);
    } else {
        lemma_encode_concat(a.drop_first(), b);
        assert((a + b).drop_first() =~= a.drop_first() + b);
    }
}

/// Number of bytes that a text takes in UTF-8.
pub(crate) fn byte_len(s: &str) -> (r: usize)
    ensures
        r == vstd::utf8::encode_utf8(s@).len(),
{
    s.as_bytes().len()
}

/// Whether a byte position of a text lies between characters.
pub open spec fn boundary(s: Seq<char>, at: int) -> bool {
    vstd::utf8::is_char_boundary(vstd::utf8::encode_utf8(s), at)
}

/// The text whose bytes are `lo..hi` of `s`.
pub open spec fn byte_slice(s: Seq<char>, lo: int, hi: int) -> Seq<char> {
    vstd::utf8::decode_utf8(vstd::utf8::encode_utf8(s).subrange(lo, hi))
}

pub proof fn lemma_boundary_range(s: Seq<char>, at: int)
    requires
        boundary(s, at),
    ensures
        0 <= at <= vstd::utf8::encode_utf8(s).len(),
{
    vstd::utf8::encode_utf8_valid_utf8(s);
}

/// Splits off the bytes `lo..hi` of a text.
pub(crate) fn slice_bytes(s: &str, lo: usize, hi: usize) -> (r: String)
    requires
        lo <= hi,
        boundary(s@, lo as int),
        boundary(s@, hi as int),
    ensures
        r@ == byte_slice(s@, lo as int, hi as int),
        vstd::utf8::encode_utf8(r@) == vstd::utf8::encode_utf8(s@).subrange(lo as int, hi as int),
{
    let ghost bytes = vstd::utf8::encode_utf8(s@);
    proof {
        vstd::utf8::encode_utf8_valid_utf8(s@);
        lemma_boundary_range(s@, hi as int);
        vstd::utf8::valid_utf8_split(bytes, lo as int);
    }
    let (_, rest) = s.split_at(lo);
    let ghost tail = bytes.subrange(lo as int, bytes.len() as int);
    proof {
        assert(vstd::utf8::encode_utf8(rest@) =~= tail);
        if hi < bytes.len() {
            vstd::utf8::is_char_boundary_iff_not_is_continuation_byte(bytes, hi as int);
            assert(tail[hi - lo] == bytes[hi as int]);
            vstd::utf8::is_char_boundary_iff_not_is_continuation_byte(tail, hi - lo);
        } else {
            vstd::utf8::is_char_boundary_start_end_of_seq(tail);
        }
    }
    let (part, _) = rest.split_at(hi - lo);
    let out = part.to_string();
    proof {
        assert(tail.subrange(0, hi - lo) =~= bytes.subrange(lo as int, hi as int));
        vstd::utf8::encode_utf8_decode_utf8(out@);
    }
    out
}

/// Decimal notation is made of digits.
pub proof fn lemma_decimal_digits(n: nat)
    ensures
        decimal(n).len() > 0,
        forall|i: int| 0 <= i < decimal(n).len() ==> '0' <= #[trigger] decimal(n)[i] <= '9',
    decreases n,
{
    if n >= 10 {
        lemma_decimal_digits(n / 10);
    }
}

proof fn lemma_digit_injective(d: nat, e: nat)
    requires
        d < 10,
        e < 10,
        digit_char(d) == digit_char(e),
    ensures
        d == e,
{
    assert(digit_char(d) as int == d + 48);
    assert(digit_char(e) as int == e + 48);
}

/// Different numbers are written differently.
pub proof fn lemma_decimal_injective(a: nat, b: nat)
    requires
        decimal(a) == decimal(b),
    ensures
        a == b,
    decreases a,
{
    lemma_decimal_digits(a / 10);
    lemma_decimal_digits(b / 10);
    let x = decimal(a);
    let y = decimal(b);
    assert(x.last() == y.last());
    assert(x.last() == digit_char(a % 10));
    assert(y.last() == digit_char(b % 10));
    lemma_digit_injective(a % 10, b % 10);
    assert(x.drop_last() == y.drop_last());
    if a >= 10 {
        assert(x.drop_last() =~= decimal(a / 10));
    } else {
        assert(x.drop_last() =~= seq![]);
    }
    if b >= 10 {
        assert(y.drop_last() =~= decimal(b / 10));
    } else {
        assert(y.drop_last() =~= seq![]);
    }
    if a >= 10 && b >= 10 {
        lemma_decimal_injective(a / 10, b / 10);
    }
}

/// Fixed-width hexadecimal notation has that width.
pub proof fn lemma_hex_len(n: nat, width: nat)
    ensures
        hex(n, width).len() == width,
    decreases width,
{
    if width > 0 {
        lemma_hex_len(n / 16, (width - 1) as nat);
    }
}

/// Whether a character is a decimal digit.
pub open spec fn is_digit(c: char) -> bool {
    '0' <= c <= '9'
}

/// Whether a text is made of decimal digits.
pub open spec fn all_digits(s: Seq<char>) -> bool {
    forall|i: int| 0 <= i < s.len() ==> is_digit(#[trigger] s[i])
}

/// The number that some digits stand for.
pub open spec fn digits_value(s: Seq<char>) -> nat
    decreases s.len(),
{
    if s.len() == 0 {
        0
    } else {
        digits_value(s.drop_last()) * 10 + (s.last() as u32 - 48) as nat
    }
}

/// The number that a text stands for: an optional plus sign and then digits only, at
/// least one, with a value that fits.
pub open spec fn number(s: Seq<char>) -> Option<usize> {
    let body = if s.len() > 0 && s[0] == '+' {
        s.skip(1)
    } else {
        s
    };
    if body.len() == 0 || !all_digits(body) || digits_value(body) > usize::MAX {
        None
    } else {
        Some(digits_value(body) as usize)
    }
}

proof fn lemma_digits_grow(s: Seq<char>, n: int)
    requires
        0 <= n <= s.len(),
    ensures
        digits_value(s.take(n)) <= digits_value(s),
    decreases s.len(),
{
    if n == s.len() {
        assert(s.take(n) =~= s);
    } else {
        assert(s.drop_last().take(n) =~= s.take(n));
        lemma_digits_grow(s.drop_last(), n);
    }
}

/// Reads a number.
pub fn parse_number(s: &str) -> (r: Option<usize>)
    ensures
        r == number(s@),
{
    let cs = chars_of(s);
    let start: usize = if cs.len() > 0 && cs[0] == '+' {
        1
    } else {
        0
    };
    let ghost body = cs@.skip(start as int);
    assert(body =~= if s@.len() > 0 && s@[0] == '+' {
        s@.skip(1)
    } else {
        s@
    });
    if start >= cs.len() {
        return None;
    }
    let mut value: usize = 0;
    let mut i: usize = start;
    assert(digits_value(body.take(0)) == 0);
    while i < cs.len()
        invariant
            start <= i <= cs.len(),
            body == cs@.skip(start as int),
            body.len() > 0,
            body == (if s@.len() > 0 && s@[0] == '+' {
                s@.skip(1)
            } else {
                s@
            }),
            forall|j: int| 0 <= j < i - start ==> is_digit(#[trigger] body[j]),
            value == digits_value(body.take(i - start)),
        decreases cs.len() - i,
    {
        let c = cs[i];
        assert(body[i - start] == c);
        if !('0' <= c && c <= '9') {
            assert(!is_digit(body[i - start]));
            assert(!all_digits(body));
            return None;
        }
        let d: usize = (c as u32 - 48) as usize;
        proof {
            let next = body.take(i - start + 1);
            assert(next.drop_last() =~= body.take(i - start));
            assert(next.last() == c);
            assert(digits_value(next) == value * 10 + d);
            lemma_digits_grow(body, i - start + 1);
        }
        if value > usize::MAX / 10 {
            return None;
        }
        let tens: usize = value * 10;
        if tens > usize::MAX - d {
            return None;
        }
        value = tens + d;
        i += 1;
    }
    assert(body.take(body.len() as int) =~= body);
    Some(value)
}

/// A value closed by NUL, and what follows it.
pub open spec fn nul_field(value: Seq<char>, rest: Seq<char>) -> Seq<char> {
    value + seq!['\0'] + rest
}

/// Appends a value closed by NUL; `rest` is what is to follow.
pub(crate) fn push_nul_field(out: &mut String, value: &str, Ghost(rest): Ghost<Seq<char>>)
    ensures
        final(out)@ + rest == old(out)@ + nul_field(value@, rest),
{
    out.push_str(value);
    out.push('\0');
    assert(out@ + rest =~= old(out)@ + nul_field(value@, rest));
}

/// The decimal notation of a number.
pub(crate) fn decimal_text(n: usize) -> (r: String)
    ensures
        r@ == decimal(n as nat),
{
    let mut out = String::new();
    push_decimal(&mut out, n as u64);
    assert(out@ =~= decimal(n as nat));
    out
}

// ---------------------------------------------------------------------------
// Laws
// ---------------------------------------------------------------------------

/// Whether a text is another with something before it and something behind it.
pub open spec fn holds(s: Seq<char>, part: Seq<char>) -> bool {
    exists|a: Seq<char>, b: Seq<char>| s == #[trigger] (a + part + b)
}

/// A text contains a part exactly where it is something, the part, and something.
pub proof fn containing_is_standing_between(s: Seq<char>, part: Seq<char>)
    ensures
        contains(s, part) == holds(s, part),
{
    if contains(s, part) {
        let i = choose|i: int| #[trigger] stands_at(s, part, i);
        let a = s.take(i);
        let b = s.skip(i + part.len());
        assert(s =~= a + part + b) by {
            assert(s.subrange(i, i + part.len()) == part);
            assert forall|k: int| i <= k < i + part.len() implies s[k] == part[k - i] by {
                assert(s.subrange(i, i + part.len())[k - i] == part[k - i]);
            }
        }
    }
    if holds(s, part) {
        let (a, b) = choose|a: Seq<char>, b: Seq<char>| s == #[trigger] (a + part + b);
        assert(s.subrange(a.len() as int, (a.len() + part.len()) as int) =~= part);
        assert(stands_at(s, part, a.len() as int));
    }
}

/// What is put around a part leaves it contained.
pub proof fn a_part_is_contained(a: Seq<char>, part: Seq<char>, b: Seq<char>)
    ensures
        contains(a + part + b, part),
        starts_with(part + b, part),
        ends_with(a + part, part),
{
    assert((a + part + b).subrange(a.len() as int, (a.len() + part.len()) as int) =~= part);
    assert(stands_at(a + part + b, part, a.len() as int));
    assert((part + b).subrange(0, part.len() as int) =~= part);
    assert((a + part).subrange(a.len() as int, (a.len() + part.len()) as int) =~= part);
}

/// A text that starts with a part is the part and the rest, and one that ends with it the
/// rest and the part.
pub proof fn starts_and_ends_are_whole(s: Seq<char>, part: Seq<char>)
    ensures
        starts_with(s, part) ==> s == part + s.skip(part.len() as int),
        ends_with(s, part) ==> s == s.take(s.len() - part.len()) + part,
{
    if starts_with(s, part) {
        assert forall|k: int| 0 <= k < part.len() implies s[k] == part[k] by {
            assert(s.subrange(0, part.len() as int)[k] == part[k]);
        }
        assert(s =~= part + s.skip(part.len() as int));
    }
    if ends_with(s, part) {
        let n = s.len() - part.len();
        assert forall|k: int| 0 <= k < part.len() implies s[n + k] == part[k] by {
            assert(s.subrange(n, n + part.len())[k] == part[k]);
        }
        assert(s =~= s.take(n) + part);
    }
}

/// Trimming takes white space off the ends and nothing else: what it leaves starts and
/// ends with something else, or is empty.
pub proof fn trimming_takes_white_space_off(s: Seq<char>) -> (ends: (Seq<char>, Seq<char>))
    ensures
        s == ends.0 + trim(s) + ends.1,
        forall|i: int| 0 <= i < ends.0.len() ==> white_space(#[trigger] ends.0[i]),
        forall|i: int| 0 <= i < ends.1.len() ==> white_space(#[trigger] ends.1[i]),
        trim(s).len() > 0 ==> !white_space(trim(s)[0]) && !white_space(trim(s).last()),
{
    let n = prefix_len(s, is_white()) as int;
    let rest = drop_prefix(s, is_white());
    let m = suffix_len(rest, is_white()) as int;
    lemma_prefix_len(s, is_white());
    lemma_suffix_len(rest, is_white());
    let a = s.take(n);
    let b = rest.skip(rest.len() - m);
    assert(s =~= a + trim(s) + b);
    assert forall|i: int| 0 <= i < a.len() implies white_space(#[trigger] a[i]) by {
        assert(is_white()(s[i]));
    }
    assert forall|i: int| 0 <= i < b.len() implies white_space(#[trigger] b[i]) by {
        assert(is_white()(rest[rest.len() - m + i]));
    }
    if trim(s).len() > 0 {
        assert(trim(s)[0] == s[n]);
        assert(!is_white()(s[n]));
        assert(trim(s).last() == rest[rest.len() - m - 1]);
        assert(!is_white()(rest[rest.len() - m - 1]));
    }
    (a, b)
}

/// A line feed ends a line, and with it a carriage return before it; a last line needs
/// none.
pub proof fn a_line_feed_ends_a_line(line: Seq<char>, rest: Seq<char>)
    requires
        !line.contains('\n'),
    ensures
        lines(line + seq!['\n'] + rest) == seq![
            if line.len() > 0 && line.last() == '\r' {
                line.drop_last()
            } else {
                line
            },
        ] + lines(rest),
        line.len() > 0 ==> lines(line) == seq![line],
        lines(Seq::<char>::empty()) == Seq::<Seq<char>>::empty(),
{
    let s = line + seq!['\n'] + rest;
    let p = other_than('\n');
    assert forall|i: int| 0 <= i < line.len() implies p(#[trigger] line[i]) by {
        assert(line.contains(line[i]));
    }
    assert forall|i: int| 0 <= i < line.len() implies p(#[trigger] s[i]) by {
        assert(s[i] == line[i]);
    }
    lemma_prefix_len_is(s, p, line.len() as int);
    assert(s.take(line.len() as int) =~= line);
    assert(s.skip((line.len() + 1) as int) =~= rest);
    lemma_prefix_len_is(line, p, line.len() as int);
}

/// Splitting parts a text at every separator, and with a limit at the first ones only.
pub proof fn a_separator_parts_the_pieces(piece: Seq<char>, c: char, rest: Seq<char>, limit: nat)
    requires
        !piece.contains(c),
    ensures
        split_on(piece, c) == seq![piece],
        split_on(piece + seq![c] + rest, c) == seq![piece] + split_on(rest, c),
        split_limit(piece, c, limit) == seq![piece],
        limit > 1 ==> split_limit(piece + seq![c] + rest, c, limit) == seq![piece] + split_limit(
            rest,
            c,
            (limit - 1) as nat,
        ),
        split_limit(rest, c, 1) == seq![rest],
{
    let s = piece + seq![c] + rest;
    let p = other_than(c);
    assert forall|i: int| 0 <= i < piece.len() implies p(#[trigger] piece[i]) by {
        assert(piece.contains(piece[i]));
    }
    assert forall|i: int| 0 <= i < piece.len() implies p(#[trigger] s[i]) by {
        assert(s[i] == piece[i]);
    }
    lemma_prefix_len_is(s, p, piece.len() as int);
    lemma_prefix_len_is(piece, p, piece.len() as int);
    assert(s.take(piece.len() as int) =~= piece);
    assert(s.skip((piece.len() + 1) as int) =~= rest);
}

/// A text of nothing but characters of a run is one run.
pub proof fn a_whole_run(s: Seq<char>, p: spec_fn(char) -> bool)
    requires
        s.len() > 0,
        forall|i: int| 0 <= i < s.len() ==> p(#[trigger] s[i]),
    ensures
        runs(s, p) == seq![s],
{
    lemma_prefix_len_is(s, p, s.len() as int);
    assert(p(s[0]));
    assert(s.take(s.len() as int) =~= s);
    assert(s.skip(s.len() as int) =~= Seq::<char>::empty());
    assert(runs(s.skip(s.len() as int), p) =~= Seq::<Seq<char>>::empty());
    assert(runs(s, p) =~= seq![s]);
}

/// A joined list grows by the separator and the next piece.
pub proof fn joining_appends(list: Seq<Seq<char>>, sep: Seq<char>, piece: Seq<char>)
    ensures
        join(list.push(piece), sep) == if list.len() == 0 {
            piece
        } else {
            join(list, sep) + sep + piece
        },
        join(Seq::<Seq<char>>::empty(), sep) == Seq::<char>::empty(),
{
    assert(list.push(piece).drop_last() =~= list);
}

/// A number is read back from the digits that it is written with, with a plus before
/// them or not, and however many zeros come first.
pub proof fn numbers_are_read_back(n: usize, zeros: Seq<char>)
    requires
        forall|i: int| 0 <= i < zeros.len() ==> #[trigger] zeros[i] == '0',
    ensures
        number(zeros + decimal(n as nat)) == Some(n),
        number(seq!['+'] + zeros + decimal(n as nat)) == Some(n),
{
    let d = decimal(n as nat);
    let s = zeros + d;
    lemma_decimal_value(n as nat);
    lemma_value_of_zeros(zeros, d);
    assert(all_digits(s)) by {
        assert forall|i: int| 0 <= i < s.len() implies is_digit(#[trigger] s[i]) by {
            if i < zeros.len() {
                assert(s[i] == zeros[i]);
            } else {
                assert(s[i] == d[i - zeros.len()]);
            }
        }
    }
    assert(is_digit(s[0]));
    assert((seq!['+'] + zeros + d).skip(1) =~= s);
}

proof fn lemma_decimal_value(n: nat)
    ensures
        digits_value(decimal(n)) == n,
        all_digits(decimal(n)),
        decimal(n).len() > 0,
    decreases n,
{
    if n < 10 {
        assert(decimal(n).drop_last() =~= Seq::<char>::empty());
        assert(digits_value(decimal(n).drop_last()) == 0);
        assert(decimal(n).last() == digit_char(n));
    } else {
        lemma_decimal_value(n / 10);
        assert(decimal(n).drop_last() =~= decimal(n / 10));
        assert(decimal(n).last() == digit_char(n % 10));
    }
}

proof fn lemma_value_of_zeros(zeros: Seq<char>, d: Seq<char>)
    requires
        forall|i: int| 0 <= i < zeros.len() ==> #[trigger] zeros[i] == '0',
    ensures
        digits_value(zeros + d) == digits_value(d),
    decreases zeros.len() + d.len(),
{
    let s = zeros + d;
    if d.len() > 0 {
        assert(s.drop_last() =~= zeros + d.drop_last());
        lemma_value_of_zeros(zeros, d.drop_last());
    } else if zeros.len() > 0 {
        assert(s =~= zeros);
        assert(zeros.drop_last() + d =~= zeros.drop_last());
        assert forall|i: int| 0 <= i < zeros.drop_last().len() implies #[trigger] zeros.drop_last()[i]
            == '0' by {
            assert(zeros.drop_last()[i] == zeros[i]);
        }
        lemma_value_of_zeros(zeros.drop_last(), d);
        assert(zeros[zeros.len() - 1] == '0');
    } else {
        assert(s =~= d);
    }
}

/// A text without white space at its ends is trimmed already.
pub proof fn lemma_trim_nothing(s: Seq<char>)
    requires
        s.len() > 0 ==> !white_space(s[0]) && !white_space(s.last()),
    ensures
        trim(s) == s,
{
    lemma_prefix_len_is(s, is_white(), 0);
    assert(s.skip(0) =~= s);
    lemma_suffix_len_is(s, is_white(), 0);
    assert(s.take(s.len() as int) =~= s);
}

/// Only digits, with at most one plus before them, make a number.
pub proof fn numbers_are_digits(s: Seq<char>)
    requires
        number(s) is Some,
    ensures
        s.len() > 0,
        forall|i: int| 0 < i < s.len() ==> '0' <= #[trigger] s[i] <= '9',
        '0' <= s[0] <= '9' || (s[0] == '+' && s.len() > 1),
{
    if s[0] == '+' {
        let body = s.skip(1);
        assert forall|i: int| 0 < i < s.len() implies '0' <= #[trigger] s[i] <= '9' by {
            assert(body[i - 1] == s[i]);
            assert(is_digit(body[i - 1]));
        }
    } else {
        assert forall|i: int| 0 <= i < s.len() implies '0' <= #[trigger] s[i] <= '9' by {
            assert(is_digit(s[i]));
        }
        assert('0' <= s[0]);
    }
}

/// Small letters take the place of capitals one by one, and nothing else changes.
pub proof fn lowering_changes_capitals_alone(s: Seq<char>, i: int)
    requires
        0 <= i < s.len(),
    ensures
        ascii_lower(s).len() == s.len(),
        'A' <= s[i] <= 'Z' ==> ascii_lower(s)[i] as u32 == s[i] as u32 + 32,
        !('A' <= s[i] <= 'Z') ==> ascii_lower(s)[i] == s[i],
        ascii_lower(ascii_lower(s)) == ascii_lower(s),
{
    assert(ascii_lower(ascii_lower(s)) =~= ascii_lower(s));
}

/// The digits of a hexadecimal number stand in their places, small letters for ten and
/// above.
pub proof fn hex_digits_stand_in_their_places(n: nat, width: nat)
    requires
        width > 0,
    ensures
        hex(n, width).len() == width,
        hex(n, width).last() == "0123456789abcdef"@[(n % 16) as int],
        hex(n, width).drop_last() == hex(n / 16, (width - 1) as nat),
{
    reveal_strlit("0123456789abcdef");
    lemma_hex_len(n, width);
    assert(hex(n, width).drop_last() =~= hex(n / 16, (width - 1) as nat));
}

/// A text can be cut between its characters.
pub proof fn cuts_stand_between_characters(a: Seq<char>, b: Seq<char>)
    ensures
        boundary(a + b, vstd::utf8::encode_utf8(a).len() as int),
    decreases a.len(),
{
    let s = a + b;
    lemma_encode_concat(a, b);
    vstd::utf8::encode_utf8_valid_utf8(s);
    if a.len() > 0 {
        vstd::utf8::encode_utf8_first_scalar(s);
        cuts_stand_between_characters(a.drop_first(), b);
        assert(s.drop_first() =~= a.drop_first() + b);
        let bytes = vstd::utf8::encode_utf8(s);
        assert(vstd::utf8::pop_first_scalar(bytes) =~= vstd::utf8::encode_utf8(s.drop_first()));
        assert(s[0] == a[0]);
        vstd::utf8::encode_utf8_first_scalar(a);
        assert(vstd::utf8::pop_first_scalar(vstd::utf8::encode_utf8(a)) =~= vstd::utf8::encode_utf8(
            a.drop_first(),
        ));
    }
}

/// The bytes of a part of a text, cut out, are that part.
pub proof fn a_part_is_cut_out(a: Seq<char>, part: Seq<char>, b: Seq<char>)
    ensures
        boundary(a + part + b, vstd::utf8::encode_utf8(a).len() as int),
        boundary(
            a + part + b,
            (vstd::utf8::encode_utf8(a).len() + vstd::utf8::encode_utf8(part).len()) as int,
        ),
        byte_slice(
            a + part + b,
            vstd::utf8::encode_utf8(a).len() as int,
            (vstd::utf8::encode_utf8(a).len() + vstd::utf8::encode_utf8(part).len()) as int,
        ) == part,
{
    cuts_stand_between_characters(a, part + b);
    cuts_stand_between_characters(a + part, b);
    assert(a + (part + b) =~= a + part + b);
    lemma_encode_concat(a, part);
    lemma_encode_concat(a + part, b);
    let bytes = vstd::utf8::encode_utf8(a + part + b);
    let at = vstd::utf8::encode_utf8(a).len() as int;
    let n = vstd::utf8::encode_utf8(part).len() as int;
    assert(bytes.subrange(at, at + n) =~= vstd::utf8::encode_utf8(part));
    vstd::utf8::encode_utf8_decode_utf8(part);
}

/// Whether a text is white space alone.
pub open spec fn all_white(s: Seq<char>) -> bool {
    forall|i: int| 0 <= i < s.len() ==> white_space(#[trigger] s[i])
}

/// A text with white space around it is trimmed to what stands between.
pub proof fn lemma_trims_to(lead: Seq<char>, core: Seq<char>, behind: Seq<char>)
    requires
        all_white(lead),
        all_white(behind),
        core.len() > 0,
        !white_space(core[0]),
        !white_space(core.last()),
    ensures
        trim(lead + core + behind) == core,
{
    let s = lead + core + behind;
    let white = is_white();
    assert forall|j: int| 0 <= j < lead.len() implies white(#[trigger] s[j]) by {
        assert(s[j] == lead[j]);
    }
    assert(s[lead.len() as int] == core[0]);
    lemma_prefix_len_is(s, white, lead.len() as int);
    let rest = s.skip(lead.len() as int);
    assert(rest =~= core + behind);
    assert forall|j: int| rest.len() - behind.len() <= j < rest.len() implies white(
        #[trigger] rest[j],
    ) by {
        assert(rest[j] == behind[j - core.len()]);
    }
    assert(rest[rest.len() - behind.len() - 1] == core.last());
    lemma_suffix_len_is(rest, white, behind.len() as int);
    assert(rest.take(rest.len() - behind.len()) =~= core);
}

} // verus!
