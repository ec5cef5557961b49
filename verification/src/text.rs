//! Text as sequences of characters: trimming, splitting, replacing, decimal
//! numerals and the order of strings.
use vstd::prelude::*;
use vstd::string::*;

verus! {

/// `String::push` appends one character.
pub assume_specification[ String::push ](s: &mut String, ch: char)
    ensures
        final(s)@ == old(s)@.push(ch),
;

/// A text as `{:?}` writes it.
pub uninterp spec fn debug_form(s: Seq<char>) -> Seq<char>;

/// Writes a text by the `Debug` of `str`: between quotes, with escapes. What
/// is written depends on the text alone, and is named `debug_form`.
#[verifier::external_body]
pub(crate) fn quoted(s: &str) -> (r: String)
    ensures
        r@ == debug_form(s@),
{
    format!("{s:?}")
}

/// The views of a list of strings.
pub open spec fn texts(v: Seq<String>) -> Seq<Seq<char>> {
    Seq::new(v.len(), |i: int| v[i]@)
}

/// Unicode's White_Space property.
pub open spec fn is_space(c: char) -> bool {
    ||| '\u{9}' <= c <= '\u{d}'
    ||| c == ' '
    ||| c == '\u{85}'
    ||| c == '\u{a0}'
    ||| c == '\u{1680}'
    ||| '\u{2000}' <= c <= '\u{200a}'
    ||| c == '\u{2028}'
    ||| c == '\u{2029}'
    ||| c == '\u{202f}'
    ||| c == '\u{205f}'
    ||| c == '\u{3000}'
}

pub open spec fn is_digit(c: char) -> bool {
    '0' <= c <= '9'
}

pub open spec fn is_alphanumeric(c: char) -> bool {
    ||| is_digit(c)
    ||| 'a' <= c <= 'z'
    ||| 'A' <= c <= 'Z'
}

pub open spec fn trim_start(s: Seq<char>) -> Seq<char>
    decreases s.len(),
{
    if s.len() > 0 && is_space(s[0]) {
        trim_start(s.drop_first())
    } else {
        s
    }
}

pub open spec fn trim_end(s: Seq<char>) -> Seq<char>
    decreases s.len(),
{
    if s.len() > 0 && is_space(s.last()) {
        trim_end(s.drop_last())
    } else {
        s
    }
}

/// The text without the white space around it.
pub open spec fn trimmed(s: Seq<char>) -> Seq<char> {
    trim_end(trim_start(s))
}

/// The text without the `c`s at its end.
pub open spec fn without_trailing(s: Seq<char>, c: char) -> Seq<char>
    decreases s.len(),
{
    if s.len() > 0 && s.last() == c {
        without_trailing(s.drop_last(), c)
    } else {
        s
    }
}

/// The text without the `c`s at its start.
pub open spec fn without_leading(s: Seq<char>, c: char) -> Seq<char>
    decreases s.len(),
{
    if s.len() > 0 && s[0] == c {
        without_leading(s.drop_first(), c)
    } else {
        s
    }
}

/// The pieces, joined again, are the text.
pub proof fn lemma_split_joined(s: Seq<char>, sep: char)
    ensures
        joined(split(s, sep), seq![sep]) == s,
    decreases s.len(),
{
    let pieces = split(s, sep);
    if s.len() > 0 {
        let before = split(s.drop_last(), sep);
        lemma_split_nonempty(s.drop_last(), sep);
        lemma_split_joined(s.drop_last(), sep);
        if s.last() == sep {
            assert(pieces.drop_last() =~= before);
            assert(joined(pieces, seq![sep]) =~= s.drop_last().push(sep));
        } else {
            assert(pieces.drop_last() =~= before.drop_last());
            if pieces.len() == 1 {
                assert(pieces[0] == before.last().push(s.last()));
                assert(before.last() == before[0]);
            } else {
                assert(joined(pieces, seq![sep]) =~= joined(before, seq![sep]).push(s.last()));
            }
        }
        assert(s =~= s.drop_last().push(s.last()));
    }
}

/// The pieces of the text between the `sep`s.
pub open spec fn split(s: Seq<char>, sep: char) -> Seq<Seq<char>>
    decreases s.len(),
{
    if s.len() == 0 {
        seq![Seq::<char>::empty()]
    } else {
        let before = split(s.drop_last(), sep);
        if s.last() == sep {
            before.push(Seq::empty())
        } else {
            before.update(before.len() - 1, before.last().push(s.last()))
        }
    }
}

/// The words of the text: its longest runs without white space.
pub open spec fn words(s: Seq<char>) -> Seq<Seq<char>>
    decreases s.len(),
{
    if s.len() == 0 {
        Seq::empty()
    } else {
        let before = words(s.drop_last());
        let n = s.len();
        if is_space(s.last()) {
            before
        } else if n >= 2 && !is_space(s[n - 2]) {
            before.update(before.len() - 1, before.last().push(s.last()))
        } else {
            before.push(seq![s.last()])
        }
    }
}

/// The place of the first `c`, or the length where there is none.
pub open spec fn find(s: Seq<char>, c: char) -> int
    decreases s.len(),
{
    if s.len() == 0 || s[0] == c {
        0
    } else {
        1 + find(s.drop_first(), c)
    }
}

pub open spec fn starts_with(s: Seq<char>, prefix: Seq<char>) -> bool {
    s.len() >= prefix.len() && s.take(prefix.len() as int) == prefix
}

/// Every `pat`, found from the left, replaced.
pub open spec fn replaced(s: Seq<char>, pat: Seq<char>, with: Seq<char>) -> Seq<char>
    decreases s.len(),
{
    if pat.len() == 0 || s.len() < pat.len() {
        s
    } else if starts_with(s, pat) {
        with + replaced(s.skip(pat.len() as int), pat, with)
    } else {
        seq![s[0]] + replaced(s.drop_first(), pat, with)
    }
}

/// The pieces with `sep` between them.
pub open spec fn joined(pieces: Seq<Seq<char>>, sep: Seq<char>) -> Seq<char>
    decreases pieces.len(),
{
    if pieces.len() == 0 {
        Seq::empty()
    } else if pieces.len() == 1 {
        pieces[0]
    } else {
        joined(pieces.drop_last(), sep) + sep + pieces.last()
    }
}

/// The pieces one after the other.
pub open spec fn concatenated(pieces: Seq<Seq<char>>) -> Seq<char>
    decreases pieces.len(),
{
    if pieces.len() == 0 {
        Seq::empty()
    } else {
        concatenated(pieces.drop_last()) + pieces.last()
    }
}

pub open spec fn digit_char(n: nat) -> char {
    ('0' as u32 + n) as char
}

/// The decimal numeral of a number.
pub open spec fn decimal(n: nat) -> Seq<char>
    decreases n,
{
    if n < 10 {
        seq![digit_char(n)]
    } else {
        decimal(n / 10).push(digit_char(n % 10))
    }
}

/// The decimal numeral of an integer.
pub open spec fn signed_decimal(n: int) -> Seq<char> {
    if n < 0 {
        seq!['-'] + decimal((-n) as nat)
    } else {
        decimal(n as nat)
    }
}

/// The number that a run of digits stands for.
pub open spec fn digits_value(s: Seq<char>) -> nat
    decreases s.len(),
{
    if s.len() == 0 {
        0
    } else {
        digits_value(s.drop_last()) * 10 + (s.last() as u32 - '0' as u32) as nat
    }
}

pub open spec fn all_digits(s: Seq<char>) -> bool {
    forall|i: int| 0 <= i < s.len() ==> is_digit(#[trigger] s[i])
}

/// What a text names as an unsigned integer of at most `max`: digits, after a
/// plus sign if there is one.
pub open spec fn unsigned(s: Seq<char>, max: nat) -> Option<nat> {
    let digits = if s.len() > 0 && s[0] == '+' {
        s.drop_first()
    } else {
        s
    };
    if digits.len() > 0 && all_digits(digits) && digits_value(digits) <= max {
        Some(digits_value(digits))
    } else {
        None
    }
}

pub open spec fn upper(c: char) -> char {
    if 'a' <= c <= 'z' {
        (c as u32 - 32) as char
    } else {
        c
    }
}

pub open spec fn lower(c: char) -> char {
    if 'A' <= c <= 'Z' {
        (c as u32 + 32) as char
    } else {
        c
    }
}

/// The text with its ASCII letters in upper case.
pub open spec fn uppercased(s: Seq<char>) -> Seq<char> {
    Seq::new(s.len(), |i: int| upper(s[i]))
}

/// The text with its ASCII letters in lower case.
pub open spec fn lowercased(s: Seq<char>) -> Seq<char> {
    Seq::new(s.len(), |i: int| lower(s[i]))
}

/// `a` comes before `b` in the order of strings.
pub open spec fn text_lt(a: Seq<char>, b: Seq<char>) -> bool
    decreases a.len(),
{
    if b.len() == 0 {
        false
    } else if a.len() == 0 {
        true
    } else if a[0] == b[0] {
        text_lt(a.drop_first(), b.drop_first())
    } else {
        a[0] < b[0]
    }
}

pub fn is_space_char(c: char) -> (r: bool)
    ensures
        r == is_space(c),
{
    ('\u{9}' <= c && c <= '\u{d}') || c == ' ' || c == '\u{85}' || c == '\u{a0}' || c == '\u{1680}'
        || ('\u{2000}' <= c && c <= '\u{200a}') || c == '\u{2028}' || c == '\u{2029}' || c
        == '\u{202f}' || c == '\u{205f}' || c == '\u{3000}'
}

pub fn is_alphanumeric_char(c: char) -> (r: bool)
    ensures
        r == is_alphanumeric(c),
{
    ('0' <= c && c <= '9') || ('a' <= c && c <= 'z') || ('A' <= c && c <= 'Z')
}

pub fn chars_of(s: &str) -> (v: Vec<char>)
    ensures
        v@ == s@,
{
    let mut v: Vec<char> = Vec::new();
    for c in it: s.chars()
        invariant
            it.seq() == s@,
            v@ == s@.take(it.index()),
    {
        v.push(c);
    }
    assert(s@.take(s@.len() as int) == s@);
    v
}

/// The characters from `from` up to `to` as a string.
pub fn slice_string(v: &Vec<char>, from: usize, to: usize) -> (s: String)
    requires
        from <= to <= v@.len(),
    ensures
        s@ == v@.subrange(from as int, to as int),
{
    let mut s = String::new();
    let mut i: usize = from;
    while i < to
        invariant
            from <= i <= to <= v@.len(),
            s@ == v@.subrange(from as int, i as int),
        decreases to - i,
    {
        s.push(v[i]);
        i = i + 1;
        assert(v@.subrange(from as int, i as int).drop_last() == v@.subrange(
            from as int,
            i - 1,
        ));
    }
    s
}

/// Whether two texts are the same.
pub fn same(a: &str, b: &str) -> (r: bool)
    ensures
        r == (a@ == b@),
{
    a.to_owned() == b.to_owned()
}

proof fn lemma_trim_start(s: Seq<char>, i: int)
    requires
        0 <= i <= s.len(),
        forall|k: int| 0 <= k < i ==> is_space(#[trigger] s[k]),
        i == s.len() || !is_space(s[i]),
    ensures
        trim_start(s) == s.skip(i),
    decreases i,
{
    if i > 0 {
        let t = s.drop_first();
        assert forall|k: int| 0 <= k < i - 1 implies is_space(#[trigger] t[k]) by {
            assert(t[k] == s[k + 1]);
        }
        lemma_trim_start(t, i - 1);
        assert(t.skip(i - 1) == s.skip(i));
    } else {
        assert(s.skip(0) == s);
    }
}

proof fn lemma_trim_end(s: Seq<char>, j: int)
    requires
        0 <= j <= s.len(),
        forall|k: int| j <= k < s.len() ==> is_space(#[trigger] s[k]),
        j == 0 || !is_space(s[j - 1]),
    ensures
        trim_end(s) == s.take(j),
    decreases s.len() - j,
{
    if j < s.len() {
        let t = s.drop_last();
        lemma_trim_end(t, j);
        assert(t.take(j) == s.take(j));
    } else {
        assert(s.take(j) == s);
    }
}

/// The text without the white space around it.
pub fn trim(s: &str) -> (r: String)
    ensures
        r@ == trimmed(s@),
{
    let v = chars_of(s);
    let mut i: usize = 0;
    while i < v.len() && is_space_char(v[i])
        invariant
            i <= v@.len(),
            forall|k: int| 0 <= k < i ==> is_space(#[trigger] v@[k]),
        decreases v@.len() - i,
    {
        i = i + 1;
    }
    proof {
        lemma_trim_start(v@, i as int);
    }
    let mut j: usize = v.len();
    while j > i && is_space_char(v[j - 1])
        invariant
            i <= j <= v@.len(),
            forall|k: int| j <= k < v@.len() ==> is_space(#[trigger] v@[k]),
        decreases j,
    {
        j = j - 1;
    }
    let r = slice_string(&v, i, j);
    proof {
        let t = v@.skip(i as int);
        assert forall|k: int| j - i <= k < t.len() implies is_space(#[trigger] t[k]) by {
            assert(t[k] == v@[k + i]);
        }
        if j > i {
            assert(t[j - i - 1] == v@[j - 1]);
        }
        lemma_trim_end(t, j - i);
        assert(t.take(j - i) == v@.subrange(i as int, j as int));
    }
    r
}

/// The text without the `c`s at its end.
pub fn trim_trailing(s: &str, c: char) -> (r: String)
    ensures
        r@ == without_trailing(s@, c),
{
    let v = chars_of(s);
    let mut j: usize = v.len();
    proof {
        assert(v@.take(j as int) == v@);
    }
    while j > 0 && v[j - 1] == c
        invariant
            j <= v@.len(),
            without_trailing(v@.take(j as int), c) == without_trailing(v@, c),
        decreases j,
    {
        assert(v@.take(j as int).drop_last() == v@.take(j - 1));
        j = j - 1;
    }
    assert(v@.take(j as int) == v@.subrange(0, j as int));
    slice_string(&v, 0, j)
}

/// The text without the `c`s at its start.
pub fn trim_leading(s: &str, c: char) -> (r: String)
    ensures
        r@ == without_leading(s@, c),
{
    let v = chars_of(s);
    let mut i: usize = 0;
    proof {
        assert(v@.skip(0) == v@);
    }
    while i < v.len() && v[i] == c
        invariant
            i <= v@.len(),
            without_leading(v@.skip(i as int), c) == without_leading(v@, c),
        decreases v@.len() - i,
    {
        assert(v@.skip(i as int).drop_first() == v@.skip(i + 1));
        i = i + 1;
    }
    assert(v@.skip(i as int) == v@.subrange(i as int, v@.len() as int));
    slice_string(&v, i, v.len())
}

pub proof fn lemma_split_nonempty(s: Seq<char>, sep: char)
    ensures
        split(s, sep).len() > 0,
    decreases s.len(),
{
    if s.len() > 0 {
        lemma_split_nonempty(s.drop_last(), sep);
    }
}

/// The pieces of the text between the `sep`s.
pub fn split_text(s: &str, sep: char) -> (r: Vec<String>)
    ensures
        texts(r@) == split(s@, sep),
        r@.len() > 0,
{
    let v = chars_of(s);
    let mut out: Vec<String> = Vec::new();
    let mut cur = String::new();
    let mut i: usize = 0;
    assert(texts(out@).push(cur@) == split(v@.take(0), sep));
    while i < v.len()
        invariant
            i <= v@.len(),
            texts(out@).push(cur@) == split(v@.take(i as int), sep),
        decreases v@.len() - i,
    {
        let c = v[i];
        let ghost before = split(v@.take(i as int), sep);
        assert(v@.take(i + 1).drop_last() == v@.take(i as int));
        assert(before.last() == cur@);
        if c == sep {
            out.push(cur);
            cur = String::new();
            assert(texts(out@) == before);
        } else {
            cur.push(c);
            assert(texts(out@).push(cur@) == before.update(before.len() - 1, cur@));
        }
        i = i + 1;
    }
    assert(v@.take(i as int) == v@);
    let ghost prev = texts(out@);
    let ghost last = cur@;
    out.push(cur);
    assert(texts(out@) == prev.push(last));
    out
}

proof fn lemma_words_nonempty(s: Seq<char>)
    ensures
        s.len() > 0 && !is_space(s.last()) ==> words(s).len() > 0,
    decreases s.len(),
{
    if s.len() > 0 && !is_space(s.last()) && s.len() >= 2 && !is_space(s[s.len() - 2]) {
        lemma_words_nonempty(s.drop_last());
    }
}

/// The words of the text.
pub fn split_words(s: &str) -> (r: Vec<String>)
    ensures
        texts(r@) == words(s@),
{
    let v = chars_of(s);
    let mut out: Vec<String> = Vec::new();
    let mut i: usize = 0;
    assert(texts(out@) == words(v@.take(0)));
    while i < v.len()
        invariant
            i <= v@.len(),
            texts(out@) == words(v@.take(i as int)),
        decreases v@.len() - i,
    {
        let c = v[i];
        let ghost before = words(v@.take(i as int));
        assert(v@.take(i + 1).drop_last() == v@.take(i as int));
        if !is_space_char(c) {
            if i > 0 && !is_space_char(v[i - 1]) {
                proof {
                    lemma_words_nonempty(v@.take(i as int));
                    assert(v@.take(i as int).last() == v@[i - 1]);
                    assert(v@.take(i + 1)[i - 1] == v@[i - 1]);
                    assert(texts(out@).len() == out@.len());
                }
                let mut w = out.pop().unwrap();
                assert(w@ == before.last());
                w.push(c);
                let ghost prev = texts(out@);
                assert(prev == before.drop_last());
                let ghost wv = w@;
                out.push(w);
                assert(texts(out@) == prev.push(wv));
                assert(prev.push(wv) == before.update(before.len() - 1, wv));
            } else {
                let mut w = String::new();
                w.push(c);
                let ghost wv = w@;
                assert(wv == seq![c]);
                out.push(w);
                assert(texts(out@) == before.push(wv));
            }
        }
        i = i + 1;
    }
    assert(v@.take(i as int) == v@);
    out
}

/// The place of the first `c`, or the length where there is none.
pub fn find_char(v: &Vec<char>, c: char) -> (r: usize)
    ensures
        r == find(v@, c),
        r <= v@.len(),
{
    let mut i: usize = 0;
    assert(v@.skip(0) == v@);
    while i < v.len() && v[i] != c
        invariant
            i <= v@.len(),
            find(v@, c) == i + find(v@.skip(i as int), c),
        decreases v@.len() - i,
    {
        assert(v@.skip(i as int).drop_first() == v@.skip(i + 1));
        i = i + 1;
    }
    i
}

/// Whether the text starts with `prefix`.
pub fn has_prefix(s: &str, prefix: &str) -> (r: bool)
    ensures
        r == starts_with(s@, prefix@),
{
    let v = chars_of(s);
    let p = chars_of(prefix);
    assert(v@.skip(0) == v@);
    matches_at(&v, 0, &p)
}

/// Whether `p` stands in `v` at `at`.
pub fn matches_at(v: &Vec<char>, at: usize, p: &Vec<char>) -> (r: bool)
    requires
        at <= v@.len(),
    ensures
        r == starts_with(v@.skip(at as int), p@),
{
    if v.len() - at < p.len() {
        return false;
    }
    let n: usize = v.len();
    let mut i: usize = 0;
    while i < p.len()
        invariant
            i <= p@.len() <= v@.len() - at,
            v@.len() == n,
            forall|k: int| 0 <= k < i ==> v@[at + k] == #[trigger] p@[k],
        decreases p@.len() - i,
    {
        if v[at + i] != p[i] {
            assert(v@.skip(at as int).take(p@.len() as int)[i as int] != p@[i as int]);
            return false;
        }
        i = i + 1;
    }
    assert(v@.skip(at as int).take(p@.len() as int) == p@);
    true
}

/// The rest of the text behind `prefix`, where it starts with it.
pub fn strip_prefix(s: &str, prefix: &str) -> (r: Option<String>)
    ensures
        r is Some <==> starts_with(s@, prefix@),
        r matches Some(rest) ==> rest@ == s@.skip(prefix@.len() as int),
{
    let v = chars_of(s);
    let p = chars_of(prefix);
    if matches_at(&v, 0, &p) {
        assert(v@.skip(0) == v@);
        assert(v@.skip(p@.len() as int) == v@.subrange(p@.len() as int, v@.len() as int));
        Some(slice_string(&v, p.len(), v.len()))
    } else {
        assert(v@.skip(0) == v@);
        None
    }
}

/// Every `pat`, found from the left, replaced.
pub fn replace(s: &str, pat: &str, with: &str) -> (r: String)
    requires
        pat@.len() > 0,
    ensures
        r@ == replaced(s@, pat@, with@),
{
    let v = chars_of(s);
    let p = chars_of(pat);
    let mut out = String::new();
    let mut i: usize = 0;
    assert(v@.skip(0) == v@);
    assert(out@ + replaced(v@.skip(0), p@, with@) == replaced(v@, p@, with@));
    while i < v.len()
        invariant
            p@.len() > 0,
            p@ == pat@,
            i <= v@.len(),
            out@ + replaced(v@.skip(i as int), p@, with@) == replaced(v@, p@, with@),
        decreases v@.len() - i,
    {
        let ghost rest = v@.skip(i as int);
        if matches_at(&v, i, &p) {
            let ghost before = out@;
            out.append(with);
            assert(rest.skip(p@.len() as int) == v@.skip(i + p@.len()));
            let ghost tail = replaced(v@.skip(i + p@.len()), p@, with@);
            assert(before + (with@ + tail) == before + with@ + tail);
            i = i + p.len();
        } else {
            let ghost before = out@;
            out.push(v[i]);
            assert(rest.drop_first() == v@.skip(i + 1));
            let ghost tail = replaced(v@.skip(i + 1), p@, with@);
            proof {
                if rest.len() >= p@.len() {
                    assert(before + (seq![rest[0]] + tail) == before.push(rest[0]) + tail);
                } else {
                    assert(tail == v@.skip(i + 1));
                    assert(before + rest == before.push(rest[0]) + tail);
                }
            }
            i = i + 1;
        }
    }
    assert(v@.skip(i as int) == Seq::<char>::empty());
    assert(out@ + Seq::<char>::empty() == out@);
    out
}

/// The pieces with `sep` between them.
pub fn join(pieces: &Vec<String>, sep: &str) -> (r: String)
    ensures
        r@ == joined(texts(pieces@), sep@),
{
    let mut out = String::new();
    let mut i: usize = 0;
    assert(out@ == joined(texts(pieces@).take(0), sep@));
    while i < pieces.len()
        invariant
            i <= pieces@.len(),
            out@ == joined(texts(pieces@).take(i as int), sep@),
        decreases pieces@.len() - i,
    {
        let ghost all = texts(pieces@);
        assert(all.take(i + 1).drop_last() == all.take(i as int));
        assert(all.take(i + 1).last() == pieces@[i as int]@);
        if i > 0 {
            out.append(sep);
        } else {
            assert(out@ + pieces@[0]@ == pieces@[0]@);
        }
        out.append(pieces[i].as_str());
        i = i + 1;
    }
    assert(texts(pieces@).take(i as int) == texts(pieces@));
    out
}

/// The pieces one after the other.
pub fn concat(pieces: &Vec<String>) -> (r: String)
    ensures
        r@ == concatenated(texts(pieces@)),
{
    let mut out = String::new();
    let mut i: usize = 0;
    assert(out@ == concatenated(texts(pieces@).take(0)));
    while i < pieces.len()
        invariant
            i <= pieces@.len(),
            out@ == concatenated(texts(pieces@).take(i as int)),
        decreases pieces@.len() - i,
    {
        let ghost all = texts(pieces@);
        assert(all.take(i + 1).drop_last() == all.take(i as int));
        assert(all.take(i + 1).last() == pieces@[i as int]@);
        out.append(pieces[i].as_str());
        i = i + 1;
    }
    assert(texts(pieces@).take(i as int) == texts(pieces@));
    out
}

fn digit_of(n: u8) -> (c: char)
    requires
        n < 10,
    ensures
        c == digit_char(n as nat),
{
    ('0' as u8 + n) as char
}

/// The decimal numeral of a number.
pub fn decimal_u128(n: u128) -> (r: String)
    ensures
        r@ == decimal(n as nat),
    decreases n,
{
    if n < 10 {
        let mut s = String::new();
        s.push(digit_of(n as u8));
        assert(s@ == seq![digit_char(n as nat)]);
        s
    } else {
        let mut s = decimal_u128(n / 10);
        s.push(digit_of((n % 10) as u8));
        s
    }
}

pub fn decimal_u64(n: u64) -> (r: String)
    ensures
        r@ == decimal(n as nat),
{
    decimal_u128(n as u128)
}

pub fn decimal_i64(n: i64) -> (r: String)
    ensures
        r@ == signed_decimal(n as int),
{
    if n < 0 {
        let mut s = String::new();
        s.push('-');
        assert(s@ == seq!['-']);
        let d = decimal_u128((-(n as i128)) as u128);
        s.append(d.as_str());
        s
    } else {
        decimal_u128(n as u128)
    }
}

proof fn lemma_digits_grow(s: Seq<char>, k: int)
    requires
        0 <= k <= s.len(),
        all_digits(s),
    ensures
        digits_value(s.take(k)) <= digits_value(s),
    decreases s.len() - k,
{
    if k < s.len() {
        let t = s.drop_last();
        assert forall|i: int| 0 <= i < t.len() implies is_digit(#[trigger] t[i]) by {
            assert(t[i] == s[i]);
        }
        lemma_digits_grow(t, k);
        assert(t.take(k) == s.take(k));
    } else {
        assert(s.take(k) == s);
    }
}

/// The unsigned integer of at most `max` that a text names, if it does.
pub fn parse_unsigned(s: &str, max: u64) -> (r: Option<u64>)
    ensures
        r is Some <==> unsigned(s@, max as nat) is Some,
        r matches Some(n) ==> unsigned(s@, max as nat) == Some(n as nat),
{
    let v = chars_of(s);
    let from: usize = if v.len() > 0 && v[0] == '+' {
        1
    } else {
        0
    };
    let ghost d = if s@.len() > 0 && s@[0] == '+' {
        s@.drop_first()
    } else {
        s@
    };
    assert(d == v@.skip(from as int));
    if from == v.len() {
        return None;
    }
    let mut n: u64 = 0;
    let mut i: usize = from;
    assert(d.take(0) == Seq::<char>::empty());
    while i < v.len()
        invariant
            from <= i <= v@.len(),
            d == v@.skip(from as int),
            d == if s@.len() > 0 && s@[0] == '+' {
                s@.drop_first()
            } else {
                s@
            },
            forall|k: int| 0 <= k < i - from ==> is_digit(#[trigger] d[k]),
            n == digits_value(d.take(i - from)),
            n <= max,
        decreases v@.len() - i,
    {
        let c = v[i];
        assert(d[i - from] == c);
        if !('0' <= c && c <= '9') {
            return None;
        }
        assert(d.take(i + 1 - from).drop_last() == d.take(i - from));
        let digit: u64 = (c as u32 - '0' as u32) as u64;
        let next: u128 = n as u128 * 10 + digit as u128;
        if next > max as u128 {
            proof {
                if all_digits(d) {
                    lemma_digits_grow(d, i + 1 - from);
                }
            }
            return None;
        }
        n = next as u64;
        i = i + 1;
    }
    assert(d.take(i - from) == d);
    Some(n)
}

/// The text with its ASCII letters in upper case.
pub fn to_upper(s: &str) -> (r: String)
    ensures
        r@ == uppercased(s@),
{
    let v = chars_of(s);
    let mut out = String::new();
    let mut i: usize = 0;
    while i < v.len()
        invariant
            i <= v@.len(),
            out@ == uppercased(v@.take(i as int)),
        decreases v@.len() - i,
    {
        let c = v[i];
        let u = if 'a' <= c && c <= 'z' {
            (c as u8 - 32) as char
        } else {
            c
        };
        out.push(u);
        i = i + 1;
        assert(out@ =~= uppercased(v@.take(i as int)));
    }
    assert(v@.take(i as int) == v@);
    out
}

/// The text with its ASCII letters in lower case.
pub fn to_lower(s: &str) -> (r: String)
    ensures
        r@ == lowercased(s@),
{
    let v = chars_of(s);
    let mut out = String::new();
    let mut i: usize = 0;
    while i < v.len()
        invariant
            i <= v@.len(),
            out@ == lowercased(v@.take(i as int)),
        decreases v@.len() - i,
    {
        let c = v[i];
        let u = if 'A' <= c && c <= 'Z' {
            (c as u8 + 32) as char
        } else {
            c
        };
        out.push(u);
        i = i + 1;
        assert(out@ =~= lowercased(v@.take(i as int)));
    }
    assert(v@.take(i as int) == v@);
    out
}

/// Whether the text holds `c`.
pub fn contains_char(s: &str, c: char) -> (r: bool)
    ensures
        r == s@.contains(c),
{
    let v = chars_of(s);
    let mut i: usize = 0;
    while i < v.len()
        invariant
            i <= v@.len(),
            v@ == s@,
            forall|k: int| 0 <= k < i ==> #[trigger] v@[k] != c,
        decreases v@.len() - i,
    {
        if v[i] == c {
            assert(s@[i as int] == c);
            return true;
        }
        i = i + 1;
    }
    false
}

/// Whether a list holds a text.
pub fn holds(list: &Vec<String>, s: &str) -> (r: bool)
    ensures
        r == texts(list@).contains(s@),
{
    let mut i: usize = 0;
    while i < list.len()
        invariant
            i <= list@.len(),
            forall|k: int| 0 <= k < i ==> #[trigger] list@[k]@ != s@,
        decreases list@.len() - i,
    {
        if same(list[i].as_str(), s) {
            assert(texts(list@)[i as int] == s@);
            return true;
        }
        i = i + 1;
    }
    assert forall|k: int| 0 <= k < texts(list@).len() implies texts(list@)[k] != s@ by {
        assert(texts(list@)[k] == list@[k]@);
    }
    false
}

/// Whether `a` comes before `b` in the order of strings.
pub fn before(a: &str, b: &str) -> (r: bool)
    ensures
        r == text_lt(a@, b@),
{
    let x = chars_of(a);
    let y = chars_of(b);
    let mut i: usize = 0;
    assert(x@.skip(0) == x@);
    assert(y@.skip(0) == y@);
    while i < x.len() && i < y.len() && x[i] == y[i]
        invariant
            i <= x@.len(),
            i <= y@.len(),
            text_lt(x@.skip(i as int), y@.skip(i as int)) == text_lt(x@, y@),
        decreases x@.len() - i,
    {
        assert(x@.skip(i as int).drop_first() == x@.skip(i + 1));
        assert(y@.skip(i as int).drop_first() == y@.skip(i + 1));
        i = i + 1;
    }
    let ghost p = x@.skip(i as int);
    let ghost q = y@.skip(i as int);
    assert(text_lt(p, q) == text_lt(a@, b@));
    if i >= y.len() {
        false
    } else if i >= x.len() {
        true
    } else {
        assert(p[0] == x@[i as int] && q[0] == y@[i as int]);
        assert(p[0] != q[0]);
        x[i] < y[i]
    }
}

/// Three texts in one.
pub fn said(a: &str, b: &str, c: &str) -> (r: String)
    ensures
        r@ == a@ + b@ + c@,
{
    let mut m = a.to_owned();
    m.append(b);
    m.append(c);
    m
}

/// A message without a cause.
pub fn alone(m: String) -> (r: Vec<String>)
    ensures
        texts(r@) == seq![m@],
{
    let mut r: Vec<String> = Vec::new();
    r.push(m);
    assert(texts(r@) =~= seq![m@]);
    r
}

/// A message and its causes, the nearest first.
pub fn atop(m: String, causes: Vec<String>) -> (r: Vec<String>)
    ensures
        texts(r@) == seq![m@] + texts(causes@),
{
    let mut r: Vec<String> = Vec::new();
    r.push(m);
    let mut i: usize = 0;
    while i < causes.len()
        invariant
            i <= causes@.len(),
            texts(r@) == seq![m@] + texts(causes@).take(i as int),
        decreases causes@.len() - i,
    {
        let ghost before = r@;
        let c = causes[i].clone();
        r.push(c);
        i = i + 1;
        assert(texts(r@) =~= texts(before).push(c@));
        assert(texts(causes@).take(i as int) =~= texts(causes@).take(i - 1).push(c@));
    }
    assert(texts(causes@).take(i as int) =~= texts(causes@));
    r
}

pub fn copy_list(v: &Vec<String>) -> (r: Vec<String>)
    ensures
        r@ == v@,
{
    let r = v.clone();
    assert(r@ =~= v@);
    r
}

/// Nothing comes before itself.
pub proof fn lemma_before_irreflexive(a: Seq<char>)
    ensures
        !text_lt(a, a),
    decreases a.len(),
{
    if a.len() > 0 {
        lemma_before_irreflexive(a.drop_first());
    }
}

/// The order of strings is transitive.
pub proof fn lemma_before_transitive(a: Seq<char>, b: Seq<char>, c: Seq<char>)
    requires
        text_lt(a, b),
        text_lt(b, c),
    ensures
        text_lt(a, c),
    decreases a.len(),
{
    if a.len() > 0 && a[0] == b[0] && b[0] == c[0] {
        lemma_before_transitive(a.drop_first(), b.drop_first(), c.drop_first());
    }
}

/// Of two different strings one comes before the other.
pub proof fn lemma_before_total(a: Seq<char>, b: Seq<char>)
    ensures
        text_lt(a, b) || text_lt(b, a) || a == b,
    decreases a.len(),
{
    if a.len() > 0 && b.len() > 0 {
        if a[0] == b[0] {
            lemma_before_total(a.drop_first(), b.drop_first());
            if a.drop_first() == b.drop_first() {
                assert(a == seq![a[0]] + a.drop_first());
                assert(b == seq![b[0]] + b.drop_first());
            }
        }
    } else if a.len() == 0 && b.len() == 0 {
        assert(a =~= b);
    }
}

/// A text stands somewhere in another.
pub open spec fn has_text(s: Seq<char>, pat: Seq<char>) -> bool {
    exists|i: int| 0 <= i <= s.len() && starts_with(#[trigger] s.skip(i), pat)
}

pub fn contains_text(s: &str, pat: &str) -> (r: bool)
    ensures
        r == has_text(s@, pat@),
{
    let v = chars_of(s);
    let p = chars_of(pat);
    let n: usize = v.len();
    let mut i: usize = 0;
    while i < n
        invariant
            v@ == s@,
            p@ == pat@,
            n == v@.len(),
            i <= n,
            forall|k: int| 0 <= k < i ==> !starts_with(#[trigger] s@.skip(k), pat@),
        decreases n - i,
    {
        if matches_at(&v, i, &p) {
            return true;
        }
        i = i + 1;
    }
    matches_at(&v, n, &p)
}

/// A numeral is made of digits.
pub proof fn lemma_decimal_digits(n: nat)
    ensures
        forall|i: int| 0 <= i < decimal(n).len() ==> '0' <= #[trigger] decimal(n)[i] <= '9',
    decreases n,
{
    if n >= 10 {
        lemma_decimal_digits(n / 10);
        let rest = decimal(n / 10);
        assert forall|i: int| 0 <= i < decimal(n).len() implies '0' <= #[trigger] decimal(n)[i]
            <= '9' by {
            if i < rest.len() {
                assert(decimal(n)[i] == rest[i]);
            }
        }
    }
}

// ---- laws ----

/// Trimming takes white space from the two ends and nothing else, and leaves
/// none there.
pub proof fn trimming_takes_the_space_around(s: Seq<char>)
    ensures
        ({
            let t = trimmed(s);
            &&& exists|a: int, b: int|
                {
                    &&& 0 <= a <= b <= s.len()
                    &&& t == #[trigger] s.subrange(a, b)
                    &&& forall|i: int|
                        0 <= i < a || b <= i < s.len() ==> is_space(#[trigger] s[i])
                }
            &&& t.len() > 0 ==> !is_space(t[0]) && !is_space(t.last())
        }),
{
    let a = lemma_space_before(s);
    let u = trim_start(s);
    let b = lemma_space_behind(u);
    assert(u =~= s.skip(a));
    assert(trimmed(s) =~= s.subrange(a, a + b));
    assert forall|i: int| 0 <= i < a || a + b <= i < s.len() implies is_space(#[trigger] s[i]) by {
        if i >= a {
            assert(u[i - a] == s[i]);
        }
    }
    if b > 0 {
        assert(trimmed(s)[0] == u[0]);
    }
}

proof fn lemma_space_before(s: Seq<char>) -> (a: int)
    ensures
        0 <= a <= s.len(),
        trim_start(s) == s.skip(a),
        forall|i: int| 0 <= i < a ==> is_space(#[trigger] s[i]),
        a < s.len() ==> !is_space(s[a]),
    decreases s.len(),
{
    if s.len() > 0 && is_space(s[0]) {
        let rest = s.drop_first();
        let a = lemma_space_before(rest);
        assert(rest.skip(a) =~= s.skip(a + 1));
        assert forall|i: int| 0 <= i < a + 1 implies is_space(#[trigger] s[i]) by {
            if i > 0 {
                assert(rest[i - 1] == s[i]);
            }
        }
        if a < rest.len() {
            assert(rest[a] == s[a + 1]);
        }
        a + 1
    } else {
        assert(s.skip(0) =~= s);
        0
    }
}

proof fn lemma_space_behind(s: Seq<char>) -> (b: int)
    ensures
        0 <= b <= s.len(),
        trim_end(s) == s.take(b),
        forall|i: int| b <= i < s.len() ==> is_space(#[trigger] s[i]),
        b > 0 ==> !is_space(s[b - 1]),
    decreases s.len(),
{
    if s.len() > 0 && is_space(s.last()) {
        let rest = s.drop_last();
        let b = lemma_space_behind(rest);
        assert(rest.take(b) =~= s.take(b));
        assert forall|i: int| b <= i < s.len() implies is_space(#[trigger] s[i]) by {
            if i < rest.len() {
                assert(rest[i] == s[i]);
            }
        }
        b
    } else {
        assert(s.take(s.len() as int) =~= s);
        s.len() as int
    }
}

/// A text that neither starts nor ends with white space is trimmed already.
pub proof fn lemma_trimmed_already(s: Seq<char>)
    requires
        s.len() > 0 ==> !is_space(s[0]) && !is_space(s.last()),
    ensures
        trimmed(s) == s,
{
}

/// The pieces of a text hold no separator and, joined by it, are the text.
pub proof fn splitting_cuts_at_every_separator(s: Seq<char>, sep: char)
    ensures
        split(s, sep).len() > 0,
        joined(split(s, sep), seq![sep]) == s,
        forall|i: int| 0 <= i < split(s, sep).len() ==> !(#[trigger] split(s, sep)[i]).contains(sep),
    decreases s.len(),
{
    lemma_split_joined(s, sep);
    lemma_split_nonempty(s, sep);
    if s.len() > 0 {
        splitting_cuts_at_every_separator(s.drop_last(), sep);
        let before = split(s.drop_last(), sep);
        let after = split(s, sep);
        assert forall|i: int| 0 <= i < after.len() implies !(#[trigger] after[i]).contains(sep) by {
            if i < before.len() {
                assert(!before[i].contains(sep));
                if s.last() != sep && i == before.len() - 1 {
                    if after[i].contains(sep) {
                        let j = choose|j: int| 0 <= j < after[i].len() && after[i][j] == sep;
                        assert(before[i][j] == sep);
                    }
                }
            }
        }
    } else {
        assert(split(s, sep)[0].len() == 0);
    }
}

/// Joined pieces stand one after the other, with one separator between any two.
pub proof fn joining_puts_one_between_any_two(
    pieces: Seq<Seq<char>>,
    sep: Seq<char>,
    more: Seq<char>,
)
    ensures
        joined(Seq::empty(), sep) == Seq::<char>::empty(),
        joined(seq![more], sep) == more,
        pieces.len() > 0 ==> joined(pieces.push(more), sep) == joined(pieces, sep) + sep + more,
{
    assert(pieces.push(more).drop_last() =~= pieces);
}

/// A numeral has digits only, no zero before another digit, and stands for its
/// number.
pub proof fn a_numeral_stands_for_its_number(n: nat)
    ensures
        decimal(n).len() > 0,
        all_digits(decimal(n)),
        digits_value(decimal(n)) == n,
        decimal(n).len() > 1 ==> decimal(n)[0] != '0',
    decreases n,
{
    reveal_with_fuel(digits_value, 2);
    if n < 10 {
        assert(seq![digit_char(n)].drop_last() =~= Seq::empty());
    } else {
        a_numeral_stands_for_its_number(n / 10);
        let head = decimal(n / 10);
        let d = digit_char(n % 10);
        assert(head.push(d).drop_last() =~= head);
        assert forall|i: int| 0 <= i < decimal(n).len() implies is_digit(
            #[trigger] decimal(n)[i],
        ) by {
            if i < head.len() {
                assert(decimal(n)[i] == head[i]);
            }
        }
        if head.len() == 1 {
            assert(n / 10 >= 1);
            assert(head[0] != '0') by {
                if n / 10 < 10 {
                    assert(head[0] == digit_char(n / 10));
                }
            }
        }
        assert(decimal(n)[0] == head[0]);
    }
}

/// A numeral is read as its number, up to the largest that is asked for.
pub proof fn numerals_are_read_back(n: nat, max: nat)
    ensures
        unsigned(decimal(n), max) == (if n <= max {
            Some(n)
        } else {
            None
        }),
        unsigned(seq!['+'] + decimal(n), max) == unsigned(decimal(n), max),
        unsigned(seq!['-'] + decimal(n), max) is None,
        unsigned(Seq::empty(), max) is None,
{
    a_numeral_stands_for_its_number(n);
    let d = decimal(n);
    assert((seq!['+'] + d).drop_first() =~= d);
    assert(is_digit(d[0]));
    let m = seq!['-'] + d;
    assert(!is_digit(m[0]));
}

/// The place that is found is that of the first one.
pub proof fn the_first_one_is_found(s: Seq<char>, c: char)
    ensures
        0 <= find(s, c) <= s.len(),
        find(s, c) < s.len() ==> s[find(s, c)] == c,
        find(s, c) == s.len() <==> !s.contains(c),
        forall|i: int| 0 <= i < find(s, c) ==> (#[trigger] s[i]) != c,
    decreases s.len(),
{
    if s.len() > 0 && s[0] != c {
        let rest = s.drop_first();
        the_first_one_is_found(rest, c);
        assert forall|i: int| 0 <= i < find(s, c) implies (#[trigger] s[i]) != c by {
            if i > 0 {
                assert(rest[i - 1] == s[i]);
            }
        }
        if find(s, c) < s.len() {
            assert(s[find(s, c)] == rest[find(rest, c)]);
        }
    }
}

/// Stripping takes every leading or trailing `c`, and nothing else.
pub proof fn stripping_takes_the_ends(s: Seq<char>, c: char)
    ensures
        ({
            let t = without_trailing(s, c);
            &&& t.len() <= s.len()
            &&& t == s.take(t.len() as int)
            &&& t.len() > 0 ==> t.last() != c
            &&& forall|i: int| t.len() <= i < s.len() ==> (#[trigger] s[i]) == c
        }),
        ({
            let t = without_leading(s, c);
            let n = s.len() - t.len();
            &&& n >= 0
            &&& t == s.skip(n)
            &&& t.len() > 0 ==> t[0] != c
            &&& forall|i: int| 0 <= i < n ==> (#[trigger] s[i]) == c
        }),
    decreases s.len(),
{
    assert(s.take(s.len() as int) =~= s);
    assert(s.skip(0) =~= s);
    if s.len() > 0 && s.last() == c {
        let rest = s.drop_last();
        stripping_takes_the_ends(rest, c);
        let t = without_trailing(rest, c);
        assert(rest.take(t.len() as int) =~= s.take(t.len() as int));
        assert forall|i: int| t.len() <= i < s.len() implies (#[trigger] s[i]) == c by {
            if i < rest.len() {
                assert(rest[i] == s[i]);
            }
        }
    }
    if s.len() > 0 && s[0] == c {
        let rest = s.drop_first();
        stripping_takes_the_ends(rest, c);
        let t = without_leading(rest, c);
        let n = s.len() - t.len();
        assert(rest.skip(n - 1) =~= s.skip(n));
        assert forall|i: int| 0 <= i < n implies (#[trigger] s[i]) == c by {
            if i > 0 {
                assert(rest[i - 1] == s[i]);
            }
        }
    }
}

/// Case is that of the twenty-six letters, and no other character changes.
pub proof fn letters_change_their_case(c: char)
    ensures
        'a' <= c <= 'z' ==> upper(c) as int - 'A' as int == c as int - 'a' as int,
        !('a' <= c <= 'z') ==> upper(c) == c,
        'A' <= c <= 'Z' ==> lower(c) as int - 'a' as int == c as int - 'A' as int,
        !('A' <= c <= 'Z') ==> lower(c) == c,
{
}

/// The order of texts: of two different ones exactly one comes first; a text
/// comes before its continuations; else the first difference decides.
pub proof fn the_first_difference_decides(a: Seq<char>, b: Seq<char>, k: int)
    requires
        0 <= k <= a.len(),
        k <= b.len(),
        a.take(k) == b.take(k),
    ensures
        k < a.len() && k < b.len() && a[k] != b[k] ==> (text_lt(a, b) <==> a[k] < b[k]),
        k == a.len() ==> (text_lt(a, b) <==> a.len() < b.len()),
        k == b.len() ==> !text_lt(a, b),
    decreases k,
{
    if k > 0 {
        assert(a[0] == a.take(k)[0] && b[0] == b.take(k)[0]);
        let (x, y) = (a.drop_first(), b.drop_first());
        assert(x.take(k - 1) =~= a.take(k).drop_first());
        assert(y.take(k - 1) =~= b.take(k).drop_first());
        the_first_difference_decides(x, y, k - 1);
    }
}

} // verus!
