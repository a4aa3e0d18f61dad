//! Small string helpers shared by the other modules.

use vstd::prelude::*;
use vstd::string::StringExecFns;

verus! {

/// `String::push` appends one character.
pub assume_specification[ String::push ](s: &mut String, ch: char)
    ensures
        final(s)@ == old(s)@.push(ch),
;

/// `str`'s `==` compares the characters.
pub assume_specification[ <str as PartialEq>::eq ](a: &str, b: &str) -> (r: bool)
    ensures
        r == (a@ == b@),
;

/// Whether two string slices hold the same characters.
pub fn str_eq(a: &str, b: &str) -> (r: bool)
    ensures
        r == (a@ == b@),
{
    a.eq(b)
}

/// The decimal digit for `d`, for `0 <= d < 10`.
pub open spec fn decimal_digit(d: int) -> char {
    if d == 0 {
        '0'
    } else if d == 1 {
        '1'
    } else if d == 2 {
        '2'
    } else if d == 3 {
        '3'
    } else if d == 4 {
        '4'
    } else if d == 5 {
        '5'
    } else if d == 6 {
        '6'
    } else if d == 7 {
        '7'
    } else if d == 8 {
        '8'
    } else {
        '9'
    }
}

/// The decimal numeral of `n`, without leading zeros.
pub open spec fn decimal(n: nat) -> Seq<char>
    decreases n,
{
    if n < 10 {
        seq![decimal_digit(n as int)]
    } else {
        decimal(n / 10).push(decimal_digit((n % 10) as int))
    }
}

fn digit_char(d: u32) -> (c: char)
    requires
        d < 10,
    ensures
        c == decimal_digit(d as int),
{
    if d == 0 {
        '0'
    } else if d == 1 {
        '1'
    } else if d == 2 {
        '2'
    } else if d == 3 {
        '3'
    } else if d == 4 {
        '4'
    } else if d == 5 {
        '5'
    } else if d == 6 {
        '6'
    } else if d == 7 {
        '7'
    } else if d == 8 {
        '8'
    } else {
        '9'
    }
}

/// Appends the decimal numeral of `n` to `out`.
pub fn push_decimal(out: &mut String, n: u32)
    ensures
        final(out)@ == old(out)@ + decimal(n as nat),
    decreases n,
{
    if n >= 10 {
        push_decimal(out, n / 10);
    }
    out.push(digit_char(n % 10));
}

/// `text` ends in `suffix`.
pub open spec fn ends_with(text: Seq<char>, suffix: Seq<char>) -> bool {
    suffix.len() <= text.len() && text.skip(text.len() - suffix.len()) == suffix
}

/// `text` without the last `n` characters.
pub open spec fn without_last(text: Seq<char>, n: nat) -> Seq<char> {
    text.take(text.len() - n)
}

/// What is left of `text` when `suffix` is taken off its end; `None` where
/// `text` does not end in `suffix`.
pub fn strip_suffix(text: &str, suffix: &str) -> (stem: Option<String>)
    ensures
        stem.deep_view() == if ends_with(text@, suffix@) {
            Some(without_last(text@, suffix@.len()))
        } else {
            None
        },
{
    let chars = chars_of(text);
    let ending = chars_of(suffix);
    let n = chars.len();
    let m = ending.len();
    if m > n {
        return None;
    }
    let mut i: usize = 0;
    while i < m
        invariant
            i <= m <= n,
            n == chars.len(),
            m == ending.len(),
            chars@ == text@,
            ending@ == suffix@,
            forall|k: int| 0 <= k < i ==> chars@[n - m + k] == ending@[k],
        decreases m - i,
    {
        if chars[n - m + i] != ending[i] {
            assert(chars@.skip(n - m)[i as int] != ending@[i as int]);
            return None;
        }
        i += 1;
    }
    assert(chars@.skip(n - m) =~= ending@);
    let mut stem = String::new();
    let mut k: usize = 0;
    while k < n - m
        invariant
            k <= n - m,
            m <= n,
            n == chars.len(),
            stem@ == chars@.take(k as int),
        decreases n - m - k,
    {
        stem.push(chars[k]);
        k += 1;
        assert(stem@ =~= chars@.take(k as int));
    }
    Some(stem)
}

/// The order of strings: character by character, the shorter one first where
/// one is the beginning of the other.
pub open spec fn text_le(a: Seq<char>, b: Seq<char>) -> bool
    decreases a.len(),
{
    if a.len() == 0 {
        true
    } else if b.len() == 0 {
        false
    } else if a[0] == b[0] {
        text_le(a.drop_first(), b.drop_first())
    } else {
        (a[0] as u32) < (b[0] as u32)
    }
}

/// `texts` is in ascending order.
pub open spec fn sorted(texts: Seq<Seq<char>>) -> bool {
    forall|i: int, j: int| 0 <= i <= j < texts.len() ==> text_le(texts[i], texts[j])
}

/// Two strings each of which stands before the other are the same string.
pub proof fn lemma_text_le_antisymmetric(a: Seq<char>, b: Seq<char>)
    requires
        text_le(a, b),
        text_le(b, a),
    ensures
        a == b,
    decreases a.len(),
{
    if a.len() == 0 {
        assert(b.len() == 0);
        assert(a =~= b);
    } else {
        assert(b.len() > 0);
        if a[0] == b[0] {
            lemma_text_le_antisymmetric(a.drop_first(), b.drop_first());
            assert(a =~= seq![a[0]] + a.drop_first());
            assert(b =~= seq![b[0]] + b.drop_first());
        }
    }
}

/// There is one ascending order of given strings: two ascending sequences
/// that hold the same strings as often are the same sequence.
pub proof fn lemma_sorted_unique(a: Seq<Seq<char>>, b: Seq<Seq<char>>)
    requires
        sorted(a),
        sorted(b),
        a.to_multiset() == b.to_multiset(),
    ensures
        a == b,
    decreases a.len(),
{
    vstd::seq_lib::to_multiset_len(a);
    vstd::seq_lib::to_multiset_len(b);
    if a.len() == 0 {
        assert(a =~= b);
    } else {
        vstd::seq_lib::to_multiset_contains(a, a[0]);
        vstd::seq_lib::to_multiset_contains(b, a[0]);
        vstd::seq_lib::to_multiset_contains(a, b[0]);
        vstd::seq_lib::to_multiset_contains(b, b[0]);
        assert(a.contains(a[0]));
        assert(b.contains(b[0]));
        let j = choose|j: int| 0 <= j < b.len() && b[j] == a[0];
        let i = choose|i: int| 0 <= i < a.len() && a[i] == b[0];
        assert(text_le(b[0], b[j]));
        assert(text_le(a[0], a[i]));
        lemma_text_le_antisymmetric(a[0], b[0]);
        vstd::seq_lib::to_multiset_remove(a, 0);
        vstd::seq_lib::to_multiset_remove(b, 0);
        assert(a.remove(0) =~= a.drop_first());
        assert(b.remove(0) =~= b.drop_first());
        assert(sorted(a.drop_first())) by {
            assert forall|x: int, y: int| 0 <= x <= y < a.drop_first().len() implies text_le(
                a.drop_first()[x],
                a.drop_first()[y],
            ) by {
                assert(text_le(a[x + 1], a[y + 1]));
            }
        }
        assert(sorted(b.drop_first())) by {
            assert forall|x: int, y: int| 0 <= x <= y < b.drop_first().len() implies text_le(
                b.drop_first()[x],
                b.drop_first()[y],
            ) by {
                assert(text_le(b[x + 1], b[y + 1]));
            }
        }
        lemma_sorted_unique(a.drop_first(), b.drop_first());
        assert(a =~= seq![a[0]] + a.drop_first());
        assert(b =~= seq![b[0]] + b.drop_first());
    }
}

/// `<[String]>::sort`: the same strings, in ascending order. `String`s are
/// ordered character by character, by their place in the code charts.
#[verifier::external_body]
pub(crate) fn sort_strings(texts: &mut Vec<String>)
    ensures
        final(texts).deep_view().to_multiset() == old(texts).deep_view().to_multiset(),
        sorted(final(texts).deep_view()),
{
    texts.sort();
}

/// The text cut off after `max` characters, with three dots where something
/// was cut off.
pub open spec fn truncated(text: Seq<char>, max: nat) -> Seq<char> {
    if text.len() > max {
        text.take(max as int) + "..."@
    } else {
        text
    }
}

/// Cuts `text` off after `max` characters and marks the cut with three dots.
pub fn truncate(text: &str, max: usize) -> (short: String)
    ensures
        short@ == truncated(text@, max as nat),
{
    if text.unicode_len() > max {
        let mut short = text.substring_char(0, max).to_owned();
        short.append("...");
        short
    } else {
        text.to_owned()
    }
}

/// The characters of `text`.
pub fn chars_of(text: &str) -> (chars: Vec<char>)
    ensures
        chars@ == text@,
{
    let mut chars: Vec<char> = Vec::new();
    for c in it: text.chars()
        invariant
            chars@ == it.seq().take(it.index() as int),
            it.seq() == text@,
    {
        chars.push(c);
        assert(chars@ =~= it.seq().take(it.index() + 1));
    }
    assert(text@.take(text@.len() as int) =~= text@);
    chars
}

/// `text` without the white space at its beginning and its end.
pub uninterp spec fn trimmed(text: Seq<char>) -> Seq<char>;

/// `text` in lower case.
pub uninterp spec fn lowercased(text: Seq<char>) -> Seq<char>;

/// `str::trim`: the text without leading and trailing white space, which
/// depends on the characters alone.
#[verifier::external_body]
pub(crate) fn trim(text: &str) -> (r: String)
    ensures
        r@ == trimmed(text@),
{
    text.trim().to_owned()
}

/// `str::to_lowercase`: the lower-case equivalent of the text, which depends
/// on the characters alone.
#[verifier::external_body]
pub(crate) fn to_lowercase(text: &str) -> (r: String)
    ensures
        r@ == lowercased(text@),
{
    text.to_lowercase()
}

/// Appends the characters of `chars` from `from` on to `out`.
pub(crate) fn push_chars(out: &mut String, chars: &Vec<char>, from: usize)
    requires
        from <= chars.len(),
    ensures
        final(out)@ == old(out)@ + chars@.skip(from as int),
{
    let mut i: usize = from;
    assert(chars@.skip(from as int).take(0) =~= Seq::empty());
    while i < chars.len()
        invariant
            from <= i <= chars.len(),
            out@ == old(out)@ + chars@.skip(from as int).take(i - from),
        decreases chars.len() - i,
    {
        out.push(chars[i]);
        i += 1;
        assert(out@ =~= old(out)@ + chars@.skip(from as int).take(i - from));
    }
    assert(chars@.skip(from as int).take(i - from) =~= chars@.skip(from as int));
}

} // verus!
