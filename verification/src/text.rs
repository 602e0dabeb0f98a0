//! Texts: comparing, ordering and writing them.

use itertools::Itertools;
use vstd::prelude::*;
use vstd::string::StringExecFns;

verus! {

/// Tells whether two string slices hold the same characters.
///
/// Trusted: calls `==` of std on `str`, which compares the two texts
/// character by character.
#[verifier::external_body]
pub(crate) fn same_text(a: &str, b: &str) -> (r: bool)
    ensures
        r == (a@ == b@),
{
    a == b
}


/// The texts of `v` as plain values.
pub open spec fn texts(v: Seq<String>) -> Seq<Seq<char>> {
    v.map_values(|t: String| t@)
}

/// `a` comes before `b` in the order of texts, or equals it: the texts are
/// compared character by character, and a text comes before its extensions.
pub open spec fn text_le(a: Seq<char>, b: Seq<char>) -> bool
    decreases a.len(),
{
    if a.len() == 0 {
        true
    } else if b.len() == 0 {
        false
    } else {
        (a[0] as u32) < (b[0] as u32) || (a[0] == b[0] && text_le(a.skip(1), b.skip(1)))
    }
}

/// The texts of `s` without repetitions: each text stands where it stood
/// first.
pub open spec fn first_occurrences(s: Seq<Seq<char>>) -> Seq<Seq<char>>
    decreases s.len(),
{
    if s.len() == 0 {
        s
    } else {
        let before = first_occurrences(s.drop_last());
        if before.contains(s.last()) {
            before
        } else {
            before.push(s.last())
        }
    }
}

/// `mark` written `times` times.
pub open spec fn repeated(mark: Seq<char>, times: int) -> Seq<char>
    decreases times,
{
    if times <= 0 {
        Seq::empty()
    } else {
        repeated(mark, times - 1) + mark
    }
}

/// Writes a ring for each of `slots` slots at the end of `text`.
pub fn append_rings(text: &mut String, slots: i32)
    ensures
        final(text)@ == old(text)@ + repeated(" ○"@, slots as int),
{
    let ghost start = text@;
    let mut i: i32 = 0;
    assert(start + repeated(" ○"@, 0) =~= start);
    while i < slots
        invariant
            0 <= i,
            i <= slots || slots < 0,
            slots < 0 ==> i == 0,
            text@ == start + repeated(" ○"@, i as int),
        decreases slots - i,
    {
        text.append(" ○");
        i += 1;
        assert(text@ =~= start + repeated(" ○"@, i as int));
    }
    assert(repeated(" ○"@, i as int) == repeated(" ○"@, slots as int));
}

/// The character of the digit `d`.
pub open spec fn digit(d: int) -> char {
    seq!['0', '1', '2', '3', '4', '5', '6', '7', '8', '9'][d]
}

/// The digits of `n` in base ten.
pub open spec fn decimal_digits(n: nat) -> Seq<char>
    decreases n,
{
    if n < 10 {
        seq![digit(n as int)]
    } else {
        decimal_digits(n / 10).push(digit((n % 10) as int))
    }
}

/// `n` written in base ten, with a minus sign where it is negative.
pub open spec fn decimal_text(n: int) -> Seq<char> {
    if n < 0 {
        seq!['-'] + decimal_digits((-n) as nat)
    } else {
        decimal_digits(n as nat)
    }
}

/// The character is a digit.
pub open spec fn is_digit(c: char) -> bool {
    '0' as u32 <= c as u32 <= '9' as u32
}

/// The text holds one digit at least, and digits only.
pub open spec fn is_digits(s: Seq<char>) -> bool {
    s.len() >= 1 && forall|i: int| 0 <= i < s.len() ==> is_digit(#[trigger] s[i])
}

/// The number that the digits of `s` write in base ten.
pub open spec fn digits_value(s: Seq<char>) -> int
    decreases s.len(),
{
    if s.len() == 0 {
        0
    } else {
        10 * digits_value(s.drop_last()) + (s.last() as u32 - '0' as u32)
    }
}

/// The text reads as an `i32`: after a sign, `+` or `-`, that may be left
/// out, it holds digits that write a number that an `i32` holds.
pub open spec fn reads_as_i32(s: Seq<char>) -> bool {
    if s.len() > 0 && s[0] == '-' {
        is_digits(s.skip(1)) && -digits_value(s.skip(1)) >= i32::MIN
    } else if s.len() > 0 && s[0] == '+' {
        is_digits(s.skip(1)) && digits_value(s.skip(1)) <= i32::MAX
    } else {
        is_digits(s) && digits_value(s) <= i32::MAX
    }
}

/// A text in lower case, as std makes it.
pub uninterp spec fn lower_case(s: Seq<char>) -> Seq<char>;

/// Writes `n` in base ten.
///
/// Trusted: calls `to_string` of std on an `i32`, which writes the digits in
/// base ten after a minus sign where the number is negative.
#[verifier::external_body]
pub(crate) fn decimal(n: i32) -> (r: String)
    ensures
        r@ == decimal_text(n as int),
{
    n.to_string()
}

/// Tells whether `s` reads as an `i32`.
///
/// Trusted: calls `str::parse::<i32>` of std, which takes a sign that may be
/// left out and digits after it, and fails on anything else and on a number
/// that an `i32` does not hold.
#[verifier::external_body]
pub(crate) fn is_i32(s: &str) -> (r: bool)
    ensures
        r == reads_as_i32(s@),
{
    s.parse::<i32>().is_ok()
}

/// Gives `s` in lower case.
///
/// Trusted: calls `str::to_lowercase` of std; the result depends on the text
/// alone and is given a name.
#[verifier::external_body]
pub(crate) fn to_lower(s: &str) -> (r: String)
    ensures
        r@ == lower_case(s@),
{
    s.to_lowercase()
}

/// Puts texts in ascending order.
///
/// Trusted: calls `Itertools::sorted`, which collects the items and sorts
/// them with `sort` of std. The claim is that the result holds the same texts
/// as often, in ascending order.
#[verifier::external_body]
pub(crate) fn sorted_texts(v: Vec<String>) -> (r: Vec<String>)
    ensures
        texts(r@).to_multiset() == texts(v@).to_multiset(),
        forall|i: int, j: int| 0 <= i < j < r.len() ==> text_le(r@[i]@, r@[j]@),
{
    v.into_iter().sorted().collect()
}

/// Drops the repetitions among texts.
///
/// Trusted: calls `Itertools::unique`, which hands on each item that it has
/// not handed on before. The claim is that each text is left where it stood
/// first.
#[verifier::external_body]
pub(crate) fn unique_texts(v: Vec<String>) -> (r: Vec<String>)
    ensures
        texts(r@) == first_occurrences(texts(v@)),
{
    v.into_iter().unique().collect()
}

/// `x` stands before `y` somewhere in `s`.
pub open spec fn stand_in_order(s: Seq<Seq<char>>, x: Seq<char>, y: Seq<char>) -> bool {
    exists|a: int, b: int| 0 <= a < b < s.len() && s[a] == x && s[b] == y
}

/// The texts of `first_occurrences(s)` are those of `s`, none stands twice,
/// and two of them stand in the order in which they stood in `s`.
pub proof fn lemma_first_occurrences(s: Seq<Seq<char>>)
    ensures
        forall|x: Seq<char>| first_occurrences(s).contains(x) <==> s.contains(x),
        forall|i: int, j: int|
            0 <= i < j < first_occurrences(s).len() ==> first_occurrences(s)[i]
                != first_occurrences(s)[j],
        forall|i: int, j: int|
            0 <= i < j < first_occurrences(s).len() ==> stand_in_order(
                s,
                #[trigger] first_occurrences(s)[i],
                #[trigger] first_occurrences(s)[j],
            ),
    decreases s.len(),
{
    let out = first_occurrences(s);
    if s.len() > 0 {
        let head = s.drop_last();
        let before = first_occurrences(head);
        lemma_first_occurrences(head);
        assert forall|x: Seq<char>| out.contains(x) <==> s.contains(x) by {
            if out.contains(x) {
                let w = choose|i: int| 0 <= i < out.len() && out[i] == x;
                if w < before.len() {
                    assert(before.contains(x));
                    assert(head.contains(x));
                    let u = choose|i: int| 0 <= i < head.len() && head[i] == x;
                    assert(s[u] == x);
                } else {
                    assert(s[s.len() - 1] == x);
                }
            }
            if s.contains(x) {
                let u = choose|i: int| 0 <= i < s.len() && s[i] == x;
                if u < head.len() {
                    assert(head[u] == x);
                    assert(head.contains(x));
                    assert(before.contains(x));
                    let w = choose|i: int| 0 <= i < before.len() && before[i] == x;
                    assert(out[w] == x);
                } else if before.contains(x) {
                    let w = choose|i: int| 0 <= i < before.len() && before[i] == x;
                    assert(out[w] == x);
                } else {
                    assert(out[before.len() as int] == x);
                }
            }
        }
        assert forall|i: int, j: int| 0 <= i < j < out.len() implies out[i] != out[j] by {
            if j >= before.len() {
                assert(before[i] == out[i]);
                assert(before.contains(out[i]));
            }
        }
        assert forall|i: int, j: int| 0 <= i < j < out.len() implies stand_in_order(
            s,
            #[trigger] out[i],
            #[trigger] out[j],
        ) by {
            if j < before.len() {
                assert(stand_in_order(head, before[i], before[j]));
                let (a, b) = choose|a: int, b: int|
                    0 <= a < b < head.len() && head[a] == before[i] && head[b] == before[j];
                assert(s[a] == out[i] && s[b] == out[j]);
            } else {
                assert(before.contains(before[i]));
                assert(head.contains(before[i]));
                let a = choose|a: int| 0 <= a < head.len() && head[a] == before[i];
                assert(s[a] == out[i] && s[s.len() - 1] == out[j]);
            }
        }
    }
}

} // verus!
