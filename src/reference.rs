//! Conversion between (row, column) coordinates and cell reference text, and
//! extraction of the references embedded in an expression.

use vstd::prelude::*;
use vstd::string::*;

verus! {

/// The column letters, in order.
pub open spec fn letters() -> Seq<char> {
    seq![
        'a', 'b', 'c', 'd', 'e', 'f', 'g', 'h', 'i', 'j', 'k', 'l', 'm',
        'n', 'o', 'p', 'q', 'r', 's', 't', 'u', 'v', 'w', 'x', 'y', 'z',
    ]
}

/// The decimal digit characters, in order.
pub open spec fn digit_chars() -> Seq<char> {
    seq!['0', '1', '2', '3', '4', '5', '6', '7', '8', '9']
}

pub open spec fn is_ascii_letter(c: char) -> bool {
    ('a' <= c && c <= 'z') || ('A' <= c && c <= 'Z')
}

pub open spec fn is_ascii_digit(c: char) -> bool {
    '0' <= c && c <= '9'
}

/// The column that a letter names, ignoring case: `a` is column 0.
pub open spec fn column_of_letter(c: char) -> int {
    if 'a' <= c && c <= 'z' {
        c as int - 'a' as int
    } else {
        c as int - 'A' as int
    }
}

pub open spec fn all_digits(s: Seq<char>) -> bool {
    forall|k: int| 0 <= k < s.len() ==> is_ascii_digit(#[trigger] s[k])
}

/// The number that a string of decimal digits denotes.
pub open spec fn digits_value(s: Seq<char>) -> int
    decreases s.len(),
{
    if s.len() == 0 {
        0
    } else {
        digits_value(s.drop_last()) * 10 + (s.last() as int - '0' as int)
    }
}

/// The decimal text of `n`, without leading zeros.
pub open spec fn decimal(n: nat) -> Seq<char>
    decreases n,
{
    if n < 10 {
        seq![digit_chars()[n as int]]
    } else {
        decimal(n / 10).push(digit_chars()[(n % 10) as int])
    }
}

/// The reference text of a coordinate: the column letter, then the 1-based
/// row number.
pub open spec fn reference_text(row: nat, column: nat) -> Seq<char> {
    seq![letters()[column as int]] + decimal(row + 1)
}

/// The coordinate that a reference text names: one letter (either case)
/// followed by the decimal digits of a row number from 1 up to `usize::MAX`.
pub open spec fn decode_reference(s: Seq<char>) -> Option<(int, int)> {
    let digits = s.drop_first();
    if s.len() >= 2 && is_ascii_letter(s[0]) && all_digits(digits) && 1 <= digits_value(digits)
        <= usize::MAX {
        Some((digits_value(digits) - 1, column_of_letter(s[0])))
    } else {
        None
    }
}

pub open spec fn parse_error_message(s: Seq<char>) -> Seq<char> {
    "Unable to parse cell reference: "@ + s
}

proof fn lemma_digits_value_nonneg(s: Seq<char>)
    requires
        all_digits(s),
    ensures
        digits_value(s) >= 0,
    decreases s.len(),
{
    if s.len() > 0 {
        lemma_digits_value_nonneg(s.drop_last());
    }
}

proof fn lemma_digit_chars(k: int)
    requires
        0 <= k < 10,
    ensures
        digit_chars()[k] as int == '0' as int + k,
        is_ascii_digit(digit_chars()[k]),
{
    let d = digit_chars();
    assert(d[0] == '0' && d[1] == '1' && d[2] == '2' && d[3] == '3' && d[4] == '4');
    assert(d[5] == '5' && d[6] == '6' && d[7] == '7' && d[8] == '8' && d[9] == '9');
}

proof fn lemma_decimal_digits(n: nat)
    ensures
        all_digits(decimal(n)),
        decimal(n).len() >= 1,
        digits_value(decimal(n)) == n,
    decreases n,
{
    lemma_digit_chars((n % 10) as int);
    if n >= 10 {
        lemma_decimal_digits(n / 10);
        let d = decimal(n / 10);
        assert(decimal(n).drop_last() =~= d);
        assert(decimal(n).last() == digit_chars()[(n % 10) as int]);
        assert(digits_value(decimal(n)) == digits_value(d) * 10 + (n % 10));
    } else {
        assert(decimal(n).drop_last() =~= Seq::<char>::empty());
        assert(digits_value(decimal(n)) == digits_value(Seq::<char>::empty()) * 10 + n);
    }
}

/// Decoding the reference text of a coordinate gives the coordinate back.
pub proof fn lemma_reference_round_trip(row: nat, column: nat)
    requires
        column < 26,
        row < usize::MAX,
    ensures
        decode_reference(reference_text(row, column)) == Some((row as int, column as int)),
{
    let s = reference_text(row, column);
    lemma_decimal_digits(row + 1);
    assert(s.drop_first() =~= decimal(row + 1));
}

proof fn lemma_letters(s: char)
    requires
        'a' <= s <= 'z',
    ensures
        letters()[column_of_letter(s)] == s,
{
    let l = letters();
    assert(l[0] == 'a' && l[1] == 'b' && l[2] == 'c' && l[3] == 'd' && l[4] == 'e' && l[5] == 'f');
    assert(l[6] == 'g' && l[7] == 'h' && l[8] == 'i' && l[9] == 'j' && l[10] == 'k' && l[11] == 'l');
    assert(l[12] == 'm' && l[13] == 'n' && l[14] == 'o' && l[15] == 'p' && l[16] == 'q');
    assert(l[17] == 'r' && l[18] == 's' && l[19] == 't' && l[20] == 'u' && l[21] == 'v');
    assert(l[22] == 'w' && l[23] == 'x' && l[24] == 'y' && l[25] == 'z');
}

proof fn lemma_decimal_of_digits(d: Seq<char>)
    requires
        d.len() >= 1,
        all_digits(d),
        d.len() == 1 || d[0] != '0',
    ensures
        digits_value(d) >= 0,
        decimal(digits_value(d) as nat) == d,
    decreases d.len(),
{
    lemma_digits_value_nonneg(d);
    let c = d.last();
    assert(is_ascii_digit(d[d.len() - 1]));
    let x = c as int - '0' as int;
    lemma_digit_chars(x);
    if d.len() == 1 {
        assert(d.drop_last() =~= Seq::<char>::empty());
        assert(digits_value(Seq::<char>::empty()) == 0);
        assert(digits_value(d) == x);
        assert(decimal(x as nat)[0] == digit_chars()[x]);
        assert(digit_chars()[x] as int == c as int);
        assert(decimal(digits_value(d) as nat) =~= d);
    } else {
        let p = d.drop_last();
        assert(all_digits(p));
        assert(p[0] == d[0]);
        lemma_decimal_of_digits(p);
        lemma_digits_value_prefix(p, 1);
        let q = p.subrange(0, 1);
        assert(q.drop_last() =~= Seq::<char>::empty());
        assert(digits_value(Seq::<char>::empty()) == 0);
        assert(q.last() == p[0]);
        assert(digits_value(q) == p[0] as int - '0' as int);
        assert(is_ascii_digit(p[0]));
        assert(digits_value(p.subrange(0, 1)) >= 1);
        let v = digits_value(d);
        assert(v == digits_value(p) * 10 + x);
        assert(v / 10 == digits_value(p));
        assert(v % 10 == x);
        assert(digit_chars()[x] as int == c as int);
        assert(decimal(v as nat) =~= d);
    }
}

/// A reference text in canonical form (lower-case letter, row number without
/// leading zeros) is the reference text of the coordinate it decodes to.
pub proof fn lemma_canonical_text_round_trip(s: Seq<char>)
    requires
        decode_reference(s) is Some,
        'a' <= s[0] <= 'z',
        s.len() == 2 || s[1] != '0',
    ensures
        decode_reference(s) matches Some(p) && reference_text(p.0 as nat, p.1 as nat) == s,
{
    let d = s.drop_first();
    lemma_decimal_of_digits(d);
    lemma_letters(s[0]);
    let p = decode_reference(s)->Some_0;
    assert(reference_text(p.0 as nat, p.1 as nat) =~= s);
}

fn digit_char(d: usize) -> (c: char)
    requires
        d < 10,
    ensures
        c == digit_chars()[d as int],
{
    proof {
        lemma_digit_chars(d as int);
    }
    ((d as u8) + 48u8) as char
}

fn push_decimal(n: usize, out: &mut Vec<char>)
    ensures
        final(out)@ == old(out)@ + decimal(n as nat),
    decreases n,
{
    if n >= 10 {
        push_decimal(n / 10, out);
    }
    out.push(digit_char(n % 10));
    proof {
        assert(final(out)@ =~= old(out)@ + decimal(n as nat));
    }
}

/// Relies on std's `FromIterator<char>` for `String`: the string holds the
/// characters in order.
#[verifier::external_body]
pub(crate) fn string_of_chars(v: &Vec<char>) -> (r: String)
    ensures
        r@ == v@,
{
    v.iter().collect()
}

/// Converts a coordinate to its reference text, e.g. (3, 5) gives "f4".
/// Columns from 26 on have no letter.
pub fn index_to_cell_reference(index: &(usize, usize)) -> (r: Result<String, String>)
    requires
        index.1 >= 26 || index.0 < usize::MAX,
    ensures
        index.1 < 26 ==> r is Ok && r->Ok_0@ == reference_text(index.0 as nat, index.1 as nat),
        index.1 >= 26 ==> r is Err && r->Err_0@ == "Index out of bounds"@,
{
    let (row, column) = *index;
    if column >= 26 {
        return Err(String::from_str("Index out of bounds"));
    }
    let mut chars: Vec<char> = Vec::new();
    chars.push(((column as u8) + 97u8) as char);
    push_decimal(row + 1, &mut chars);
    proof {
        assert(chars@ =~= reference_text(row as nat, column as nat));
    }
    Ok(string_of_chars(&chars))
}

proof fn lemma_digits_value_prefix(s: Seq<char>, j: int)
    requires
        all_digits(s),
        0 <= j <= s.len(),
    ensures
        digits_value(s.subrange(0, j)) <= digits_value(s),
    decreases s.len(),
{
    if j < s.len() {
        assert(s.drop_last() =~= s.subrange(0, s.len() - 1));
        if j == s.len() - 1 {
            assert(s.subrange(0, j) =~= s.drop_last());
        } else {
            lemma_digits_value_prefix(s.drop_last(), j);
            assert(s.drop_last().subrange(0, j) =~= s.subrange(0, j));
        }
        lemma_digits_value_nonneg(s.drop_last());
    } else {
        assert(s.subrange(0, j) =~= s);
    }
}

fn parse_error(cell_reference: &str) -> (e: String)
    ensures
        e@ == parse_error_message(cell_reference@),
{
    let mut e = String::from_str("Unable to parse cell reference: ");
    e.append(cell_reference);
    e
}

/// Converts reference text to a coordinate, e.g. "e7" gives (6, 4). The
/// letter may be of either case.
pub fn cell_reference_to_index(cell_reference: &str) -> (r: Result<(usize, usize), String>)
    ensures
        match decode_reference(cell_reference@) {
            Some(p) => r == Ok::<(usize, usize), String>((p.0 as usize, p.1 as usize)),
            None => r is Err && r->Err_0@ == parse_error_message(cell_reference@),
        },
{
    let ghost s = cell_reference@;
    let n = cell_reference.unicode_len();
    if n < 2 {
        return Err(parse_error(cell_reference));
    }
    let first = cell_reference.get_char(0);
    let column: usize;
    if 'a' <= first && first <= 'z' {
        column = (first as u32 - 'a' as u32) as usize;
    } else if 'A' <= first && first <= 'Z' {
        column = (first as u32 - 'A' as u32) as usize;
    } else {
        return Err(parse_error(cell_reference));
    }
    let ghost digits = s.drop_first();
    let mut value: usize = 0;
    let mut i: usize = 1;
    while i < n
        invariant
            n == s.len(),
            s == cell_reference@,
            digits == s.drop_first(),
            1 <= i <= n,
            all_digits(s.subrange(1, i as int)),
            value as int == digits_value(s.subrange(1, i as int)),
        decreases n - i,
    {
        let c = cell_reference.get_char(i);
        if !('0' <= c && c <= '9') {
            proof {
                assert(digits[i - 1] == c);
            }
            return Err(parse_error(cell_reference));
        }
        let d = (c as u32 - '0' as u32) as usize;
        proof {
            assert(s.subrange(1, i + 1).drop_last() =~= s.subrange(1, i as int));
        }
        if value > (usize::MAX - d) / 10 {
            proof {
                assert(digits_value(s.subrange(1, i + 1)) > usize::MAX);
                assert(all_digits(s.subrange(1, i + 1)));
                assert(digits.subrange(0, i as int) =~= s.subrange(1, i + 1));
                if all_digits(digits) {
                    lemma_digits_value_prefix(digits, i as int);
                }
            }
            return Err(parse_error(cell_reference));
        }
        value = value * 10 + d;
        i = i + 1;
    }
    proof {
        assert(s.subrange(1, n as int) =~= digits);
    }
    if value == 0 {
        return Err(parse_error(cell_reference));
    }
    Ok((value - 1, column))
}

/// The number of consecutive digits in `s` from position `j` on.
pub open spec fn digit_run_len(s: Seq<char>, j: int) -> nat
    decreases s.len() - j,
{
    if 0 <= j < s.len() && is_ascii_digit(s[j]) {
        1 + digit_run_len(s, j + 1)
    } else {
        0
    }
}

proof fn lemma_digit_run_len_bound(s: Seq<char>, j: int)
    requires
        0 <= j <= s.len(),
    ensures
        j + digit_run_len(s, j) <= s.len(),
    decreases s.len() - j,
{
    if j < s.len() {
        lemma_digit_run_len_bound(s, j + 1);
    }
}

/// The spans (start, end) of the references in `s` from position `i` on,
/// left to right: each is a letter followed by all the digits after it.
pub open spec fn reference_spans_from(s: Seq<char>, i: int) -> Seq<(int, int)>
    decreases s.len() - i,
    via reference_spans_from_decreases
{
    if i < 0 || i >= s.len() {
        seq![]
    } else if is_ascii_letter(s[i]) && i + 1 < s.len() && is_ascii_digit(s[i + 1]) {
        let e = i + 1 + digit_run_len(s, i + 1);
        seq![(i, e)] + reference_spans_from(s, e)
    } else {
        reference_spans_from(s, i + 1)
    }
}

#[via_fn]
proof fn reference_spans_from_decreases(s: Seq<char>, i: int) {
    if 0 <= i < s.len() && i + 1 < s.len() {
        lemma_digit_run_len_bound(s, i + 1);
    }
}

pub open spec fn reference_spans(s: Seq<char>) -> Seq<(int, int)> {
    reference_spans_from(s, 0)
}

/// The text of the `k`-th reference found in `s`.
pub open spec fn reference_at(s: Seq<char>, k: int) -> Seq<char> {
    s.subrange(reference_spans(s)[k].0, reference_spans(s)[k].1)
}

/// Every reference found in `s` names a coordinate.
pub open spec fn references_decode(s: Seq<char>) -> bool {
    forall|k: int|
        0 <= k < reference_spans(s).len() ==> (#[trigger] decode_reference(reference_at(s, k))) is Some
}

fn digit_at(string: &str, j: usize) -> (r: bool)
    ensures
        r == (j < string@.len() && is_ascii_digit(string@[j as int])),
{
    if j < string.unicode_len() {
        let d = string.get_char(j);
        '0' <= d && d <= '9'
    } else {
        false
    }
}

/// The spans of the references in `string`, left to right.
pub fn find_reference_spans(string: &str) -> (r: Vec<(usize, usize)>)
    ensures
        r@.len() == reference_spans(string@).len(),
        forall|k: int|
            0 <= k < r@.len() ==> (#[trigger] r@[k]).0 as int == reference_spans(string@)[k].0
                && r@[k].1 as int == reference_spans(string@)[k].1,
        forall|k: int| 0 <= k < r@.len() ==> (#[trigger] r@[k]).0 <= r@[k].1 <= string@.len(),
        forall|k: int| 0 < k < r@.len() ==> r@[k - 1].1 <= (#[trigger] r@[k]).0,
{
    let ghost s = string@;
    let n = string.unicode_len();
    let mut out: Vec<(usize, usize)> = Vec::new();
    let mut i: usize = 0;
    while i < n
        invariant
            n == s.len(),
            s == string@,
            i <= n,
            reference_spans(s) == out@.map_values(|p: (usize, usize)| (p.0 as int, p.1 as int))
                + reference_spans_from(s, i as int),
            forall|k: int| 0 <= k < out@.len() ==> (#[trigger] out@[k]).0 <= out@[k].1 <= i,
            forall|k: int| 0 < k < out@.len() ==> out@[k - 1].1 <= (#[trigger] out@[k]).0,
        decreases n - i,
    {
        let c = string.get_char(i);
        let is_letter = ('a' <= c && c <= 'z') || ('A' <= c && c <= 'Z');
        if is_letter && digit_at(string, i + 1) {
            let mut j: usize = i + 1;
            proof {
                lemma_digit_run_len_bound(s, i + 1);
            }
            while digit_at(string, j)
                invariant
                    n == s.len(),
                    s == string@,
                    i + 1 <= j <= n,
                    i + 1 < n,
                    j + digit_run_len(s, j as int) == i + 1 + digit_run_len(s, i + 1),
                decreases n - j,
            {
                j = j + 1;
            }
            let ghost e = i + 1 + digit_run_len(s, i + 1);
            assert(j == e);
            let ghost prev = out@;
            let ghost rest = reference_spans_from(s, e);
            assert(reference_spans_from(s, i as int) == seq![(i as int, e)] + rest);
            out.push((i, j));
            proof {
                let f = |p: (usize, usize)| (p.0 as int, p.1 as int);
                assert(out@.map_values(f) =~= prev.map_values(f).push((i as int, e)));
                assert(reference_spans(s) =~= out@.map_values(f) + rest);
            }
            i = j;
        } else {
            assert(reference_spans_from(s, i as int) == reference_spans_from(s, i + 1));
            i = i + 1;
        }
    }
    proof {
        let f = |p: (usize, usize)| (p.0 as int, p.1 as int);
        assert(reference_spans(s) =~= out@.map_values(f));
        assert forall|k: int| 0 <= k < out@.len() implies (#[trigger] out@[k]).0 as int
            == reference_spans(s)[k].0 && out@[k].1 as int == reference_spans(s)[k].1 by {
            assert(out@.map_values(f)[k] == f(out@[k]));
        }
    }
    out
}

/// Finds the cell references in an expression, left to right, with the
/// coordinate of each: "1 a4 + 14 - h2" gives [("a4", (3, 0)), ("h2", (1, 7))].
/// A reference that occurs twice is listed twice. Fails where a reference's
/// row number is out of range.
pub fn extract_cell_references_with_indexes(string: &str) -> (r: Result<
    Vec<(&str, (usize, usize))>,
    String,
>)
    ensures
        r is Ok <==> references_decode(string@),
        r matches Ok(v) ==> {
            &&& v@.len() == reference_spans(string@).len()
            &&& forall|k: int|
                0 <= k < v@.len() ==> {
                    &&& (#[trigger] v@[k]).0@ == reference_at(string@, k)
                    &&& decode_reference(reference_at(string@, k)) == Some(
                        (v@[k].1.0 as int, v@[k].1.1 as int),
                    )
                }
        },
        r matches Err(e) ==> exists|k: int|
            0 <= k < reference_spans(string@).len() && decode_reference(reference_at(string@, k))
                is None && e@ == parse_error_message(#[trigger] reference_at(string@, k)),
{
    let spans = find_reference_spans(string);
    let mut out: Vec<(&str, (usize, usize))> = Vec::new();
    let mut k: usize = 0;
    while k < spans.len()
        invariant
            spans@.len() == reference_spans(string@).len(),
            forall|j: int|
                0 <= j < spans@.len() ==> (#[trigger] spans@[j]).0 as int == reference_spans(
                    string@,
                )[j].0 && spans@[j].1 as int == reference_spans(string@)[j].1,
            forall|j: int| 0 <= j < spans@.len() ==> (#[trigger] spans@[j]).0 <= spans@[j].1 <= string@.len(),
            k <= spans@.len(),
            out@.len() == k,
            forall|j: int|
                0 <= j < k ==> {
                    &&& (#[trigger] out@[j]).0@ == reference_at(string@, j)
                    &&& decode_reference(reference_at(string@, j)) == Some(
                        (out@[j].1.0 as int, out@[j].1.1 as int),
                    )
                },
        decreases spans@.len() - k,
    {
        let (from, to) = spans[k];
        let text = string.substring_char(from, to);
        match cell_reference_to_index(text) {
            Ok(index) => {
                out.push((text, index));
            },
            Err(err) => {
                assert(reference_at(string@, k as int) == text@);
                return Err(err);
            },
        }
        k = k + 1;
    }
    proof {
        assert forall|j: int| 0 <= j < reference_spans(string@).len() implies (
        #[trigger] decode_reference(reference_at(string@, j))) is Some by {
            assert(out@[j].0@ == reference_at(string@, j));
        }
    }
    Ok(out)
}

} // verus!
