//! Decimal rendering and parsing of the integers that appear in responses
//! ("there are currently {n}") and in the node's `port=<n>` argument.

use vstd::prelude::*;
use vstd::string::StringExecFns;

verus! {

/// The character for one decimal digit.
pub open spec fn decimal_digit(d: nat) -> char
    recommends
        d < 10,
{
    seq!['0', '1', '2', '3', '4', '5', '6', '7', '8', '9'][d as int]
}

/// The decimal rendering of a natural number, most significant digit first,
/// with no leading zeros (a single `'0'` for zero).
pub open spec fn spec_decimal(n: nat) -> Seq<char>
    decreases n,
{
    if n < 10 {
        seq![decimal_digit(n)]
    } else {
        spec_decimal(n / 10).push(decimal_digit(n % 10))
    }
}

/// The digit characters of a digit sequence, in reverse order.
spec fn rev_digit_chars(ds: Seq<u8>) -> Seq<char>
    decreases ds.len(),
{
    if ds.len() == 0 {
        Seq::empty()
    } else {
        seq![decimal_digit(ds.last() as nat)] + rev_digit_chars(ds.drop_last())
    }
}

proof fn lemma_rev_digit_chars_first(ds: Seq<u8>)
    requires
        ds.len() > 0,
    ensures
        rev_digit_chars(ds) == rev_digit_chars(ds.drop_first()) + seq![
            decimal_digit(ds[0] as nat),
        ],
    decreases ds.len(),
{
    if ds.len() == 1 {
        assert(rev_digit_chars(ds.drop_last()) =~= Seq::<char>::empty());
        assert(rev_digit_chars(ds.drop_first()) =~= Seq::<char>::empty());
        assert(rev_digit_chars(ds) =~= rev_digit_chars(ds.drop_first()) + seq![
            decimal_digit(ds[0] as nat),
        ]);
    } else {
        lemma_rev_digit_chars_first(ds.drop_last());
        assert(ds.drop_last().drop_first() =~= ds.drop_first().drop_last());
        assert(ds.drop_first().last() == ds.last());
        assert(rev_digit_chars(ds) =~= rev_digit_chars(ds.drop_first()) + seq![
            decimal_digit(ds[0] as nat),
        ]);
    }
}

fn digit_str(d: u8) -> (s: &'static str)
    requires
        d < 10,
    ensures
        s@ =~= seq![decimal_digit(d as nat)],
{
    proof {
        reveal_strlit("0");
        reveal_strlit("1");
        reveal_strlit("2");
        reveal_strlit("3");
        reveal_strlit("4");
        reveal_strlit("5");
        reveal_strlit("6");
        reveal_strlit("7");
        reveal_strlit("8");
        reveal_strlit("9");
    }
    match d {
        0 => "0",
        1 => "1",
        2 => "2",
        3 => "3",
        4 => "4",
        5 => "5",
        6 => "6",
        7 => "7",
        8 => "8",
        _ => "9",
    }
}

/// Renders `n` in decimal, exactly as [`spec_decimal`] describes.
pub fn u64_to_string(n: u64) -> (s: String)
    ensures
        s@ == spec_decimal(n as nat),
{
    let mut digits: Vec<u8> = Vec::new();
    let mut m: u64 = n;
    if m == 0 {
        digits.push(0);
        proof {
            assert(digits@ =~= seq![0u8]);
            assert(seq![0u8].drop_last() =~= Seq::<u8>::empty());
            assert(rev_digit_chars(Seq::<u8>::empty()) =~= Seq::<char>::empty());
            assert(rev_digit_chars(seq![0u8]) == seq![decimal_digit(seq![0u8].last() as nat)]
                + rev_digit_chars(seq![0u8].drop_last()));
            assert(rev_digit_chars(seq![0u8]) =~= seq![decimal_digit(0)]);
        }
    }
    while m > 0
        invariant
            m == 0 ==> spec_decimal(n as nat) == rev_digit_chars(digits@),
            m > 0 ==> spec_decimal(n as nat) == spec_decimal(m as nat) + rev_digit_chars(
                digits@,
            ),
            forall|i: int| 0 <= i < digits@.len() ==> digits@[i] < 10,
        decreases m,
    {
        let ghost old_m = m as nat;
        let ghost old_digits = digits@;
        let d: u8 = (m % 10) as u8;
        digits.push(d);
        m = m / 10;
        proof {
            assert(digits@.drop_last() =~= old_digits);
            assert(rev_digit_chars(digits@) =~= seq![decimal_digit(d as nat)]
                + rev_digit_chars(old_digits));
            if m > 0 {
                assert(old_m >= 10);
                assert(spec_decimal(old_m) == spec_decimal(old_m / 10).push(
                    decimal_digit(old_m % 10),
                ));
                assert(spec_decimal(old_m) + rev_digit_chars(old_digits) =~= spec_decimal(
                    m as nat,
                ) + rev_digit_chars(digits@));
            } else {
                assert(old_m < 10);
                assert(spec_decimal(old_m) =~= seq![decimal_digit(old_m)]);
                assert(spec_decimal(old_m) + rev_digit_chars(old_digits) =~= rev_digit_chars(
                    digits@,
                ));
            }
        }
    }
    let mut s = String::new();
    let mut i: usize = digits.len();
    while i > 0
        invariant
            i <= digits@.len(),
            forall|j: int| 0 <= j < digits@.len() ==> digits@[j] < 10,
            spec_decimal(n as nat) == rev_digit_chars(digits@),
            s@ == rev_digit_chars(digits@.skip(i as int)),
        decreases i,
    {
        proof {
            lemma_rev_digit_chars_first(digits@.skip(i - 1));
            assert(digits@.skip(i - 1).drop_first() =~= digits@.skip(i as int));
            assert(digits@.skip(i - 1)[0] == digits@[i - 1]);
        }
        i = i - 1;
        s.append(digit_str(digits[i]));
    }
    proof {
        assert(digits@.skip(0) =~= digits@);
    }
    s
}

/// True of a decimal digit character.
pub open spec fn is_digit_char(c: char) -> bool {
    '0' <= c && c <= '9'
}

/// The numeric value of a digit character.
pub open spec fn digit_val(c: char) -> nat
    recommends
        is_digit_char(c),
{
    (c as nat - '0' as nat) as nat
}

/// The value of a sequence of digit characters, most significant first.
pub open spec fn digits_val(t: Seq<char>) -> nat
    decreases t.len(),
{
    if t.len() == 0 {
        0
    } else {
        digits_val(t.drop_last()) * 10 + digit_val(t.last())
    }
}

/// The digit part of a signed decimal string: everything after an optional
/// leading `'+'` or `'-'`.
pub open spec fn magnitude_part(t: Seq<char>) -> Seq<char> {
    if t.len() > 0 && (t[0] == '-' || t[0] == '+') {
        t.drop_first()
    } else {
        t
    }
}

/// True of the strings accepted by Rust's `i32` decimal parser: an optional
/// sign, one or more digits, and a value within the `i32` range.
pub open spec fn is_i32_string(t: Seq<char>) -> bool {
    &&& magnitude_part(t).len() > 0
    &&& forall|i: int|
        0 <= i < magnitude_part(t).len() ==> is_digit_char(#[trigger] magnitude_part(t)[i])
    &&& if t.len() > 0 && t[0] == '-' {
        digits_val(magnitude_part(t)) <= 0x8000_0000
    } else {
        digits_val(magnitude_part(t)) <= 0x7fff_ffff
    }
}

/// The value of a signed decimal string.
pub open spec fn spec_parse_i32(t: Seq<char>) -> int
    recommends
        is_i32_string(t),
{
    if t.len() > 0 && t[0] == '-' {
        -(digits_val(magnitude_part(t)) as int)
    } else {
        digits_val(magnitude_part(t)) as int
    }
}

proof fn lemma_digits_val_prefix_le(t: Seq<char>, i: int)
    requires
        0 <= i <= t.len(),
    ensures
        digits_val(t.take(i)) <= digits_val(t),
    decreases t.len() - i,
{
    if i == t.len() {
        assert(t.take(i) =~= t);
    } else {
        lemma_digits_val_prefix_le(t, i + 1);
        assert(t.take(i + 1).drop_last() =~= t.take(i));
        assert(digits_val(t.take(i + 1)) == digits_val(t.take(i)) * 10 + digit_val(
            t.take(i + 1).last(),
        ));
    }
}

/// Parses the digit characters `t[from..]` of an ASCII digit run, returning
/// their value.
fn parse_digits(t: &str, from: usize) -> (r: i64)
    requires
        from <= t@.len(),
        t@.len() <= usize::MAX,
        forall|i: int| from <= i < t@.len() ==> is_digit_char(t@[i]),
        digits_val(t@.skip(from as int)) <= 0x8000_0000,
    ensures
        r == digits_val(t@.skip(from as int)),
{
    let n = t.unicode_len();
    let mut i: usize = from;
    let mut acc: i64 = 0;
    while i < n
        invariant
            from <= i <= n,
            n == t@.len(),
            forall|j: int| from <= j < t@.len() ==> is_digit_char(t@[j]),
            digits_val(t@.skip(from as int)) <= 0x8000_0000,
            acc == digits_val(t@.skip(from as int).take(i - from)),
        decreases n - i,
    {
        let c = t.get_char(i);
        proof {
            lemma_digits_val_prefix_le(t@.skip(from as int), i + 1 - from);
            assert(t@.skip(from as int).take(i + 1 - from).drop_last() =~= t@.skip(
                from as int,
            ).take(i - from));
            assert(t@.skip(from as int).take(i + 1 - from).last() == t@[i as int]);
        }
        let d: u32 = c as u32 - '0' as u32;
        acc = acc * 10 + d as i64;
        i = i + 1;
    }
    proof {
        assert(t@.skip(from as int).take(n - from) =~= t@.skip(from as int));
    }
    acc
}

/// Parses a signed decimal string as Rust's `i32` parser does. The input is
/// required to be well-formed, as the original routine aborted otherwise.
pub fn parse_i32(t: &str) -> (r: i32)
    requires
        is_i32_string(t@),
        t@.len() <= usize::MAX,
    ensures
        r == spec_parse_i32(t@),
{
    let n = t.unicode_len();
    let first = t.get_char(0);
    if first == '-' || first == '+' {
        proof {
            assert(magnitude_part(t@) =~= t@.skip(1));
            assert forall|i: int| 1 <= i < t@.len() implies is_digit_char(t@[i]) by {
                assert(is_digit_char(magnitude_part(t@)[i - 1]));
            }
        }
        let mag = parse_digits(t, 1);
        if first == '-' {
            (-mag) as i32
        } else {
            mag as i32
        }
    } else {
        proof {
            assert(magnitude_part(t@) =~= t@.skip(0));
        }
        let mag = parse_digits(t, 0);
        mag as i32
    }
}

} // verus!
