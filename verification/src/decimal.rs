//! Decimal text of natural numbers and of fixed-point numbers.
use vstd::arithmetic::div_mod::lemma_div_denominator;
use vstd::prelude::*;
use vstd::string::{StrSliceExecFns, StringExecFns};

verus! {

/// The character of one decimal digit.
pub open spec fn digit_char(d: nat) -> char
    recommends
        d < 10,
{
    (48 + d) as char
}

/// The decimal text of `n`, without leading zeros.
pub open spec fn dec(n: nat) -> Seq<char>
    decreases n,
{
    if n < 10 {
        seq![digit_char(n)]
    } else {
        dec(n / 10).push(digit_char(n % 10))
    }
}

/// The last `width` decimal digits of `n`, zeros in front where `n` is shorter.
pub open spec fn low_digits(n: nat, width: nat) -> Seq<char>
    decreases width,
{
    if width == 0 {
        Seq::empty()
    } else {
        low_digits(n / 10, (width - 1) as nat).push(digit_char(n % 10))
    }
}

/// Ten to the power `e`.
pub open spec fn pow10(e: nat) -> nat
    decreases e,
{
    if e == 0 {
        1
    } else {
        10 * pow10((e - 1) as nat)
    }
}

/// The text of `n / 10^places`, with exactly `places` digits behind the point and
/// no point where there are none.
pub open spec fn fixed_point(n: nat, places: nat) -> Seq<char> {
    if places == 0 {
        dec(n)
    } else {
        dec(n / pow10(places)) + "."@ + low_digits(n, places)
    }
}

/// `text` moved to the right end of a column of `width` characters.
pub open spec fn right_aligned(text: Seq<char>, width: nat) -> Seq<char> {
    if text.len() >= width {
        text
    } else {
        Seq::new((width - text.len()) as nat, |i: int| ' ') + text
    }
}

/// Powers of ten are positive.
pub proof fn lemma_pow10_positive(e: nat)
    ensures
        pow10(e) > 0,
    decreases e,
{
    if e > 0 {
        lemma_pow10_positive((e - 1) as nat);
    }
}

fn digit_text(d: u8) -> (text: &'static str)
    requires
        d < 10,
    ensures
        text@ == seq![digit_char(d as nat)],
{
    proof {
        reveal_strlit("0");
        reveal_strlit("1");
        reveal_strlit("2");
        reveal_strlit("3");
        reveal_strlit("4");
        reveal_strlit("5");
        reveal_strlit("6");
        reveal_strlit("7");
        reveal_strlit("8");
        reveal_strlit("9");
    }
    match d {
        0 => "0",
        1 => "1",
        2 => "2",
        3 => "3",
        4 => "4",
        5 => "5",
        6 => "6",
        7 => "7",
        8 => "8",
        _ => "9",
    }
}

/// Appends the decimal text of `n`.
pub fn append_dec(out: &mut String, n: u128)
    ensures
        final(out)@ == old(out)@ + dec(n as nat),
    decreases n,
{
    if n >= 10 {
        append_dec(out, n / 10);
    }
    out.append(digit_text((n % 10) as u8));
    proof {
        assert(final(out)@ =~= old(out)@ + dec(n as nat));
    }
}

/// Appends the last `width` decimal digits of `n`.
pub fn append_low_digits(out: &mut String, n: u128, width: u32)
    ensures
        final(out)@ == old(out)@ + low_digits(n as nat, width as nat),
    decreases width,
{
    if width > 0 {
        append_low_digits(out, n / 10, width - 1);
        out.append(digit_text((n % 10) as u8));
    }
    proof {
        assert(final(out)@ =~= old(out)@ + low_digits(n as nat, width as nat));
    }
}

/// `n` without its last `places` decimal digits.
fn drop_digits(n: u128, places: u32) -> (rest: u128)
    ensures
        rest as nat == n as nat / pow10(places as nat),
    decreases places,
{
    if places == 0 {
        assert(n as nat / 1 == n);
        n
    } else {
        proof {
            let tail = pow10((places - 1) as nat);
            lemma_pow10_positive((places - 1) as nat);
            lemma_div_denominator(n as int, 10, tail as int);
            assert(pow10(places as nat) == 10 * tail);
        }
        drop_digits(n / 10, places - 1)
    }
}

/// Appends the text of `n / 10^places`.
pub fn append_fixed_point(out: &mut String, n: u128, places: u32)
    ensures
        final(out)@ == old(out)@ + fixed_point(n as nat, places as nat),
{
    if places == 0 {
        append_dec(out, n);
    } else {
        append_dec(out, drop_digits(n, places));
        out.append(".");
        append_low_digits(out, n, places);
        proof {
            assert(final(out)@ =~= old(out)@ + fixed_point(n as nat, places as nat));
        }
    }
}

/// Appends `text`, moved to the right end of a column of `width` characters.
pub fn append_right_aligned(out: &mut String, text: &str, width: usize)
    ensures
        final(out)@ == old(out)@ + right_aligned(text@, width as nat),
{
    let len: usize = text.unicode_len();
    let mut missing: usize = if len < width { width - len } else { 0 };
    let ghost start = out@;
    let ghost total = missing as int;
    proof {
        reveal_strlit(" ");
    }
    while missing > 0
        invariant
            0 <= missing <= total,
            out@ =~= start + Seq::new((total - missing) as nat, |i: int| ' '),
            " "@ =~= seq![' '],
        decreases missing,
    {
        out.append(" ");
        missing = missing - 1;
    }
    out.append(text);
    proof {
        assert(final(out)@ =~= old(out)@ + right_aligned(text@, width as nat));
    }
}

/// The number that a row of decimal digits stands for.
pub open spec fn read_digits(text: Seq<char>) -> int {
    text.fold_left(0int, |value: int, c: char| 10 * value + (c as int - '0' as int))
}

/// Every character is a decimal digit.
pub open spec fn all_digits(text: Seq<char>) -> bool {
    forall|i: int| 0 <= i < text.len() ==> '0' <= #[trigger] text[i] && text[i] <= '9'
}

/// The text of a number is a row of digits that reads back as the number, and starts with a
/// zero only where it is the number zero.
pub proof fn law_decimal_text_reads_back(n: nat)
    ensures
        all_digits(dec(n)),
        read_digits(dec(n)) == n,
        n > 0 ==> dec(n)[0] != '0',
        dec(n).len() > 0,
    decreases n,
{
    if n < 10 {
        assert(dec(n).drop_last() =~= Seq::empty());
        assert(dec(n).drop_last().fold_left(
            0int,
            |value: int, c: char| 10 * value + (c as int - '0' as int),
        ) == 0);
    } else {
        law_decimal_text_reads_back(n / 10);
        assert(dec(n).drop_last() =~= dec(n / 10));
    }
}

/// The last digits of a number are as many as asked for, and read back as what the number
/// leaves over a power of ten.
pub proof fn law_last_digits_read_back(n: nat, width: nat)
    ensures
        all_digits(low_digits(n, width)),
        low_digits(n, width).len() == width,
        read_digits(low_digits(n, width)) == n % pow10(width),
    decreases width,
{
    lemma_pow10_positive(width);
    if width == 0 {
        assert(n % 1 == 0);
    } else {
        let rest = (width - 1) as nat;
        law_last_digits_read_back(n / 10, rest);
        assert(low_digits(n, width).drop_last() =~= low_digits(n / 10, rest));
        lemma_pow10_positive(rest);
        let p = pow10(rest);
        vstd::arithmetic::div_mod::lemma_mod_breakdown(n as int, 10, p as int);
    }
}

/// A number with decimal places is its whole part, a point, and as many digits as there are
/// places; together they read back as the number.
pub proof fn law_fixed_point_reads_back(n: nat, places: nat)
    requires
        places > 0,
    ensures
        ({
            let text = fixed_point(n, places);
            let point = text.len() - places - 1;
            &&& point > 0
            &&& text[point] == '.'
            &&& all_digits(text.take(point))
            &&& all_digits(text.skip(point + 1))
            &&& read_digits(text.take(point)) * pow10(places) + read_digits(text.skip(point + 1))
                == n
        }),
{
    let text = fixed_point(n, places);
    let point = text.len() - places - 1;
    reveal_strlit(".");
    lemma_pow10_positive(places);
    let p = pow10(places);
    law_decimal_text_reads_back(n / p);
    law_last_digits_read_back(n, places);
    assert(text.take(point) =~= dec(n / p));
    assert(text.skip(point + 1) =~= low_digits(n, places));
    vstd::arithmetic::div_mod::lemma_fundamental_div_mod(n as int, p as int);
    assert((n / p) * p == p * (n / p)) by (nonlinear_arith);
}

/// A text in a column stands at its right end, behind spaces, and fills it unless it is
/// longer.
pub proof fn law_column_ends_with_the_text(text: Seq<char>, width: nat)
    ensures
        ({
            let column = right_aligned(text, width);
            &&& column.len() >= width
            &&& column.len() == width || column == text
            &&& column.skip(column.len() - text.len()) == text
            &&& forall|i: int| 0 <= i < column.len() - text.len() ==> #[trigger] column[i] == ' '
        }),
{
    let column = right_aligned(text, width);
    assert(column.skip(column.len() - text.len()) =~= text);
}

} // verus!
