//! Text building: decimal numbers and padding, stated character by character.

use vstd::prelude::*;

verus! {

/// The character of a decimal digit.
pub open spec fn digit_char(d: nat) -> char {
    if d == 0 {
        '0'
    } else if d == 1 {
        '1'
    } else if d == 2 {
        '2'
    } else if d == 3 {
        '3'
    } else if d == 4 {
        '4'
    } else if d == 5 {
        '5'
    } else if d == 6 {
        '6'
    } else if d == 7 {
        '7'
    } else if d == 8 {
        '8'
    } else {
        '9'
    }
}

/// The decimal notation of `n`, without leading zeros.
pub open spec fn decimal(n: nat) -> Seq<char>
    decreases n,
{
    if n < 10 {
        seq![digit_char(n)]
    } else {
        decimal(n / 10).push(digit_char(n % 10))
    }
}

/// `n` copies of the character `c`.
pub open spec fn repeated(c: char, n: int) -> Seq<char> {
    Seq::new(
        if n > 0 {
            n as nat
        } else {
            0
        },
        |i: int| c,
    )
}

/// `s` filled up on the left with `c` to at least `width` characters.
pub open spec fn pad_left(s: Seq<char>, width: int, c: char) -> Seq<char> {
    repeated(c, width - s.len()) + s
}

/// `s` filled up on the right with spaces to at least `width` characters.
pub open spec fn pad_right(s: Seq<char>, width: int) -> Seq<char> {
    s + repeated(' ', width - s.len())
}

/// The text of one decimal digit.
fn digit_text(d: u64) -> (r: &'static str)
    requires
        d < 10,
    ensures
        r@ == seq![digit_char(d as nat)],
{
    proof {
        reveal_strlit("0");
        reveal_strlit("1");
        reveal_strlit("2");
        reveal_strlit("3");
        reveal_strlit("4");
        reveal_strlit("5");
        reveal_strlit("6");
        reveal_strlit("7");
        reveal_strlit("8");
        reveal_strlit("9");
    }
    match d {
        0 => "0",
        1 => "1",
        2 => "2",
        3 => "3",
        4 => "4",
        5 => "5",
        6 => "6",
        7 => "7",
        8 => "8",
        _ => "9",
    }
}

/// The decimal notation of a number.
pub fn decimal_text(n: u64) -> (r: String)
    ensures
        r@ == decimal(n as nat),
    decreases n,
{
    if n < 10 {
        let mut out = String::new();
        out.append(digit_text(n));
        out
    } else {
        let mut out = decimal_text(n / 10);
        out.append(digit_text(n % 10));
        out
    }
}

/// Fills a text up on the left to `width` characters, with zeros or with spaces.
pub fn pad_left_text(s: &String, width: usize, zero: bool) -> (r: String)
    ensures
        r@ == pad_left(
            s@,
            width as int,
            if zero {
                '0'
            } else {
                ' '
            },
        ),
{
    proof {
        reveal_strlit("0");
        reveal_strlit(" ");
    }
    let len = s.as_str().unicode_len();
    let ghost c = if zero {
        '0'
    } else {
        ' '
    };
    let mut out = String::new();
    let mut have: usize = len;
    while have < width
        invariant
            len == s@.len(),
            have >= len,
            have == len || have <= width,
            c == (if zero {
                '0'
            } else {
                ' '
            }),
            "0"@ == seq!['0'],
            " "@ == seq![' '],
            out@ == repeated(c, have - len),
        decreases width - have,
    {
        out.append(
            if zero {
                "0"
            } else {
                " "
            },
        );
        have = have + 1;
        assert(out@ =~= repeated(c, have - len));
    }
    assert(out@ =~= repeated(c, width - s@.len()));
    out.append(s.as_str());
    out
}

/// Fills a text up on the right to `width` characters with spaces.
pub fn pad_right_text(s: &String, width: usize) -> (r: String)
    ensures
        r@ == pad_right(s@, width as int),
{
    proof {
        reveal_strlit(" ");
    }
    let len = s.as_str().unicode_len();
    let mut out = s.clone();
    let mut have: usize = len;
    while have < width
        invariant
            len == s@.len(),
            have >= len,
            have == len || have <= width,
            " "@ == seq![' '],
            out@ == s@ + repeated(' ', have - len),
        decreases width - have,
    {
        out.append(" ");
        have = have + 1;
        assert(out@ =~= s@ + repeated(' ', have - len));
    }
    assert(out@ =~= pad_right(s@, width as int));
    out
}

// ---------------------------------------------------------------- laws
/// The number that decimal digits stand for.
pub open spec fn number_of(s: Seq<char>) -> int
    decreases s.len(),
{
    if s.len() == 0 {
        0
    } else {
        number_of(s.drop_last()) * 10 + (s.last() as int - '0' as int)
    }
}

/// A decimal notation stands for its number, is made of digits, and has no leading zero.
pub proof fn law_decimals_stand_for_their_number(n: nat)
    ensures
        number_of(decimal(n)) == n,
        decimal(n).len() > 0,
        forall|i: int| 0 <= i < decimal(n).len() ==> '0' <= #[trigger] decimal(n)[i] <= '9',
        n > 0 ==> decimal(n)[0] != '0',
    decreases n,
{
    if n < 10 {
        assert(decimal(n).drop_last() =~= Seq::<char>::empty());
        assert(number_of(Seq::<char>::empty()) == 0);
    } else {
        law_decimals_stand_for_their_number(n / 10);
        assert(decimal(n).drop_last() =~= decimal(n / 10));
    }
}

/// Different numbers have different notations.
pub proof fn law_decimals_tell_numbers_apart(a: nat, b: nat)
    requires
        decimal(a) == decimal(b),
    ensures
        a == b,
{
    law_decimals_stand_for_their_number(a);
    law_decimals_stand_for_their_number(b);
}

/// Padding makes a text as long as it has to be, and keeps it whole: at the end if it is filled
/// up on the left, at the front if it is filled up on the right.
pub proof fn law_padding_keeps_the_text(s: Seq<char>, width: nat, c: char)
    ensures
        ({
            let missing = if width > s.len() {
                width - s.len()
            } else {
                0
            };
            let (left, right) = (pad_left(s, width as int, c), pad_right(s, width as int));
            &&& left.len() == s.len() + missing
            &&& right.len() == s.len() + missing
            &&& left.skip(missing) == s
            &&& right.take(s.len() as int) == s
            &&& forall|i: int| 0 <= i < missing ==> #[trigger] left[i] == c
            &&& forall|i: int| s.len() <= i < right.len() ==> #[trigger] right[i] == ' '
        }),
{
    let missing = if width > s.len() {
        width - s.len()
    } else {
        0
    };
    assert(pad_left(s, width as int, c).skip(missing) =~= s);
    assert(pad_right(s, width as int).take(s.len() as int) =~= s);
}

/// Leading zeros do not change what digits stand for.
pub proof fn law_leading_zeros_do_not_count(s: Seq<char>, n: nat)
    ensures
        number_of(repeated('0', n as int) + s) == number_of(s),
    decreases s.len(), n,
{
    let zeros = repeated('0', n as int);
    if s.len() > 0 {
        law_leading_zeros_do_not_count(s.drop_last(), n);
        assert((zeros + s).drop_last() =~= zeros + s.drop_last());
        assert((zeros + s).last() == s.last());
    } else if n > 0 {
        law_leading_zeros_do_not_count(s, (n - 1) as nat);
        assert((zeros + s).drop_last() =~= repeated('0', n - 1) + s);
        assert((zeros + s).last() == '0');
    } else {
        assert(zeros + s =~= s);
    }
}

/// A number below a thousand has at most three digits.
pub proof fn law_small_numbers_are_short(n: nat)
    requires
        n < 1_000,
    ensures
        decimal(n).len() <= 3,
        n < 100 ==> decimal(n).len() <= 2,
        n < 10 ==> decimal(n).len() == 1,
{
    reveal_with_fuel(decimal, 4);
}

} // verus!
