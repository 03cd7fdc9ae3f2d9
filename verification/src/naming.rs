//! Names of segment files: the id in twenty decimal digits, then `.data`,
//! so that names sort as ids do.
use crate::util::{all_digits, digits_value, is_digit, lemma_digits_prefix};
use vstd::prelude::*;

verus! {

/// The number of digits in a segment file's name.
pub const NAME_DIGITS: usize = 20;

/// The length of a segment file's name.
pub const NAME_LEN: usize = 25;

/// What follows the digits: `.data`.
pub open spec fn extension() -> Seq<u8> {
    seq![46u8, 100u8, 97u8, 116u8, 97u8]
}

/// The last `width` decimal digits of `n`, most significant first.
pub open spec fn decimal_digits(n: nat, width: nat) -> Seq<u8>
    decreases width,
{
    if width == 0 {
        Seq::empty()
    } else {
        decimal_digits(n / 10, (width - 1) as nat).push((48 + n % 10) as u8)
    }
}

/// Whether `n` has no more than `width` decimal digits.
pub open spec fn fits_digits(n: nat, width: nat) -> bool
    decreases width,
{
    if width == 0 {
        n == 0
    } else {
        fits_digits(n / 10, (width - 1) as nat)
    }
}

/// The name of the file that holds the segment `id`.
pub open spec fn file_name_spec(id: u64) -> Seq<u8> {
    decimal_digits(id as nat, NAME_DIGITS as nat) + extension()
}

/// The id of the segment whose file is called `name`, if `name` is the
/// name of a segment file.
pub open spec fn parse_file_name_spec(name: Seq<u8>) -> Option<u64> {
    let digits = name.take(NAME_DIGITS as int);
    if name.len() == NAME_LEN && name.skip(NAME_DIGITS as int) == extension() && all_digits(digits)
        && digits_value(digits) <= u64::MAX {
        Some(digits_value(digits) as u64)
    } else {
        None
    }
}

/// The digits of a number are as many as asked for, and digits all.
pub proof fn lemma_decimal_digits_shape(n: nat, width: nat)
    ensures
        decimal_digits(n, width).len() == width,
        all_digits(decimal_digits(n, width)),
    decreases width,
{
    if width > 0 {
        lemma_decimal_digits_shape(n / 10, (width - 1) as nat);
        let front = decimal_digits(n / 10, (width - 1) as nat);
        let all = decimal_digits(n, width);
        assert forall|i: int| 0 <= i < all.len() implies is_digit(#[trigger] all[i]) by {
            if i < front.len() {
                assert(all[i] == front[i]);
            }
        }
    }
}

/// The digits of a number that has no more digits than asked for write
/// that number.
pub proof fn lemma_value_of_digits(n: nat, width: nat)
    requires
        fits_digits(n, width),
    ensures
        digits_value(decimal_digits(n, width)) == n,
    decreases width,
{
    if width > 0 {
        lemma_value_of_digits(n / 10, (width - 1) as nat);
        let front = decimal_digits(n / 10, (width - 1) as nat);
        let all = decimal_digits(n, width);
        assert(all.drop_last() =~= front);
    }
}

/// Digits are the digits of the number that they write.
pub proof fn lemma_digits_of_value(d: Seq<u8>)
    requires
        all_digits(d),
    ensures
        0 <= digits_value(d),
        decimal_digits(digits_value(d) as nat, d.len()) == d,
    decreases d.len(),
{
    if d.len() > 0 {
        let front = d.drop_last();
        assert(is_digit(d[d.len() - 1]));
        assert(all_digits(front)) by {
            assert forall|i: int| 0 <= i < front.len() implies is_digit(#[trigger] front[i]) by {
                assert(front[i] == d[i]);
            }
        }
        lemma_digits_of_value(front);
        let v = digits_value(d);
        assert(v / 10 == digits_value(front));
        assert(v % 10 == d.last() - 48);
        assert(decimal_digits(v as nat, d.len()) =~= d);
    } else {
        assert(decimal_digits(0, 0) =~= d);
    }
}

/// Every 64-bit number has no more than twenty decimal digits.
pub proof fn lemma_u64_fits(id: u64)
    ensures
        fits_digits(id as nat, NAME_DIGITS as nat),
{
    let n0 = id as nat;
    let n5 = n0 / 10 / 10 / 10 / 10 / 10;
    let n10 = n5 / 10 / 10 / 10 / 10 / 10;
    let n15 = n10 / 10 / 10 / 10 / 10 / 10;
    let n20 = n15 / 10 / 10 / 10 / 10 / 10;
    assert(n5 <= 184467440737095);
    assert(n10 <= 1844674407);
    assert(n15 <= 18446);
    assert(n20 == 0);
    reveal_with_fuel(fits_digits, 6);
    assert(fits_digits(n20, 0));
    assert(fits_digits(n15, 5));
    assert(fits_digits(n10, 10));
    assert(fits_digits(n5, 15));
    assert(fits_digits(n0, 20));
}

/// A segment file's name is read back as the id it was made from.
pub proof fn lemma_file_name_round_trip(id: u64)
    ensures
        file_name_spec(id).len() == NAME_LEN,
        parse_file_name_spec(file_name_spec(id)) == Some(id),
{
    let digits = decimal_digits(id as nat, NAME_DIGITS as nat);
    let name = file_name_spec(id);
    lemma_decimal_digits_shape(id as nat, NAME_DIGITS as nat);
    lemma_u64_fits(id);
    lemma_value_of_digits(id as nat, NAME_DIGITS as nat);
    assert(name.take(NAME_DIGITS as int) =~= digits);
    assert(name.skip(NAME_DIGITS as int) =~= extension());
}

/// Only the name made from an id is read back as that id.
pub proof fn lemma_file_name_unique(name: Seq<u8>, id: u64)
    requires
        parse_file_name_spec(name) == Some(id),
    ensures
        name == file_name_spec(id),
{
    let digits = name.take(NAME_DIGITS as int);
    lemma_digits_of_value(digits);
    assert(name =~= digits + name.skip(NAME_DIGITS as int));
}

fn push_decimal(buf: &mut Vec<u8>, n: u64, width: usize)
    ensures
        final(buf)@ == old(buf)@ + decimal_digits(n as nat, width as nat),
    decreases width,
{
    if width > 0 {
        push_decimal(buf, n / 10, width - 1);
        buf.push(48u8 + (n % 10) as u8);
        assert(buf@ =~= old(buf)@ + decimal_digits(n as nat, width as nat));
    } else {
        assert(buf@ =~= old(buf)@ + decimal_digits(n as nat, width as nat));
    }
}

/// The name of the file that holds the segment `id`.
pub fn file_name(id: u64) -> (name: Vec<u8>)
    ensures
        name@ == file_name_spec(id),
{
    let mut name: Vec<u8> = Vec::new();
    push_decimal(&mut name, id, NAME_DIGITS);
    name.push(46u8);
    name.push(100u8);
    name.push(97u8);
    name.push(116u8);
    name.push(97u8);
    assert(name@ =~= file_name_spec(id));
    name
}

/// The id of the segment whose file is called `name`; `None` when `name`
/// is not the name of a segment file.
#[verifier::loop_isolation(false)]
pub fn parse_file_name(name: &[u8]) -> (id: Option<u64>)
    ensures
        id == parse_file_name_spec(name@),
{
    if name.len() != NAME_LEN {
        return None;
    }
    if name[20] != 46u8 || name[21] != 100u8 || name[22] != 97u8 || name[23] != 116u8 || name[24]
        != 97u8 {
        assert(name@.skip(NAME_DIGITS as int)[0] == name@[20]);
        assert(name@.skip(NAME_DIGITS as int)[1] == name@[21]);
        assert(name@.skip(NAME_DIGITS as int)[2] == name@[22]);
        assert(name@.skip(NAME_DIGITS as int)[3] == name@[23]);
        assert(name@.skip(NAME_DIGITS as int)[4] == name@[24]);
        return None;
    }
    assert(name@.skip(NAME_DIGITS as int) =~= extension());
    let ghost digits = name@.take(NAME_DIGITS as int);
    let mut acc: u128 = 0;
    let mut i: usize = 0;
    while i < NAME_DIGITS
        invariant
            i <= NAME_DIGITS,
            all_digits(digits.take(i as int)),
            acc == digits_value(digits.take(i as int)),
            acc <= u64::MAX,
        decreases NAME_DIGITS - i,
    {
        let b: u8 = name[i];
        assert(digits[i as int] == b);
        if b < 48u8 || b > 57u8 {
            assert(!is_digit(digits[i as int]));
            return None;
        }
        proof {
            let longer = digits.take(i + 1);
            assert(longer.drop_last() =~= digits.take(i as int));
            assert(longer.last() == b);
            assert(all_digits(longer)) by {
                assert forall|j: int| 0 <= j < longer.len() implies is_digit(
                    #[trigger] longer[j],
                ) by {
                    if j < i {
                        assert(longer[j] == digits.take(i as int)[j]);
                    }
                }
            }
            if all_digits(digits) {
                lemma_digits_prefix(digits, i + 1);
            }
        }
        let next: u128 = acc * 10 + (b - 48u8) as u128;
        if next > 18446744073709551615u128 {
            return None;
        }
        acc = next;
        i = i + 1;
    }
    assert(digits.take(NAME_DIGITS as int) =~= digits);
    Some(acc as u64)
}

} // verus!
