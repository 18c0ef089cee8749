//! Laws of identifiers: their shape, their order, and that they differ.

use crate::document::{bytes_hex, id_text};
use crate::text::{digit, hex};
use vstd::prelude::*;

verus! {

/// A hexadecimal digit in lower case.
pub open spec fn is_hex_digit(c: char) -> bool {
    '0' <= c <= '9' || 'a' <= c <= 'f'
}

/// `a` comes before `b`, and neither is a prefix of the other: they first differ in a place where
/// `a` has the smaller character.
pub open spec fn comes_before(a: Seq<char>, b: Seq<char>) -> bool {
    exists|i: int|
        {
            &&& 0 <= i < a.len()
            &&& i < b.len()
            &&& #[trigger] a.take(i) == b.take(i)
            &&& a[i] < b[i]
        }
}

/// The value has no more than `width` hexadecimal digits.
pub open spec fn fits_hex(value: nat, width: nat) -> bool
    decreases width,
{
    if width == 0 {
        value == 0
    } else {
        fits_hex(value / 16, (width - 1) as nat)
    }
}

proof fn lemma_digits()
    ensures
        forall|d: int| 0 <= d < 16 ==> is_hex_digit(#[trigger] digit(d)),
        forall|d: int, e: int| 0 <= d < e < 16 ==> #[trigger] digit(d) < #[trigger] digit(e),
{
}

pub(crate) proof fn lemma_hex_shape(value: nat, width: nat)
    ensures
        hex(value, width).len() == width,
        forall|i: int| 0 <= i < width ==> is_hex_digit(#[trigger] hex(value, width)[i]),
    decreases width,
{
    lemma_digits();
    if width > 0 {
        lemma_hex_shape(value / 16, (width - 1) as nat);
        let front = hex(value / 16, (width - 1) as nat);
        assert forall|i: int| 0 <= i < width implies is_hex_digit(
            #[trigger] hex(value, width)[i],
        ) by {
            if i < width - 1 {
                assert(hex(value, width)[i] == front[i]);
            }
        }
    }
}

/// Digits of the same number of places are ordered as the values are.
proof fn lemma_hex_order(a: nat, b: nat, width: nat) -> (at: int)
    requires
        a < b,
        fits_hex(a, width),
        fits_hex(b, width),
    ensures
        0 <= at < width,
        hex(a, width).len() == width,
        hex(b, width).len() == width,
        hex(a, width).take(at) == hex(b, width).take(at),
        hex(a, width)[at] < hex(b, width)[at],
    decreases width,
{
    lemma_digits();
    lemma_hex_shape(a, width);
    lemma_hex_shape(b, width);
    let less = (width - 1) as nat;
    lemma_hex_shape(a / 16, less);
    lemma_hex_shape(b / 16, less);
    if a / 16 < b / 16 {
        let at = lemma_hex_order(a / 16, b / 16, less);
        assert(hex(a, width).take(at) =~= hex(a / 16, less).take(at));
        assert(hex(b, width).take(at) =~= hex(b / 16, less).take(at));
        at
    } else {
        assert(a % 16 < b % 16);
        assert(hex(a, width).take(less as int) =~= hex(a / 16, less));
        assert(hex(b, width).take(less as int) =~= hex(b / 16, less));
        less as int
    }
}

/// The same digits stand for the same value.
proof fn lemma_hex_same(a: nat, b: nat, width: nat)
    requires
        hex(a, width) == hex(b, width),
        fits_hex(a, width),
        fits_hex(b, width),
    ensures
        a == b,
{
    if a < b {
        let at = lemma_hex_order(a, b, width);
    } else if b < a {
        let at = lemma_hex_order(b, a, width);
    }
}

proof fn lemma_fits_16(value: u64)
    ensures
        fits_hex(value as nat, 16),
{
    reveal_with_fuel(fits_hex, 17);
}

proof fn lemma_fits_4(value: u16)
    ensures
        fits_hex(value as nat, 4),
{
    reveal_with_fuel(fits_hex, 5);
}

proof fn lemma_bytes_hex(bytes: Seq<u8>)
    ensures
        bytes_hex(bytes).len() == 2 * bytes.len(),
        forall|i: int|
            0 <= i < bytes_hex(bytes).len() ==> is_hex_digit(#[trigger] bytes_hex(bytes)[i]),
    decreases bytes.len(),
{
    if bytes.len() > 0 {
        let front = bytes_hex(bytes.drop_last());
        lemma_bytes_hex(bytes.drop_last());
        lemma_hex_shape(bytes.last() as nat, 2);
        assert forall|i: int| 0 <= i < bytes_hex(bytes).len() implies is_hex_digit(
            #[trigger] bytes_hex(bytes)[i],
        ) by {
            if i < front.len() {
                assert(bytes_hex(bytes)[i] == front[i]);
            } else {
                assert(bytes_hex(bytes)[i] == hex(bytes.last() as nat, 2)[i - front.len()]);
            }
        }
    }
}

proof fn lemma_bytes_hex_same(a: Seq<u8>, b: Seq<u8>)
    requires
        a.len() == b.len(),
        bytes_hex(a) == bytes_hex(b),
    ensures
        a == b,
    decreases a.len(),
{
    if a.len() > 0 {
        let n = a.len() as int;
        lemma_bytes_hex(a.drop_last());
        lemma_bytes_hex(b.drop_last());
        lemma_hex_shape(a.last() as nat, 2);
        lemma_hex_shape(b.last() as nat, 2);
        assert(bytes_hex(a).take(2 * (n - 1)) =~= bytes_hex(a.drop_last()));
        assert(bytes_hex(b).take(2 * (n - 1)) =~= bytes_hex(b.drop_last()));
        assert(bytes_hex(a).skip(2 * (n - 1)) =~= hex(a.last() as nat, 2));
        assert(bytes_hex(b).skip(2 * (n - 1)) =~= hex(b.last() as nat, 2));
        lemma_bytes_hex_same(a.drop_last(), b.drop_last());
        reveal_with_fuel(fits_hex, 3);
        lemma_hex_same(a.last() as nat, b.last() as nat, 2);
        assert(a =~= a.drop_last().push(a.last()));
        assert(b =~= b.drop_last().push(b.last()));
    } else {
        assert(a =~= b);
    }
}

/// An identifier is 36 hexadecimal digits in lower case.
pub proof fn law_id_shape(time: u64, number: u64, random: Seq<u8>)
    requires
        random.len() == 8,
    ensures
        id_text(time, number, random).len() == 36,
        forall|i: int| 0 <= i < 36 ==> is_hex_digit(#[trigger] id_text(time, number, random)[i]),
{
    let a = hex(time as nat, 16);
    let b = hex(number as nat, 4);
    let c = bytes_hex(random);
    lemma_hex_shape(time as nat, 16);
    lemma_hex_shape(number as nat, 4);
    lemma_bytes_hex(random);
    let id = id_text(time, number, random);
    assert forall|i: int| 0 <= i < 36 implies is_hex_digit(#[trigger] id[i]) by {
        if i < 16 {
            assert(id[i] == a[i]);
        } else if i < 20 {
            assert(id[i] == b[i - 16]);
        } else {
            assert(id[i] == c[i - 20]);
        }
    }
}

/// The identifier of an earlier time comes first.
pub proof fn law_ids_sort_by_time(
    earlier: u64,
    later: u64,
    number1: u64,
    number2: u64,
    random1: Seq<u8>,
    random2: Seq<u8>,
)
    requires
        earlier < later,
    ensures
        comes_before(id_text(earlier, number1, random1), id_text(later, number2, random2)),
{
    lemma_fits_16(earlier);
    lemma_fits_16(later);
    let at = lemma_hex_order(earlier as nat, later as nat, 16);
    let a = id_text(earlier, number1, random1);
    let b = id_text(later, number2, random2);
    assert(a.take(at) =~= hex(earlier as nat, 16).take(at));
    assert(b.take(at) =~= hex(later as nat, 16).take(at));
    assert(a[at] == hex(earlier as nat, 16)[at]);
    assert(b[at] == hex(later as nat, 16)[at]);
}

/// Two identifiers differ unless the time, the running number and the random bytes all agree.
pub proof fn law_ids_differ(
    time1: u64,
    time2: u64,
    number1: u16,
    number2: u16,
    random1: Seq<u8>,
    random2: Seq<u8>,
)
    requires
        random1.len() == 8,
        random2.len() == 8,
    ensures
        id_text(time1, number1 as u64, random1) == id_text(time2, number2 as u64, random2) <==> (
        time1 == time2 && number1 == number2 && random1 == random2),
{
    let a = id_text(time1, number1 as u64, random1);
    let b = id_text(time2, number2 as u64, random2);
    if a == b {
        lemma_fits_16(time1);
        lemma_fits_16(time2);
        lemma_fits_4(number1);
        lemma_fits_4(number2);
        lemma_hex_shape(time1 as nat, 16);
        lemma_hex_shape(time2 as nat, 16);
        lemma_hex_shape(number1 as nat, 4);
        lemma_hex_shape(number2 as nat, 4);
        assert(a.take(16) =~= hex(time1 as nat, 16));
        assert(b.take(16) =~= hex(time2 as nat, 16));
        assert(a.subrange(16, 20) =~= hex(number1 as nat, 4));
        assert(b.subrange(16, 20) =~= hex(number2 as nat, 4));
        assert(a.skip(20) =~= bytes_hex(random1));
        assert(b.skip(20) =~= bytes_hex(random2));
        lemma_hex_same(time1 as nat, time2 as nat, 16);
        lemma_hex_same(number1 as nat, number2 as nat, 4);
        lemma_bytes_hex_same(random1, random2);
    }
}

} // verus!
