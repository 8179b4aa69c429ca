//! Meshes as text: the part of the Wavefront OBJ format that the scene reads.

use vstd::prelude::*;
use crate::vertex::Vertex;

verus! {

/// The byte that ends a line.
pub const NEWLINE: u8 = 10;

/// The byte that parts the fields of a line.
pub const SPACE: u8 = 32;

/// The byte that a comment starts with.
pub const HASH: u8 = 35;

/// The byte that parts the indices of a corner.
pub const SLASH: u8 = 47;

/// Where `byte` first occurs in `text`, or the length of `text` if it does
/// not occur.
pub open spec fn spec_find(text: Seq<u8>, byte: u8) -> int
    decreases text.len(),
{
    if text.len() == 0 || text[0] == byte {
        0
    } else {
        1 + spec_find(text.skip(1), byte)
    }
}

/// Field number `n` of `text`, counted from zero, where `sep` parts the
/// fields; `None` if `text` has no more than `n` fields. Two separators in a
/// row hold an empty field between them.
pub open spec fn spec_field(text: Seq<u8>, sep: u8, n: nat) -> Option<Seq<u8>>
    decreases n,
{
    let end = spec_find(text, sep);
    if n == 0 {
        Some(text.take(end))
    } else if end == text.len() {
        None
    } else {
        spec_field(text.skip(end + 1), sep, (n - 1) as nat)
    }
}

/// Where `spec_find` points to: at a `byte` with none before it, or at the
/// end of a text without one.
pub proof fn lemma_find(text: Seq<u8>, byte: u8)
    ensures
        0 <= spec_find(text, byte) <= text.len(),
        forall|i: int| 0 <= i < spec_find(text, byte) ==> text[i] != byte,
        spec_find(text, byte) < text.len() ==> text[spec_find(text, byte)] == byte,
    decreases text.len(),
{
    if text.len() != 0 && text[0] != byte {
        lemma_find(text.skip(1), byte);
        assert forall|i: int| 0 <= i < spec_find(text, byte) implies text[i] != byte by {
            if i > 0 {
                assert(text.skip(1)[i - 1] == text[i]);
            }
        }
    }
}

/// The first place at or after `from` where `byte` occurs in `text`, or the
/// length of `text`.
pub fn find(text: &Vec<u8>, from: usize, byte: u8) -> (at: usize)
    requires
        from <= text@.len(),
    ensures
        at == from + spec_find(text@.skip(from as int), byte),
        from <= at <= text@.len(),
{
    let mut at: usize = from;
    proof {
        lemma_find(text@.skip(from as int), byte);
    }
    while at < text.len() && text[at] != byte
        invariant
            from <= at <= text@.len(),
            from + spec_find(text@.skip(from as int), byte) == at + spec_find(
                text@.skip(at as int),
                byte,
            ),
        decreases text@.len() - at,
    {
        assert(text@.skip(at as int).skip(1) =~= text@.skip(at + 1));
        assert(text@.skip(at as int)[0] == text@[at as int]);
        at += 1;
    }
    proof {
        if at < text@.len() {
            assert(text@.skip(at as int)[0] == text@[at as int]);
        }
    }
    at
}

/// The bytes of `text` from `from` up to `to`.
pub fn slice(text: &Vec<u8>, from: usize, to: usize) -> (part: Vec<u8>)
    requires
        from <= to <= text@.len(),
    ensures
        part@ == text@.subrange(from as int, to as int),
{
    let mut part: Vec<u8> = Vec::new();
    let mut at: usize = from;
    while at < to
        invariant
            from <= at <= to <= text@.len(),
            part@ == text@.subrange(from as int, at as int),
        decreases to - at,
    {
        part.push(text[at]);
        at += 1;
        assert(part@ =~= text@.subrange(from as int, at as int));
    }
    part
}

/// Field number `n` of `text`, counted from zero, where `sep` parts the
/// fields.
pub fn field(text: &Vec<u8>, sep: u8, n: usize) -> (found: Option<Vec<u8>>)
    ensures
        match (found, spec_field(text@, sep, n as nat)) {
            (Some(part), Some(wanted)) => part@ == wanted,
            (None, None) => true,
            _ => false,
        },
{
    let mut from: usize = 0;
    let mut left: usize = n;
    assert(text@.skip(0) =~= text@);
    loop
        invariant
            from <= text@.len(),
            left <= n,
            spec_field(text@, sep, n as nat) == spec_field(text@.skip(from as int), sep, left as nat),
        decreases left,
    {
        let end = find(text, from, sep);
        proof {
            assert(text@.skip(from as int).take(end - from) =~= text@.subrange(
                from as int,
                end as int,
            ));
        }
        if left == 0 {
            return Some(slice(text, from, end));
        }
        if end == text.len() {
            return None;
        }
        proof {
            assert(text@.skip(from as int).skip(end - from + 1) =~= text@.skip(end + 1));
        }
        from = end + 1;
        left -= 1;
    }
}

/// Whether `byte` is one of the digits `0` to `9`.
pub open spec fn is_digit(byte: u8) -> bool {
    48 <= byte <= 57
}

/// Whether `text` holds digits only.
pub open spec fn all_digits(text: Seq<u8>) -> bool {
    forall|i: int| 0 <= i < text.len() ==> is_digit(#[trigger] text[i])
}

/// The number that the digits of `text` spell, read in base ten.
pub open spec fn digits_value(text: Seq<u8>) -> nat
    decreases text.len(),
{
    if text.len() == 0 {
        0
    } else {
        digits_value(text.drop_last()) * 10 + (text.last() - 48) as nat
    }
}

/// `text` without the sign that it may start with.
pub open spec fn unsigned(text: Seq<u8>) -> Seq<u8> {
    if text.len() > 0 && (text[0] == 43 || text[0] == 45) {
        text.skip(1)
    } else {
        text
    }
}

/// The index that `text` spells: digits, after a `+` or without one, that
/// make a number of 32 bits. `None` for any other text.
pub open spec fn spec_index(text: Seq<u8>) -> Option<u32> {
    let digits = if text.len() > 0 && text[0] == 43 {
        text.skip(1)
    } else {
        text
    };
    if digits.len() > 0 && all_digits(digits) && digits_value(digits) <= u32::MAX {
        Some(digits_value(digits) as u32)
    } else {
        None
    }
}

/// Ten to the power of `n`.
pub open spec fn pow10(n: nat) -> nat
    decreases n,
{
    if n == 0 {
        1
    } else {
        10 * pow10((n - 1) as nat)
    }
}

/// `size` times ten to the power of `shift`, rounded down: with a negative
/// `shift` the last digits of `size` are dropped.
pub open spec fn shifted(size: nat, shift: int) -> nat {
    if shift >= 0 {
        size * pow10(shift as nat)
    } else {
        size / pow10((-shift) as nat)
    }
}

/// Where the mark of an exponent, `e` or `E`, first occurs in `text`, or the
/// length of `text` if it does not occur.
pub open spec fn spec_find_mark(text: Seq<u8>) -> int
    decreases text.len(),
{
    if text.len() == 0 || text[0] == 101 || text[0] == 69 {
        0
    } else {
        1 + spec_find_mark(text.skip(1))
    }
}

/// The exponent that `text` spells: digits with or without a sign, and at
/// least one of them. `None` for any other text.
pub open spec fn spec_exponent(text: Seq<u8>) -> Option<int> {
    let digits = unsigned(text);
    if digits.len() > 0 && all_digits(digits) {
        Some(
            if text[0] == 45 {
                -(digits_value(digits) as int)
            } else {
                digits_value(digits) as int
            },
        )
    } else {
        None
    }
}

/// The coordinate that `text` spells, in millionths: a decimal number with
/// or without a sign, with or without a point, with at least one digit
/// before an exponent that it may end in, that fits into `i32` once it
/// counts millionths. What lies below a millionth is dropped. `None` for any
/// other text.
pub open spec fn spec_coordinate(text: Seq<u8>) -> Option<i32> {
    let body = unsigned(text);
    let mark = spec_find_mark(body);
    let mantissa = body.take(mark);
    let exponent = if mark < body.len() {
        spec_exponent(body.skip(mark + 1))
    } else {
        Some(0int)
    };
    let point = spec_find(mantissa, 46);
    let whole = mantissa.take(point);
    let decimals = if point < mantissa.len() {
        mantissa.skip(point + 1)
    } else {
        Seq::<u8>::empty()
    };
    match exponent {
        Some(power) => {
            let size = shifted(digits_value(whole + decimals), power - decimals.len() + 6);
            let value = if text.len() > 0 && text[0] == 45 {
                -(size as int)
            } else {
                size as int
            };
            if all_digits(whole) && all_digits(decimals) && whole.len() + decimals.len() > 0
                && i32::MIN <= value <= i32::MAX {
                Some(value as i32)
            } else {
                None
            }
        },
        None => None,
    }
}

/// The number that digits spell does not shrink when more digits follow.
pub proof fn lemma_digits_grow(text: Seq<u8>, n: int)
    requires
        0 <= n <= text.len(),
        all_digits(text),
    ensures
        digits_value(text.take(n)) <= digits_value(text),
    decreases text.len() - n,
{
    if n < text.len() {
        lemma_digits_grow(text, n + 1);
        assert(text.take(n + 1).drop_last() =~= text.take(n));
        assert(is_digit(text[n]));
        assert(text.take(n + 1).last() == text[n]);
        assert(digits_value(text.take(n)) * 10 >= digits_value(text.take(n))) by (nonlinear_arith);
    } else {
        assert(text.take(n) =~= text);
    }
}

/// Reads the number that the digits of `text` from `from` on spell, as long
/// as it stays at or below `most`; `None` if there is another byte among
/// them or if the number is larger.
pub fn read_digits(text: &Vec<u8>, from: usize, most: u128) -> (value: Option<u128>)
    requires
        from <= text@.len(),
        most <= 0x1_0000_0000_0000_0000_0000_0000_0000,
    ensures
        match value {
            Some(v) => all_digits(text@.skip(from as int)) && v == digits_value(
                text@.skip(from as int),
            ) && v <= most,
            None => !all_digits(text@.skip(from as int)) || digits_value(text@.skip(from as int))
                > most,
        },
{
    let ghost digits = text@.skip(from as int);
    let mut value: u128 = 0;
    let mut at: usize = from;
    assert(digits.take(0) =~= Seq::<u8>::empty());
    while at < text.len()
        invariant
            from <= at <= text@.len(),
            digits == text@.skip(from as int),
            most <= 0x1_0000_0000_0000_0000_0000_0000_0000,
            all_digits(digits.take(at - from)),
            value == digits_value(digits.take(at - from)),
            value <= most,
        decreases text@.len() - at,
    {
        let byte = text[at];
        assert(digits[at - from] == byte);
        if byte < 48 || byte > 57 {
            assert(!is_digit(digits[at - from]));
            return None;
        }
        proof {
            assert(digits.take(at - from + 1).drop_last() =~= digits.take(at - from));
            assert(digits.take(at - from + 1).last() == byte);
            assert forall|i: int| 0 <= i < at - from + 1 implies is_digit(
                #[trigger] digits.take(at - from + 1)[i],
            ) by {
                if i < at - from {
                    assert(digits.take(at - from)[i] == digits[i]);
                }
            }
        }
        value = value * 10 + (byte - 48) as u128;
        at += 1;
        if value > most {
            proof {
                if all_digits(digits) {
                    lemma_digits_grow(digits, at - from);
                }
            }
            return None;
        }
    }
    assert(digits.take(at - from) =~= digits);
    Some(value)
}

/// The index that `text` spells.
pub fn index(text: &Vec<u8>) -> (value: Option<u32>)
    ensures
        value == spec_index(text@),
{
    let from: usize = if text.len() > 0 && text[0] == 43 { 1 } else { 0 };
    assert(text@.skip(0) =~= text@);
    if from == text.len() {
        return None;
    }
    match read_digits(text, from, 0xffff_ffff) {
        Some(value) => Some(value as u32),
        None => None,
    }
}

/// Digits spell a number below ten to the power of their count.
pub proof fn lemma_digits_bound(text: Seq<u8>)
    requires
        all_digits(text),
    ensures
        digits_value(text) < pow10(text.len()),
    decreases text.len(),
{
    if text.len() > 0 {
        assert forall|i: int| 0 <= i < text.drop_last().len() implies is_digit(
            #[trigger] text.drop_last()[i],
        ) by {
            assert(text.drop_last()[i] == text[i]);
        }
        lemma_digits_bound(text.drop_last());
        assert(is_digit(text[text.len() - 1]));
    }
}

/// Whether `text` holds digits only.
pub fn only_digits(text: &Vec<u8>) -> (only: bool)
    ensures
        only == all_digits(text@),
{
    let mut at: usize = 0;
    while at < text.len()
        invariant
            0 <= at <= text@.len(),
            forall|i: int| 0 <= i < at ==> is_digit(#[trigger] text@[i]),
        decreases text@.len() - at,
    {
        if text[at] < 48 || text[at] > 57 {
            assert(!is_digit(text@[at as int]));
            return false;
        }
        at += 1;
    }
    true
}

/// A power of ten is at least one.
pub proof fn lemma_pow10_positive(n: nat)
    ensures
        pow10(n) >= 1,
    decreases n,
{
    if n > 0 {
        lemma_pow10_positive((n - 1) as nat);
    }
}

/// A larger power of ten is a larger number.
pub proof fn lemma_pow10_monotone(a: nat, b: nat)
    requires
        a <= b,
    ensures
        pow10(a) <= pow10(b),
    decreases b,
{
    if a < b {
        lemma_pow10_monotone(a, (b - 1) as nat);
        lemma_pow10_positive((b - 1) as nat);
    }
}

/// The number that digits spell is the number that the first `n` of them
/// spell, moved up by the count of the others, plus the number that the
/// others spell, which is less than ten to the power of their count.
pub proof fn lemma_digits_split(text: Seq<u8>, n: int)
    requires
        all_digits(text),
        0 <= n <= text.len(),
    ensures
        digits_value(text) == digits_value(text.take(n)) * pow10((text.len() - n) as nat)
            + digits_value(text.skip(n)),
        digits_value(text.skip(n)) < pow10((text.len() - n) as nat),
    decreases text.len(),
{
    let tail = text.skip(n);
    assert forall|i: int| 0 <= i < tail.len() implies is_digit(#[trigger] tail[i]) by {
        assert(tail[i] == text[i + n]);
    }
    lemma_digits_bound(tail);
    if n == text.len() {
        assert(text.take(n) =~= text);
        assert(tail =~= Seq::<u8>::empty());
        assert(digits_value(text) * 1 == digits_value(text)) by (nonlinear_arith);
    } else {
        let front = text.drop_last();
        assert forall|i: int| 0 <= i < front.len() implies is_digit(#[trigger] front[i]) by {
            assert(front[i] == text[i]);
        }
        lemma_digits_split(front, n);
        assert(front.take(n) =~= text.take(n));
        assert(tail.drop_last() =~= front.skip(n));
        assert(tail.last() == text.last());
        let head = digits_value(text.take(n));
        let low = pow10((front.len() - n) as nat);
        let rest = digits_value(front.skip(n));
        assert(pow10((text.len() - n) as nat) == 10 * low);
        assert((head * low + rest) * 10 == head * (10 * low) + rest * 10) by (nonlinear_arith);
    }
}

/// Dropping the last `cut` digits of a number divides it by ten to the power
/// of `cut`; dropping as many digits as it has, or more, leaves zero.
pub proof fn lemma_digits_cut(text: Seq<u8>, cut: nat)
    requires
        all_digits(text),
    ensures
        cut <= text.len() ==> digits_value(text) / pow10(cut) == digits_value(
            text.take(text.len() - cut),
        ),
        cut >= text.len() ==> digits_value(text) / pow10(cut) == 0,
{
    lemma_pow10_positive(cut);
    if cut <= text.len() {
        let n = text.len() - cut;
        lemma_digits_split(text, n);
        vstd::arithmetic::div_mod::lemma_fundamental_div_mod_converse(
            digits_value(text) as int,
            pow10(cut) as int,
            digits_value(text.take(n)) as int,
            digits_value(text.skip(n)) as int,
        );
    }
    if cut >= text.len() {
        lemma_digits_bound(text);
        lemma_pow10_monotone(text.len(), cut);
        vstd::arithmetic::div_mod::lemma_fundamental_div_mod_converse(
            digits_value(text) as int,
            pow10(cut) as int,
            0,
            digits_value(text) as int,
        );
    }
}

/// The first place at or after `from` where the mark of an exponent occurs
/// in `text`, or the length of `text`.
pub fn find_mark(text: &Vec<u8>, from: usize) -> (at: usize)
    requires
        from <= text@.len(),
    ensures
        at == from + spec_find_mark(text@.skip(from as int)),
        from <= at <= text@.len(),
{
    let mut at: usize = from;
    while at < text.len() && text[at] != 101 && text[at] != 69
        invariant
            from <= at <= text@.len(),
            from + spec_find_mark(text@.skip(from as int)) == at + spec_find_mark(
                text@.skip(at as int),
            ),
        decreases text@.len() - at,
    {
        assert(text@.skip(at as int).skip(1) =~= text@.skip(at + 1));
        assert(text@.skip(at as int)[0] == text@[at as int]);
        at += 1;
    }
    proof {
        if at < text@.len() {
            assert(text@.skip(at as int)[0] == text@[at as int]);
        }
    }
    at
}

/// The largest size of an exponent that [`exponent`] tells from a larger
/// one.
pub const EXPONENT_LIMIT: i128 = 0x1_0000_0000_0000_0000_0000_0000;

/// `power`, or the end of the range from minus [`EXPONENT_LIMIT`] to
/// [`EXPONENT_LIMIT`] that lies nearest to it.
pub open spec fn limited(power: int) -> int {
    if power > EXPONENT_LIMIT {
        EXPONENT_LIMIT as int
    } else if power < -EXPONENT_LIMIT {
        -EXPONENT_LIMIT
    } else {
        power
    }
}

/// The exponent that `text` spells, kept within [`EXPONENT_LIMIT`].
pub fn exponent(text: &Vec<u8>) -> (power: Option<i128>)
    ensures
        match spec_exponent(text@) {
            Some(spelled) => power == Some(limited(spelled) as i128),
            None => power.is_none(),
        },
{
    let negative = text.len() > 0 && text[0] == 45;
    let from: usize = if text.len() > 0 && (text[0] == 43 || text[0] == 45) { 1 } else { 0 };
    assert(text@.skip(0) =~= text@);
    if from == text.len() {
        return None;
    }
    let digits = slice(text, from, text.len());
    assert(digits@ =~= unsigned(text@));
    assert(digits@.skip(0) =~= digits@);
    if !only_digits(&digits) {
        return None;
    }
    let size: i128 = match read_digits(&digits, 0, 0x1_0000_0000_0000_0000_0000_0000) {
        Some(size) => size as i128,
        None => 0x1_0000_0000_0000_0000_0000_0000,
    };
    if negative {
        Some(-size)
    } else {
        Some(size)
    }
}

/// `first` with `second` behind it.
pub fn join(first: &Vec<u8>, second: &Vec<u8>) -> (both: Vec<u8>)
    ensures
        both@ == first@ + second@,
{
    let mut both: Vec<u8> = Vec::new();
    let mut at: usize = 0;
    while at < first.len()
        invariant
            0 <= at <= first@.len(),
            both@ == first@.take(at as int),
        decreases first@.len() - at,
    {
        both.push(first[at]);
        at += 1;
        assert(both@ =~= first@.take(at as int));
    }
    assert(first@.take(at as int) =~= first@);
    let mut behind: usize = 0;
    while behind < second.len()
        invariant
            0 <= behind <= second@.len(),
            both@ == first@ + second@.take(behind as int),
        decreases second@.len() - behind,
    {
        both.push(second[behind]);
        behind += 1;
        assert(both@ =~= first@ + second@.take(behind as int));
    }
    assert(second@.take(behind as int) =~= second@);
    both
}

/// `size` with `zeros` zeros behind it.
pub fn raise(size: u128, zeros: usize) -> (raised: u128)
    requires
        size <= 0x1_0000_0000,
        zeros <= 10,
    ensures
        raised == size * pow10(zeros as nat),
{
    let mut raised: u128 = size;
    let mut done: usize = 0;
    proof {
        assert(size * 1 == size) by (nonlinear_arith);
        lemma_pow10_monotone(0, 10);
    }
    while done < zeros
        invariant
            0 <= done <= zeros <= 10,
            size <= 0x1_0000_0000,
            raised == size * pow10(done as nat),
            pow10(done as nat) <= pow10(10),
        decreases zeros - done,
    {
        proof {
            lemma_pow10_monotone((done + 1) as nat, 10);
            assert(pow10(10) == 10_000_000_000) by {
                reveal_with_fuel(pow10, 11);
            }
            assert(size * (10 * pow10(done as nat)) == 10 * (size * pow10(done as nat)))
                by (nonlinear_arith);
            assert(size * pow10((done + 1) as nat) <= 0x1_0000_0000 * 10_000_000_000)
                by (nonlinear_arith)
                requires
                    size <= 0x1_0000_0000,
                    pow10((done + 1) as nat) <= 10_000_000_000,
            ;
        }
        raised = raised * 10;
        done += 1;
    }
    raised
}

/// The size of the coordinate whose digits are `digits`, `before` of them
/// before the point, under the exponent `power` (kept within
/// [`EXPONENT_LIMIT`]), as long as it is at most two to the power of 31;
/// `None` if it is larger.
pub fn size_of(digits: &Vec<u8>, before: usize, power: i128) -> (size: Option<u128>)
    requires
        all_digits(digits@),
        0 < digits@.len(),
        before <= digits@.len(),
        -EXPONENT_LIMIT <= power <= EXPONENT_LIMIT,
    ensures
        forall|spelled: int|
            limited(spelled) == power ==> match size {
                Some(s) => s <= 0x8000_0000 && s == #[trigger] shifted(
                    digits_value(digits@),
                    spelled - (digits@.len() - before) + 6,
                ),
                None => shifted(digits_value(digits@), spelled - (digits@.len() - before) + 6)
                    > 0x8000_0000,
            },
{
    let count = digits.len();
    let kept: i128 = before as i128 + power + 6;
    assert(digits@.skip(0) =~= digits@);
    if kept <= 0 {
        proof {
            assert forall|spelled: int| limited(spelled) == power implies #[trigger] shifted(
                digits_value(digits@),
                spelled - (digits@.len() - before) + 6,
            ) == 0 by {
                let shift = spelled - (count - before) + 6;
                lemma_digits_cut(digits@, (-shift) as nat);
            }
        }
        Some(0)
    } else if kept <= count as i128 {
        let front = slice(digits, 0, kept as usize);
        assert(front@ =~= digits@.take(kept as int));
        assert(front@.skip(0) =~= front@);
        let read = read_digits(&front, 0, 0x8000_0000);
        proof {
            assert forall|i: int| 0 <= i < front@.len() implies is_digit(#[trigger] front@[i]) by {
                assert(front@[i] == digits@[i]);
            }
            assert forall|spelled: int| limited(spelled) == power implies #[trigger] shifted(
                digits_value(digits@),
                spelled - (digits@.len() - before) + 6,
            ) == digits_value(front@) by {
                let shift = spelled - (count - before) + 6;
                assert(shift == kept - count);
                lemma_digits_cut(digits@, (-shift) as nat);
                if shift == 0 {
                    assert(digits@.take(kept as int) =~= digits@);
                    assert(pow10(0) == 1);
                    assert(digits_value(digits@) * 1 == digits_value(digits@))
                        by (nonlinear_arith);
                }
            }
        }
        read
    } else {
        let read = read_digits(digits, 0, 0x8000_0000);
        let zeros: i128 = kept - count as i128;
        proof {
            assert(pow10(10) == 10_000_000_000) by {
                reveal_with_fuel(pow10, 11);
            }
        }
        match read {
            None => {
                proof {
                    assert forall|spelled: int| limited(spelled) == power implies #[trigger] shifted(
                        digits_value(digits@),
                        spelled - (digits@.len() - before) + 6,
                    ) > 0x8000_0000 by {
                        let shift = spelled - (count - before) + 6;
                        lemma_pow10_positive(shift as nat);
                        assert(digits_value(digits@) * pow10(shift as nat) >= digits_value(
                            digits@,
                        )) by (nonlinear_arith)
                            requires
                                pow10(shift as nat) >= 1,
                        ;
                    }
                }
                None
            },
            Some(spelt) => {
                if spelt == 0 {
                    proof {
                        assert forall|spelled: int| limited(spelled) == power implies #[trigger] shifted(
                            digits_value(digits@),
                            spelled - (digits@.len() - before) + 6,
                        ) == 0 by {
                            let shift = spelled - (count - before) + 6;
                            assert(0 * pow10(shift as nat) == 0) by (nonlinear_arith);
                        }
                    }
                    Some(0)
                } else if zeros > 10 {
                    proof {
                        assert forall|spelled: int| limited(spelled) == power implies #[trigger] shifted(
                            digits_value(digits@),
                            spelled - (digits@.len() - before) + 6,
                        ) > 0x8000_0000 by {
                            let shift = spelled - (count - before) + 6;
                            assert(shift >= 10);
                            lemma_pow10_monotone(10, shift as nat);
                            assert(spelt * pow10(shift as nat) >= pow10(shift as nat))
                                by (nonlinear_arith)
                                requires
                                    spelt >= 1,
                            ;
                        }
                    }
                    None
                } else {
                    let raised = raise(spelt, zeros as usize);
                    proof {
                        assert forall|spelled: int| limited(spelled) == power implies #[trigger] shifted(
                            digits_value(digits@),
                            spelled - (digits@.len() - before) + 6,
                        ) == raised by {
                            let shift = spelled - (count - before) + 6;
                            assert(shift == zeros);
                        }
                    }
                    if raised <= 0x8000_0000 {
                        Some(raised)
                    } else {
                        None
                    }
                }
            },
        }
    }
}

/// The coordinate that `text` spells, in millionths.
pub fn coordinate(text: &Vec<u8>) -> (value: Option<i32>)
    ensures
        value == spec_coordinate(text@),
{
    let negative = text.len() > 0 && text[0] == 45;
    let from: usize = if text.len() > 0 && (text[0] == 43 || text[0] == 45) { 1 } else { 0 };
    let ghost body = unsigned(text@);
    assert(text@.skip(0) =~= text@);
    assert(body == text@.skip(from as int));
    let mark = find_mark(text, from);
    let mantissa = slice(text, from, mark);
    assert(mantissa@ =~= body.take(spec_find_mark(body)));
    let power: i128 = if mark < text.len() {
        let behind = slice(text, mark + 1, text.len());
        assert(behind@ =~= body.skip(spec_find_mark(body) + 1));
        match exponent(&behind) {
            Some(power) => power,
            None => {
                return None;
            },
        }
    } else {
        0
    };
    let ghost spelled: int = if mark < text@.len() {
        spec_exponent(body.skip(spec_find_mark(body) + 1)).unwrap()
    } else {
        0
    };
    assert(limited(spelled) == power);
    assert(mantissa@.skip(0) =~= mantissa@);
    let point = find(&mantissa, 0, 46);
    let whole = slice(&mantissa, 0, point);
    let decimals = if point < mantissa.len() {
        slice(&mantissa, point + 1, mantissa.len())
    } else {
        Vec::new()
    };
    proof {
        assert(whole@ =~= mantissa@.take(spec_find(mantissa@, 46)));
        if point < mantissa@.len() {
            assert(decimals@ =~= mantissa@.skip(spec_find(mantissa@, 46) + 1));
        }
    }
    if whole.len() + decimals.len() == 0 {
        return None;
    }
    if !only_digits(&whole) || !only_digits(&decimals) {
        return None;
    }
    let digits = join(&whole, &decimals);
    proof {
        assert forall|i: int| 0 <= i < digits@.len() implies is_digit(#[trigger] digits@[i]) by {
            if i < whole@.len() {
                assert(digits@[i] == whole@[i]);
            } else {
                assert(digits@[i] == decimals@[i - whole@.len()]);
            }
        }
    }
    let size = size_of(&digits, whole.len(), power);
    proof {
        let exact = shifted(digits_value(digits@), spelled - (digits@.len() - whole@.len()) + 6);
        assert(size matches Some(s) ==> s == exact);
        assert(size is None ==> exact > 0x8000_0000);
    }
    match size {
        Some(size) => {
            if negative {
                Some((-(size as i64)) as i32)
            } else if size <= 0x7fff_ffff {
                Some(size as i32)
            } else {
                None
            }
        },
        None => None,
    }
}

/// What was read of a mesh so far.
pub struct Model {
    /// The positions, in the order of their `v` lines.
    pub positions: Vec<[i32; 3]>,
    /// The normals, in the order of their `vn` lines.
    pub normals: Vec<[i32; 3]>,
    /// The corners of the faces, in the order of their `f` lines: for each
    /// the place of its position and that of its normal, counted from zero.
    pub corners: Vec<(u32, u32)>,
}

/// What was read of a mesh so far, as sequences.
pub struct Draft {
    pub positions: Seq<[i32; 3]>,
    pub normals: Seq<[i32; 3]>,
    pub corners: Seq<(u32, u32)>,
}

impl View for Model {
    type V = Draft;

    open spec fn view(&self) -> Draft {
        Draft { positions: self.positions@, normals: self.normals@, corners: self.corners@ }
    }
}

/// The three coordinates that a `v` or `vn` line holds after its command, or
/// `None` if one is missing or is no coordinate. What follows them on the
/// line plays no part.
pub open spec fn spec_triple(line: Seq<u8>) -> Option<[i32; 3]> {
    match (spec_field(line, SPACE, 1), spec_field(line, SPACE, 2), spec_field(line, SPACE, 3)) {
        (Some(first), Some(second), Some(third)) => match (
            spec_coordinate(first),
            spec_coordinate(second),
            spec_coordinate(third),
        ) {
            (Some(x), Some(y), Some(z)) => Some([x, y, z]),
            _ => None,
        },
        _ => None,
    }
}

/// The corner that `text` spells: the number of a position, anything, and
/// the number of a normal, parted by slashes. The numbers count from one in
/// the text and from zero in the corner.
pub open spec fn spec_corner(text: Seq<u8>) -> Option<(u32, u32)> {
    match (spec_field(text, SLASH, 0), spec_field(text, SLASH, 1), spec_field(text, SLASH, 2)) {
        (Some(position), Some(_), Some(normal)) => match (
            spec_index(position),
            spec_index(normal),
        ) {
            (Some(p), Some(n)) => if p >= 1 && n >= 1 {
                Some(((p - 1) as u32, (n - 1) as u32))
            } else {
                None
            },
            _ => None,
        },
        _ => None,
    }
}

/// The corner that field `n` of the `f` line `line` spells.
pub open spec fn spec_corner_at(line: Seq<u8>, n: nat) -> Option<(u32, u32)> {
    match spec_field(line, SPACE, n) {
        Some(text) => spec_corner(text),
        None => None,
    }
}

/// `draft` with what `line` adds to it, by the command that the line starts
/// with: `v` adds a position, `vn` a normal and `f` the three corners of a
/// triangle; `o` and `s` add nothing. `None` for a line that starts with
/// anything else, or that does not hold what its command asks for.
pub open spec fn spec_read_line(line: Seq<u8>, draft: Draft) -> Option<Draft> {
    let command = line.take(spec_find(line, SPACE));
    if command == seq![111u8] || command == seq![115u8] {
        Some(draft)
    } else if command == seq![118u8] {
        match spec_triple(line) {
            Some(position) => Some(Draft { positions: draft.positions.push(position), ..draft }),
            None => None,
        }
    } else if command == seq![118u8, 110u8] {
        match spec_triple(line) {
            Some(normal) => Some(Draft { normals: draft.normals.push(normal), ..draft }),
            None => None,
        }
    } else if command == seq![102u8] {
        match (spec_corner_at(line, 1), spec_corner_at(line, 2), spec_corner_at(line, 3)) {
            (Some(first), Some(second), Some(third)) => Some(
                Draft { corners: draft.corners.push(first).push(second).push(third), ..draft },
            ),
            _ => None,
        }
    } else {
        None
    }
}

/// `draft` with what the lines of `text` add to it, one after the other.
/// Empty lines and lines that start with `#` are passed over. Every other
/// line must end in a newline and be read by [`spec_read_line`]; if one is
/// not, the result is `None`.
pub open spec fn spec_read(text: Seq<u8>, draft: Draft) -> Option<Draft>
    decreases text.len(),
{
    if text.len() == 0 {
        Some(draft)
    } else {
        let end = spec_find(text, NEWLINE);
        let rest = if 0 <= end < text.len() {
            text.skip(end + 1)
        } else {
            Seq::<u8>::empty()
        };
        if end == 0 || text[0] == HASH {
            spec_read(rest, draft)
        } else if end == text.len() {
            None
        } else {
            match spec_read_line(text.take(end), draft) {
                Some(next) => spec_read(rest, next),
                None => None,
            }
        }
    }
}

/// The vertices and the indices that `draft` stands for: one vertex for
/// each corner, made of the position and the normal that the corner names,
/// and beside it the place of that position. `None` if a corner names a
/// position or a normal that is not there.
pub open spec fn spec_assemble(draft: Draft) -> Option<(Seq<Vertex>, Seq<u32>)> {
    if forall|i: int|
        0 <= i < draft.corners.len() ==> (#[trigger] draft.corners[i]).0 < draft.positions.len()
            && draft.corners[i].1 < draft.normals.len() {
        Some(
            (
                Seq::new(
                    draft.corners.len(),
                    |i: int|
                        Vertex {
                            position: draft.positions[draft.corners[i].0 as int],
                            normal: draft.normals[draft.corners[i].1 as int],
                        },
                ),
                Seq::new(draft.corners.len(), |i: int| draft.corners[i].0),
            ),
        )
    } else {
        None
    }
}

/// The mesh that `text` describes: its vertices, three for each triangle,
/// and for each vertex the place of its position among the positions.
/// `None` for a text that cannot be read or names what is not there.
pub open spec fn spec_load(text: Seq<u8>) -> Option<(Seq<Vertex>, Seq<u32>)> {
    match spec_read(
        text,
        Draft { positions: Seq::empty(), normals: Seq::empty(), corners: Seq::empty() },
    ) {
        Some(draft) => spec_assemble(draft),
        None => None,
    }
}

/// The three coordinates of a `v` or `vn` line.
pub fn triple(line: &Vec<u8>) -> (value: Option<[i32; 3]>)
    ensures
        value == spec_triple(line@),
{
    let first = match field(line, SPACE, 1) {
        Some(text) => text,
        None => {
            return None;
        },
    };
    let second = match field(line, SPACE, 2) {
        Some(text) => text,
        None => {
            return None;
        },
    };
    let third = match field(line, SPACE, 3) {
        Some(text) => text,
        None => {
            return None;
        },
    };
    match (coordinate(&first), coordinate(&second), coordinate(&third)) {
        (Some(x), Some(y), Some(z)) => {
            let value: [i32; 3] = [x, y, z];
            assert(value =~= spec_triple(line@).unwrap());
            Some(value)
        },
        _ => None,
    }
}

/// The corner that `text` spells.
pub fn corner(text: &Vec<u8>) -> (value: Option<(u32, u32)>)
    ensures
        value == spec_corner(text@),
{
    let position = match field(text, SLASH, 0) {
        Some(part) => part,
        None => {
            return None;
        },
    };
    if field(text, SLASH, 1).is_none() {
        return None;
    }
    let normal = match field(text, SLASH, 2) {
        Some(part) => part,
        None => {
            return None;
        },
    };
    match (index(&position), index(&normal)) {
        (Some(p), Some(n)) => if p >= 1 && n >= 1 {
            Some((p - 1, n - 1))
        } else {
            None
        },
        _ => None,
    }
}

/// The corner that field `n` of an `f` line spells.
pub fn corner_at(line: &Vec<u8>, n: usize) -> (value: Option<(u32, u32)>)
    ensures
        value == spec_corner_at(line@, n as nat),
{
    match field(line, SPACE, n) {
        Some(text) => corner(&text),
        None => None,
    }
}

impl Model {
    /// A model with nothing in it.
    pub fn new() -> (model: Self)
        ensures
            model@ == (Draft {
                positions: Seq::empty(),
                normals: Seq::empty(),
                corners: Seq::empty(),
            }),
    {
        Model { positions: Vec::new(), normals: Vec::new(), corners: Vec::new() }
    }

    /// Adds what `line` holds. Returns whether the line could be read; if
    /// not, the model stays as it is.
    pub fn read_line(&mut self, line: &Vec<u8>) -> (read: bool)
        ensures
            match spec_read_line(line@, old(self)@) {
                Some(next) => read && final(self)@ == next,
                None => !read && final(self)@ == old(self)@,
            },
    {
        let end = find(line, 0, SPACE);
        let command = slice(line, 0, end);
        proof {
            assert(line@.skip(0) =~= line@);
            assert(command@ =~= line@.take(spec_find(line@, SPACE)));
        }
        let n = command.len();
        if n == 1 && (command[0] == 111 || command[0] == 115) {
            assert(command@ =~= seq![111u8] || command@ =~= seq![115u8]);
            true
        } else if n == 1 && command[0] == 118 {
            assert(command@ =~= seq![118u8]);
            assert(command@ != seq![111u8] && command@ != seq![115u8]) by {
                assert(seq![111u8][0] == 111u8);
                assert(seq![115u8][0] == 115u8);
            }
            match triple(line) {
                Some(position) => {
                    self.positions.push(position);
                    true
                },
                None => false,
            }
        } else if n == 2 && command[0] == 118 && command[1] == 110 {
            assert(command@ =~= seq![118u8, 110u8]);
            assert(seq![111u8].len() == 1 && seq![115u8].len() == 1 && seq![118u8].len() == 1);
            match triple(line) {
                Some(normal) => {
                    self.normals.push(normal);
                    true
                },
                None => false,
            }
        } else if n == 1 && command[0] == 102 {
            assert(command@ =~= seq![102u8]);
            assert(command@ != seq![111u8] && command@ != seq![115u8] && command@ != seq![118u8])
                by {
                assert(seq![111u8][0] == 111u8);
                assert(seq![115u8][0] == 115u8);
                assert(seq![118u8][0] == 118u8);
            }
            assert(seq![118u8, 110u8].len() == 2);
            match (corner_at(line, 1), corner_at(line, 2), corner_at(line, 3)) {
                (Some(first), Some(second), Some(third)) => {
                    self.corners.push(first);
                    self.corners.push(second);
                    self.corners.push(third);
                    true
                },
                _ => false,
            }
        } else {
            proof {
                assert(seq![111u8].len() == 1 && seq![111u8][0] == 111u8);
                assert(seq![115u8].len() == 1 && seq![115u8][0] == 115u8);
                assert(seq![118u8].len() == 1 && seq![118u8][0] == 118u8);
                assert(seq![102u8].len() == 1 && seq![102u8][0] == 102u8);
                assert(seq![118u8, 110u8].len() == 2 && seq![118u8, 110u8][0] == 118u8 && seq![
                    118u8,
                    110u8,
                ][1] == 110u8);
            }
            false
        }
    }

    /// The vertices and the indices that the model stands for.
    pub fn assemble(&self) -> (mesh: Option<(Vec<Vertex>, Vec<u32>)>)
        ensures
            match (mesh, spec_assemble(self@)) {
                (Some((vertices, indices)), Some((wanted, places))) => vertices@ == wanted
                    && indices@ == places,
                (None, None) => true,
                _ => false,
            },
    {
        let mut vertices: Vec<Vertex> = Vec::new();
        let mut indices: Vec<u32> = Vec::new();
        let mut at: usize = 0;
        while at < self.corners.len()
            invariant
                0 <= at <= self.corners@.len(),
                vertices@.len() == at,
                indices@.len() == at,
                forall|i: int|
                    0 <= i < at ==> (#[trigger] self.corners@[i]).0 < self.positions@.len()
                        && self.corners@[i].1 < self.normals@.len(),
                forall|i: int|
                    0 <= i < at ==> #[trigger] vertices@[i] == (Vertex {
                        position: self.positions@[self.corners@[i].0 as int],
                        normal: self.normals@[self.corners@[i].1 as int],
                    }),
                forall|i: int| 0 <= i < at ==> #[trigger] indices@[i] == self.corners@[i].0,
            decreases self.corners@.len() - at,
        {
            let (p, n) = self.corners[at];
            if p as usize >= self.positions.len() || n as usize >= self.normals.len() {
                assert(!(self.corners@[at as int].0 < self.positions@.len()
                    && self.corners@[at as int].1 < self.normals@.len()));
                return None;
            }
            vertices.push(
                Vertex { position: self.positions[p as usize], normal: self.normals[n as usize] },
            );
            indices.push(p);
            at += 1;
        }
        proof {
            let (wanted, places) = spec_assemble(self@).unwrap();
            assert(vertices@ =~= wanted);
            assert(indices@ =~= places);
        }
        Some((vertices, indices))
    }
}

/// Reads the mesh that `text` describes: its vertices, three for each
/// triangle, and for each vertex the place of its position among the
/// positions. `None` for a text that cannot be read or names what is not
/// there.
pub fn load(text: &Vec<u8>) -> (mesh: Option<(Vec<Vertex>, Vec<u32>)>)
    ensures
        match (mesh, spec_load(text@)) {
            (Some((vertices, indices)), Some((wanted, places))) => vertices@ == wanted && indices@
                == places,
            (None, None) => true,
            _ => false,
        },
{
    let mut model = Model::new();
    let mut at: usize = 0;
    assert(text@.skip(0) =~= text@);
    while at < text.len()
        invariant
            0 <= at <= text@.len(),
            spec_read(
                text@,
                Draft { positions: Seq::empty(), normals: Seq::empty(), corners: Seq::empty() },
            ) == spec_read(text@.skip(at as int), model@),
        decreases text@.len() - at,
    {
        let end = find(text, at, NEWLINE);
        let ghost here = text@.skip(at as int);
        let next: usize = if end < text.len() { end + 1 } else { end };
        proof {
            assert(here[0] == text@[at as int]);
            if end < text@.len() {
                assert(here.skip(end - at + 1) =~= text@.skip(next as int));
            } else {
                assert(text@.skip(next as int) =~= Seq::<u8>::empty());
            }
        }
        if end == at || text[at] == HASH {
            at = next;
        } else if end == text.len() {
            return None;
        } else {
            let line = slice(text, at, end);
            assert(line@ =~= here.take(end - at));
            if !model.read_line(&line) {
                return None;
            }
            at = next;
        }
    }
    model.assemble()
}

} // verus!
