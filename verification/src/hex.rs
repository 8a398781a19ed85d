//! Bytes as hexadecimal text, and back.

use crate::text;
use crate::text::{
    chars_of, hex2_text, hex_digit_value, is_white_space, quote, quote_char,
};
use vstd::prelude::*;

verus! {

/// Two lowercase digits per byte, without separators.
pub open spec fn hex_of(bytes: Seq<u8>) -> Seq<char> {
    Seq::new(
        2 * bytes.len(),
        |i: int|
            text::hex_digit(
                (if i % 2 == 0 {
                    bytes[i / 2] / 16
                } else {
                    bytes[i / 2] % 16
                }) as nat,
                false,
            ),
    )
}

/// Two uppercase digits per byte, a space between each two bytes.
pub open spec fn spaced_hex_of(bytes: Seq<u8>) -> Seq<char> {
    Seq::new(
        if bytes.len() == 0 {
            0
        } else {
            (3 * bytes.len() - 1) as nat
        },
        |i: int|
            if i % 3 == 0 {
                text::hex_digit((bytes[i / 3] / 16) as nat, true)
            } else if i % 3 == 1 {
                text::hex_digit((bytes[i / 3] % 16) as nat, true)
            } else {
                ' '
            },
    )
}

/// Lowercase hexadecimal, without separators.
pub fn hex(bytes: &[u8]) -> (r: String)
    ensures
        r@ == hex_of(bytes@),
{
    let mut s = String::new();
    let mut i: usize = 0;
    while i < bytes.len()
        invariant
            i <= bytes.len(),
            s@ == hex_of(bytes@.take(i as int)),
        decreases bytes.len() - i,
    {
        s = s.concat(hex2_text(bytes[i], false).as_str());
        i = i + 1;
        assert(s@ =~= hex_of(bytes@.take(i as int)));
    }
    assert(bytes@.take(bytes@.len() as int) =~= bytes@);
    s
}

/// Uppercase hexadecimal, bytes separated by single spaces.
pub fn spaced_hex(bytes: &[u8]) -> (r: String)
    ensures
        r@ == spaced_hex_of(bytes@),
{
    let mut s = String::new();
    let mut i: usize = 0;
    while i < bytes.len()
        invariant
            i <= bytes.len(),
            s@ == spaced_hex_of(bytes@.take(i as int)),
        decreases bytes.len() - i,
    {
        if i > 0 {
            s.push(' ');
        }
        s = s.concat(hex2_text(bytes[i], true).as_str());
        i = i + 1;
        assert(s@ =~= spaced_hex_of(bytes@.take(i as int)));
    }
    assert(bytes@.take(bytes@.len() as int) =~= bytes@);
    s
}

/// The characters of `s` that are not white space, in order.
pub open spec fn without_space(s: Seq<char>) -> Seq<char>
    decreases s.len(),
{
    if s.len() == 0 {
        Seq::empty()
    } else if text::white_space(s.last()) {
        without_space(s.drop_last())
    } else {
        without_space(s.drop_last()).push(s.last())
    }
}

/// The first character that is not a hexadecimal digit, if there is one.
pub open spec fn first_non_digit(s: Seq<char>) -> Option<char>
    decreases s.len(),
{
    if s.len() == 0 {
        None
    } else if first_non_digit(s.drop_last()) is Some {
        first_non_digit(s.drop_last())
    } else if text::hex_value(s.last()) is None {
        Some(s.last())
    } else {
        None
    }
}

/// The bytes that an even number of digits spells.
pub open spec fn bytes_of_digits(digits: Seq<char>) -> Seq<u8> {
    Seq::new(
        digits.len() / 2,
        |i: int|
            (16 * text::hex_value(digits[2 * i])->0 + text::hex_value(
                digits[2 * i + 1],
            )->0) as u8,
    )
}

/// What hexadecimal text with white space anywhere in it spells, or why it
/// spells nothing.
pub open spec fn parsed_hex(s: Seq<char>) -> Result<Seq<u8>, Seq<char>> {
    let digits = without_space(s);
    match first_non_digit(digits) {
        Some(c) => Err("not a hex digit: "@ + text::quoted_char(c)),
        None => if digits.len() % 2 != 0 {
            Err("hex has an odd number of digits: "@ + text::quoted(s))
        } else {
            Ok(bytes_of_digits(digits))
        },
    }
}

/// The contents of a parse result.
pub open spec fn bytes_result(r: Result<Vec<u8>, String>) -> Result<Seq<u8>, Seq<char>> {
    match r {
        Ok(v) => Ok(v@),
        Err(e) => Err(e@),
    }
}

/// A prefix with a character that is not a digit decides the whole.
proof fn lemma_first_non_digit_prefix(s: Seq<char>, n: int)
    requires
        0 <= n <= s.len(),
        first_non_digit(s.take(n)) is Some,
    ensures
        first_non_digit(s) == first_non_digit(s.take(n)),
    decreases s.len() - n,
{
    if n < s.len() {
        let longer = s.take(n + 1);
        assert(longer.drop_last() =~= s.take(n));
        lemma_first_non_digit_prefix(s, n + 1);
    } else {
        assert(s.take(n) =~= s);
    }
}

/// The characters of a prefix come first.
proof fn lemma_without_space_prefix(s: Seq<char>, n: int)
    requires
        0 <= n <= s.len(),
    ensures
        without_space(s.take(n)).len() <= without_space(s).len(),
        without_space(s).take(without_space(s.take(n)).len() as int) == without_space(s.take(n)),
    decreases s.len() - n,
{
    if n < s.len() {
        let longer = s.take(n + 1);
        assert(longer.drop_last() =~= s.take(n));
        lemma_without_space_prefix(s, n + 1);
        let a = without_space(s.take(n));
        let b = without_space(longer);
        assert(b.take(a.len() as int) =~= a);
        assert(without_space(s).take(b.len() as int).take(a.len() as int) =~= without_space(s).take(
            a.len() as int,
        ));
    } else {
        assert(s.take(n) =~= s);
        assert(without_space(s).take(without_space(s).len() as int) =~= without_space(s));
    }
}

/// Each digit of a sequence without other characters has a value.
proof fn lemma_all_digits(s: Seq<char>, i: int)
    requires
        first_non_digit(s) is None,
        0 <= i < s.len(),
    ensures
        text::hex_value(s[i]) is Some,
        text::hex_value(s[i])->0 < 16,
    decreases s.len(),
{
    if i < s.len() - 1 {
        lemma_all_digits(s.drop_last(), i);
        assert(s.drop_last()[i] == s[i]);
    }
}

/// Hexadecimal text, white space ignored, as bytes.
pub fn parse_hex(s: &str) -> (r: Result<Vec<u8>, String>)
    ensures
        bytes_result(r) == parsed_hex(s@),
{
    let chars = chars_of(s);
    let mut digits: Vec<u8> = Vec::new();
    let ghost mut seen: Seq<char> = Seq::empty();
    let mut i: usize = 0;
    while i < chars.len()
        invariant
            i <= chars.len(),
            chars@ == s@,
            seen == without_space(s@.take(i as int)),
            first_non_digit(seen) is None,
            digits@.len() == seen.len(),
            forall|k: int|
                0 <= k < seen.len() ==> text::hex_value(seen[k]) == Some(
                    #[trigger] digits@[k],
                ) && digits@[k] < 16,
        decreases chars.len() - i,
    {
        let c = chars[i];
        proof {
            assert(s@.take(i + 1).drop_last() =~= s@.take(i as int));
            assert(s@.take(i + 1).last() == c);
        }
        if !is_white_space(c) {
            proof {
                assert(seen.push(c).drop_last() =~= seen);
            }
            match hex_digit_value(c) {
                Some(d) => {
                    digits.push(d);
                },
                None => {
                    proof {
                        let n = seen.push(c);
                        assert(n.last() == c);
                        lemma_without_space_prefix(s@, i + 1);
                        assert(without_space(s@.take(i + 1)) == n);
                        lemma_first_non_digit_prefix(without_space(s@), n.len() as int);
                    }
                    return Err("not a hex digit: ".to_owned().concat(quote_char(c).as_str()));
                },
            }
            proof {
                seen = seen.push(c);
            }
        }
        i = i + 1;
    }
    assert(s@.take(s@.len() as int) =~= s@);
    if digits.len() % 2 != 0 {
        return Err(
            "hex has an odd number of digits: ".to_owned().concat(quote(s).as_str()),
        );
    }
    let mut out: Vec<u8> = Vec::new();
    let mut j: usize = 0;
    while j < digits.len()
        invariant
            j <= digits.len(),
            digits@.len() % 2 == 0,
            j % 2 == 0,
            out@.len() == j / 2,
            digits@.len() == seen.len(),
            forall|k: int|
                0 <= k < seen.len() ==> text::hex_value(seen[k]) == Some(
                    #[trigger] digits@[k],
                ) && digits@[k] < 16,
            forall|k: int| 0 <= k < j / 2 ==> #[trigger] out@[k] == bytes_of_digits(seen)[k],
        decreases digits.len() - j,
    {
        out.push(16 * digits[j] + digits[j + 1]);
        j = j + 2;
    }
    assert(out@ =~= bytes_of_digits(seen));
    Ok(out)
}

/// Whether `s` is whole hexadecimal bytes separated by single spaces.
pub open spec fn is_hex_field(s: Seq<char>) -> bool {
    &&& s.len() > 0
    &&& forall|i: int|
        0 <= i < s.len() ==> (#[trigger] s[i] == ' ' || text::hex_value(s[i]) is Some)
    &&& forall|k: int|
        0 <= k < text::pieces(s, ' ').len() ==> {
            let run = #[trigger] text::pieces(s, ' ')[k];
            run.len() > 0 && run.len() % 2 == 0
        }
}

/// What a field of whole hexadecimal bytes spells, or why it is none.
pub open spec fn parsed_hex_field(s: Seq<char>) -> Result<Seq<u8>, Seq<char>> {
    if is_hex_field(s) {
        parsed_hex(s)
    } else {
        Err(text::quoted(s) + " is not whole hex bytes separated by single spaces"@)
    }
}

/// Closed pieces stay as they are when the text goes on.
proof fn lemma_pieces_prefix(s: Seq<char>, n: int, k: int)
    requires
        0 <= n <= s.len(),
        0 <= k < text::pieces(s.take(n), ' ').len() - 1,
    ensures
        text::pieces(s, ' ').len() >= text::pieces(s.take(n), ' ').len(),
        text::pieces(s, ' ')[k] == text::pieces(s.take(n), ' ')[k],
    decreases s.len() - n,
{
    if n < s.len() {
        let longer = s.take(n + 1);
        assert(longer.drop_last() =~= s.take(n));
        lemma_pieces_prefix(s, n + 1, k);
    } else {
        assert(s.take(n) =~= s);
    }
}

fn hex_field(s: &str) -> (r: bool)
    ensures
        r == is_hex_field(s@),
{
    let chars = chars_of(s);
    if chars.len() == 0 {
        return false;
    }
    let mut i: usize = 0;
    let mut run: usize = 0;
    proof {
        text::lemma_pieces_nonempty(s@.take(0), ' ');
    }
    while i < chars.len()
        invariant
            i <= chars.len(),
            chars@ == s@,
            run <= i,
            text::pieces(s@.take(i as int), ' ').len() >= 1,
            run == text::pieces(s@.take(i as int), ' ').last().len(),
            forall|k: int|
                0 <= k < i ==> (#[trigger] s@[k] == ' ' || text::hex_value(s@[k]) is Some),
            forall|k: int|
                0 <= k < text::pieces(s@.take(i as int), ' ').len() - 1 ==> {
                    let p = #[trigger] text::pieces(s@.take(i as int), ' ')[k];
                    p.len() > 0 && p.len() % 2 == 0
                },
        decreases chars.len() - i,
    {
        let c = chars[i];
        let ghost before = text::pieces(s@.take(i as int), ' ');
        let ghost after = text::pieces(s@.take(i + 1), ' ');
        proof {
            assert(s@.take(i + 1).drop_last() =~= s@.take(i as int));
            assert(s@.take(i + 1).last() == c);
        }
        if c == ' ' {
            if run == 0 || run % 2 != 0 {
                proof {
                    let k = before.len() - 1;
                    assert(after == before.push(Seq::empty()));
                    lemma_pieces_prefix(s@, i + 1, k);
                    assert(text::pieces(s@, ' ')[k] == before[k]);
                }
                return false;
            }
            proof {
                assert forall|k: int| 0 <= k < after.len() - 1 implies {
                    let p = #[trigger] after[k];
                    p.len() > 0 && p.len() % 2 == 0
                } by {
                    assert(after[k] == before[k]);
                }
            }
            run = 0;
        } else {
            if hex_digit_value(c).is_none() {
                assert(s@[i as int] == c);
                return false;
            }
            proof {
                assert forall|k: int| 0 <= k < after.len() - 1 implies {
                    let p = #[trigger] after[k];
                    p.len() > 0 && p.len() % 2 == 0
                } by {
                    assert(after[k] == before[k]);
                }
            }
            run = run + 1;
        }
        i = i + 1;
    }
    assert(s@.take(s@.len() as int) =~= s@);
    let ghost all = text::pieces(s@, ' ');
    assert(all[all.len() - 1].len() == run);
    run > 0 && run % 2 == 0
}

/// Whole hexadecimal bytes, separated by single spaces, as bytes.
pub fn parse_hex_field(s: &str) -> (r: Result<Vec<u8>, String>)
    ensures
        bytes_result(r) == parsed_hex_field(s@),
{
    if !hex_field(s) {
        return Err(
            quote(s).concat(" is not whole hex bytes separated by single spaces"),
        );
    }
    parse_hex(s)
}

// ---------------------------------------------------------------------------
// Laws
// ---------------------------------------------------------------------------

/// Two digits per byte, in the given case.
spec fn digits_of(bytes: Seq<u8>, upper: bool) -> Seq<char> {
    Seq::new(
        2 * bytes.len(),
        |i: int|
            text::hex_digit(
                (if i % 2 == 0 {
                    bytes[i / 2] / 16
                } else {
                    bytes[i / 2] % 16
                }) as nat,
                upper,
            ),
    )
}

proof fn lemma_no_space(s: Seq<char>)
    requires
        forall|i: int| 0 <= i < s.len() ==> !text::white_space(#[trigger] s[i]),
    ensures
        without_space(s) == s,
    decreases s.len(),
{
    if s.len() > 0 {
        assert forall|i: int| 0 <= i < s.drop_last().len() implies !text::white_space(
            #[trigger] s.drop_last()[i],
        ) by {
            assert(s.drop_last()[i] == s[i]);
        }
        lemma_no_space(s.drop_last());
        assert(s.drop_last().push(s.last()) =~= s);
    }
}

proof fn lemma_only_digits(s: Seq<char>)
    requires
        forall|i: int| 0 <= i < s.len() ==> text::hex_value(#[trigger] s[i]) is Some,
    ensures
        first_non_digit(s) is None,
    decreases s.len(),
{
    if s.len() > 0 {
        assert forall|i: int| 0 <= i < s.drop_last().len() implies text::hex_value(
            #[trigger] s.drop_last()[i],
        ) is Some by {
            assert(s.drop_last()[i] == s[i]);
        }
        lemma_only_digits(s.drop_last());
    }
}

proof fn lemma_digits_spell(bytes: Seq<u8>, upper: bool)
    ensures
        first_non_digit(digits_of(bytes, upper)) is None,
        bytes_of_digits(digits_of(bytes, upper)) == bytes,
        forall|i: int|
            0 <= i < 2 * bytes.len() ==> !text::white_space(
                #[trigger] digits_of(bytes, upper)[i],
            ),
{
    let d = digits_of(bytes, upper);
    assert forall|i: int| 0 <= i < d.len() implies text::hex_value(#[trigger] d[i]) is Some
        && !text::white_space(d[i]) by {
        let v: u8 = if i % 2 == 0 {
            bytes[i / 2] / 16
        } else {
            bytes[i / 2] % 16
        };
        text::lemma_hex_digit_value(v as nat, upper);
    }
    lemma_only_digits(d);
    assert forall|i: int| 0 <= i < bytes.len() implies #[trigger] bytes_of_digits(d)[i]
        == bytes[i] by {
        text::lemma_hex_digit_value((bytes[i] / 16) as nat, upper);
        text::lemma_hex_digit_value((bytes[i] % 16) as nat, upper);
        assert((2 * i) / 2 == i && (2 * i) % 2 == 0);
        assert((2 * i + 1) / 2 == i && (2 * i + 1) % 2 == 1);
    }
    assert(bytes_of_digits(d) =~= bytes);
}

/// What `hex` writes, `parse_hex` reads back.
pub proof fn law_hex_reads_back(bytes: Seq<u8>)
    ensures
        parsed_hex(hex_of(bytes)) == Ok::<Seq<u8>, Seq<char>>(bytes),
{
    assert(hex_of(bytes) =~= digits_of(bytes, false));
    lemma_digits_spell(bytes, false);
    lemma_no_space(hex_of(bytes));
}

proof fn lemma_spaced_steps(bytes: Seq<u8>)
    requires
        bytes.len() > 0,
    ensures
        ({
            let hi = text::hex_digit((bytes.last() / 16) as nat, true);
            let lo = text::hex_digit((bytes.last() % 16) as nat, true);
            let before = spaced_hex_of(bytes.drop_last());
            spaced_hex_of(bytes) == if bytes.len() == 1 {
                seq![hi, lo]
            } else {
                before.push(' ').push(hi).push(lo)
            }
        }),
{
    let hi = text::hex_digit((bytes.last() / 16) as nat, true);
    let lo = text::hex_digit((bytes.last() % 16) as nat, true);
    let before = spaced_hex_of(bytes.drop_last());
    if bytes.len() == 1 {
        assert(spaced_hex_of(bytes) =~= seq![hi, lo]);
    } else {
        assert(spaced_hex_of(bytes) =~= before.push(' ').push(hi).push(lo));
    }
}

proof fn lemma_spaced_digits(bytes: Seq<u8>)
    ensures
        without_space(spaced_hex_of(bytes)) == digits_of(bytes, true),
    decreases bytes.len(),
{
    reveal_with_fuel(without_space, 4);
    let s = spaced_hex_of(bytes);
    if bytes.len() == 0 {
        assert(s =~= Seq::empty());
        assert(digits_of(bytes, true) =~= Seq::empty());
    } else {
        lemma_spaced_steps(bytes);
        lemma_spaced_digits(bytes.drop_last());
        let hi = text::hex_digit((bytes.last() / 16) as nat, true);
        let lo = text::hex_digit((bytes.last() % 16) as nat, true);
        text::lemma_hex_digit_value((bytes.last() / 16) as nat, true);
        text::lemma_hex_digit_value((bytes.last() % 16) as nat, true);
        let before = spaced_hex_of(bytes.drop_last());
        assert(digits_of(bytes, true) =~= digits_of(bytes.drop_last(), true).push(hi).push(lo));
        if bytes.len() == 1 {
            assert(seq![hi, lo].drop_last() =~= seq![hi]);
            assert(seq![hi].drop_last() =~= Seq::empty());
            assert(before =~= Seq::empty());
            assert(without_space(seq![hi]) =~= seq![hi]);
        } else {
            assert(before.push(' ').push(hi).push(lo).drop_last() =~= before.push(' ').push(hi));
            assert(before.push(' ').push(hi).drop_last() =~= before.push(' '));
            assert(before.push(' ').drop_last() =~= before);
        }
    }
}

proof fn lemma_spaced_field(bytes: Seq<u8>)
    requires
        bytes.len() > 0,
    ensures
        text::pieces(spaced_hex_of(bytes), ' ').len() == bytes.len(),
        forall|k: int|
            0 <= k < bytes.len() ==> (#[trigger] text::pieces(
                spaced_hex_of(bytes),
                ' ',
            )[k]).len() == 2,
    decreases bytes.len(),
{
    reveal_with_fuel(text::pieces, 4);
    lemma_spaced_steps(bytes);
    let hi = text::hex_digit((bytes.last() / 16) as nat, true);
    let lo = text::hex_digit((bytes.last() % 16) as nat, true);
    text::lemma_hex_digit_value((bytes.last() / 16) as nat, true);
    text::lemma_hex_digit_value((bytes.last() % 16) as nat, true);
    let before = spaced_hex_of(bytes.drop_last());
    if bytes.len() == 1 {
        assert(seq![hi, lo].drop_last() =~= seq![hi]);
        assert(seq![hi].drop_last() =~= Seq::empty());
    } else {
        lemma_spaced_field(bytes.drop_last());
        assert(before.push(' ').push(hi).push(lo).drop_last() =~= before.push(' ').push(hi));
        assert(before.push(' ').push(hi).drop_last() =~= before.push(' '));
        assert(before.push(' ').drop_last() =~= before);
        let old_pieces = text::pieces(before, ' ');
        let new_pieces = text::pieces(spaced_hex_of(bytes), ' ');
        assert(new_pieces.len() == old_pieces.len() + 1);
        assert forall|k: int| 0 <= k < bytes.len() implies (#[trigger] new_pieces[k]).len()
            == 2 by {
            if k < old_pieces.len() {
                assert(new_pieces[k] == old_pieces[k]);
            }
        }
    }
}

/// What `spaced_hex` writes for at least one byte, `parse_hex_field` reads back.
#[verifier::spinoff_prover]
pub proof fn law_spaced_hex_reads_back(bytes: Seq<u8>)
    requires
        bytes.len() > 0,
    ensures
        parsed_hex_field(spaced_hex_of(bytes)) == Ok::<Seq<u8>, Seq<char>>(bytes),
{
    let s = spaced_hex_of(bytes);
    lemma_spaced_digits(bytes);
    lemma_digits_spell(bytes, true);
    lemma_spaced_field(bytes);
    assert forall|i: int| 0 <= i < s.len() implies (#[trigger] s[i] == ' ' || text::hex_value(
        s[i],
    ) is Some) by {
        text::lemma_hex_digit_value((bytes[i / 3] / 16) as nat, true);
        text::lemma_hex_digit_value((bytes[i / 3] % 16) as nat, true);
    }
    assert(is_hex_field(s));
}

proof fn lemma_field_parity(s: Seq<char>)
    requires
        forall|i: int|
            0 <= i < s.len() ==> (#[trigger] s[i] == ' ' || text::hex_value(s[i]) is Some),
        forall|k: int|
            0 <= k < text::pieces(s, ' ').len() - 1 ==> (#[trigger] text::pieces(
                s,
                ' ',
            )[k]).len() % 2 == 0,
    ensures
        first_non_digit(without_space(s)) is None,
        without_space(s).len() % 2 == text::pieces(s, ' ').last().len() % 2,
    decreases s.len(),
{
    text::lemma_pieces_nonempty(s, ' ');
    if s.len() > 0 {
        let t = s.drop_last();
        let before = text::pieces(t, ' ');
        let after = text::pieces(s, ' ');
        text::lemma_pieces_nonempty(t, ' ');
        assert forall|i: int| 0 <= i < t.len() implies (#[trigger] t[i] == ' ' || text::hex_value(
            t[i],
        ) is Some) by {
            assert(t[i] == s[i]);
        }
        assert forall|k: int| 0 <= k < before.len() - 1 implies (#[trigger] before[k]).len() % 2
            == 0 by {
            assert(after[k] == before[k]);
        }
        lemma_field_parity(t);
        assert(s.last() == s[s.len() - 1]);
        if s.last() == ' ' {
            assert(after[before.len() - 1] == before.last());
        } else {
            assert(!text::white_space(s.last()));
            assert(without_space(t).push(s.last()).drop_last() =~= without_space(t));
        }
    }
}

/// A field is accepted exactly where it is whole bytes between single spaces,
/// and is then read as `parse_hex` reads it.
pub proof fn law_field_is_stricter(s: Seq<char>)
    ensures
        parsed_hex_field(s) is Ok <==> is_hex_field(s),
        is_hex_field(s) ==> parsed_hex_field(s) == parsed_hex(s),
{
    if is_hex_field(s) {
        let p = text::pieces(s, ' ');
        text::lemma_pieces_nonempty(s, ' ');
        assert(p[p.len() - 1].len() % 2 == 0);
        lemma_field_parity(s);
    }
}

proof fn lemma_without_space_adds(a: Seq<char>, b: Seq<char>)
    ensures
        without_space(a + b) == without_space(a) + without_space(b),
    decreases b.len(),
{
    if b.len() == 0 {
        assert(a + b =~= a);
        assert(without_space(a) + without_space(b) =~= without_space(a));
    } else {
        lemma_without_space_adds(a, b.drop_last());
        assert((a + b).drop_last() =~= a + b.drop_last());
        assert((a + b).last() == b.last());
        assert(without_space(a + b) =~= without_space(a) + without_space(b));
    }
}

proof fn lemma_non_digit(s: Seq<char>, at: int)
    requires
        0 <= at < s.len(),
        text::hex_value(s[at]) is None,
        forall|i: int| 0 <= i < at ==> text::hex_value(#[trigger] s[i]) is Some,
    ensures
        first_non_digit(s) == Some(s[at]),
    decreases s.len(),
{
    let before = s.drop_last();
    if at < before.len() {
        assert forall|i: int| 0 <= i < at implies text::hex_value(#[trigger] before[i]) is Some by {
            assert(before[i] == s[i]);
        }
        lemma_non_digit(before, at);
    } else {
        assert forall|i: int| 0 <= i < before.len() implies text::hex_value(
            #[trigger] before[i],
        ) is Some by {
            assert(before[i] == s[i]);
        }
        lemma_only_digits(before);
    }
}

/// Nothing at all spells no bytes.
pub proof fn law_nothing_is_no_bytes()
    ensures
        parsed_hex(Seq::empty()) == Ok::<Seq<u8>, Seq<char>>(Seq::empty()),
{
    assert(bytes_of_digits(Seq::empty()) =~= Seq::empty());
}

/// White space does not count, wherever it stands.
pub proof fn law_white_space_is_passed_over(a: Seq<char>, c: char, b: Seq<char>, bytes: Seq<u8>)
    requires
        text::white_space(c),
    ensures
        parsed_hex(a + seq![c] + b) == Ok::<Seq<u8>, Seq<char>>(bytes) <==> parsed_hex(a + b) == Ok::<
            Seq<u8>,
            Seq<char>,
        >(bytes),
{
    lemma_without_space_adds(a + seq![c], b);
    lemma_without_space_adds(a, seq![c]);
    lemma_without_space_adds(a, b);
    assert(seq![c].drop_last() =~= Seq::empty());
    assert(seq![c].last() == c);
    reveal_with_fuel(without_space, 2);
    assert(without_space(seq![c]) =~= Seq::empty());
    assert(without_space(a) + Seq::empty() =~= without_space(a));
}

/// Each two digits spell a byte, the upper half first.
pub proof fn law_two_digits_are_a_byte(a: Seq<char>, x: char, y: char)
    requires
        text::hex_value(x) is Some,
        text::hex_value(y) is Some,
        parsed_hex(a) is Ok,
    ensures
        parsed_hex(a.push(x).push(y)) matches Ok(bytes) && bytes.len() == parsed_hex(a)->Ok_0.len() + 1
            && bytes.drop_last() == parsed_hex(a)->Ok_0 && bytes.last() == 16 * text::hex_value(x)->0
            + text::hex_value(y)->0,
{
    let s = a.push(x).push(y);
    let d = without_space(a);
    assert(s.drop_last() =~= a.push(x));
    assert(a.push(x).drop_last() =~= a);
    assert(!text::white_space(x) && !text::white_space(y));
    assert(without_space(a.push(x)) == d.push(x));
    assert(without_space(s) == d.push(x).push(y));
    let e = d.push(x).push(y);
    assert(e.drop_last() =~= d.push(x));
    assert(d.push(x).drop_last() =~= d);
    assert(first_non_digit(d.push(x)) is None);
    assert(first_non_digit(e) is None);
    let bytes = bytes_of_digits(e);
    assert(bytes.drop_last() =~= bytes_of_digits(d));
    let k = bytes.len() - 1;
    assert(e[2 * k] == x && e[2 * k + 1] == y);
}

proof fn lemma_digit_count(s: Seq<char>)
    requires
        forall|i: int|
            0 <= i < s.len() ==> text::white_space(#[trigger] s[i]) || text::hex_value(s[i]) is Some,
    ensures
        without_space(s) == s.filter(|c: char| text::hex_value(c) is Some),
        first_non_digit(without_space(s)) is None,
    decreases s.len(),
{
    reveal(Seq::filter);
    if s.len() > 0 {
        let before = s.drop_last();
        assert forall|i: int| 0 <= i < before.len() implies text::white_space(#[trigger] before[i])
            || text::hex_value(before[i]) is Some by {
            assert(before[i] == s[i]);
        }
        lemma_digit_count(before);
        assert(s.last() == s[s.len() - 1]);
        if !text::white_space(s.last()) {
            assert(without_space(before).push(s.last()).drop_last() =~= without_space(before));
        }
    }
}

/// Text of digits and white space is read exactly where its digits come in pairs.
pub proof fn law_digits_come_in_pairs(s: Seq<char>)
    requires
        forall|i: int|
            0 <= i < s.len() ==> text::white_space(#[trigger] s[i]) || text::hex_value(s[i]) is Some,
    ensures
        ({
            let n = s.filter(|c: char| text::hex_value(c) is Some).len();
            if n % 2 == 0 {
                parsed_hex(s) matches Ok(bytes) && 2 * bytes.len() == n
            } else {
                parsed_hex(s) == Err::<Seq<u8>, Seq<char>>(
                    "hex has an odd number of digits: "@ + text::quoted(s),
                )
            }
        }),
{
    lemma_digit_count(s);
}

/// The first character that is neither a digit nor white space is refused by name.
pub proof fn law_first_stray_character_is_named(s: Seq<char>, at: int)
    requires
        0 <= at < s.len(),
        !text::white_space(s[at]),
        text::hex_value(s[at]) is None,
        forall|i: int|
            0 <= i < at ==> text::white_space(#[trigger] s[i]) || text::hex_value(s[i]) is Some,
    ensures
        parsed_hex(s) == Err::<Seq<u8>, Seq<char>>("not a hex digit: "@ + text::quoted_char(s[at])),
{
    let a = s.take(at);
    let b = s.skip(at);
    assert(s =~= a + b);
    assert forall|i: int| 0 <= i < a.len() implies text::white_space(#[trigger] a[i])
        || text::hex_value(a[i]) is Some by {
        assert(a[i] == s[i]);
    }
    lemma_digit_count(a);
    lemma_without_space_adds(a, b);
    let tail = b.skip(1);
    assert(b =~= seq![s[at]] + tail);
    lemma_without_space_adds(seq![s[at]], tail);
    assert(seq![s[at]].drop_last() =~= Seq::empty());
    assert(seq![s[at]].last() == s[at]);
    reveal_with_fuel(without_space, 2);
    assert(without_space(seq![s[at]]) =~= seq![s[at]]);
    let d = without_space(s);
    let n = without_space(a).len() as int;
    assert(d[n] == s[at]);
    assert forall|i: int| 0 <= i < n implies text::hex_value(#[trigger] d[i]) is Some by {
        assert(d[i] == without_space(a)[i]);
        lemma_all_digits(without_space(a), i);
    }
    lemma_non_digit(d, n);
}

/// Hex shows each byte in two digits, the upper half first, without capitals.
pub proof fn law_hex_shows_each_byte(bytes: Seq<u8>, i: int)
    requires
        0 <= i < bytes.len(),
    ensures
        hex_of(bytes).len() == 2 * bytes.len(),
        text::hex_value(hex_of(bytes)[2 * i]) matches Some(hi) && (text::hex_value(
            hex_of(bytes)[2 * i + 1],
        ) matches Some(lo) && 16 * hi + lo == bytes[i]),
        !('A' <= hex_of(bytes)[2 * i] <= 'F'),
        !('A' <= hex_of(bytes)[2 * i + 1] <= 'F'),
{
    text::lemma_hex_digit_value((bytes[i] / 16) as nat, false);
    text::lemma_hex_digit_value((bytes[i] % 16) as nat, false);
    assert((2 * i) / 2 == i && (2 * i) % 2 == 0);
    assert((2 * i + 1) / 2 == i && (2 * i + 1) % 2 == 1);
}

/// Spaced hex shows each byte in two digits, the upper half first, in capitals, with
/// one space between a byte and the next.
pub proof fn law_spaced_hex_shows_each_byte(bytes: Seq<u8>, i: int)
    requires
        0 <= i < bytes.len(),
    ensures
        spaced_hex_of(bytes).len() + 1 == 3 * bytes.len(),
        text::hex_value(spaced_hex_of(bytes)[3 * i]) matches Some(hi) && (text::hex_value(
            spaced_hex_of(bytes)[3 * i + 1],
        ) matches Some(lo) && 16 * hi + lo == bytes[i]),
        !('a' <= spaced_hex_of(bytes)[3 * i] <= 'f'),
        !('a' <= spaced_hex_of(bytes)[3 * i + 1] <= 'f'),
        i + 1 < bytes.len() ==> spaced_hex_of(bytes)[3 * i + 2] == ' ',
{
    text::lemma_hex_digit_value((bytes[i] / 16) as nat, true);
    text::lemma_hex_digit_value((bytes[i] % 16) as nat, true);
    assert((3 * i) / 3 == i && (3 * i) % 3 == 0);
    assert((3 * i + 1) / 3 == i && (3 * i + 1) % 3 == 1);
    assert((3 * i + 2) / 3 == i && (3 * i + 2) % 3 == 2);
}

/// A field begins and ends with a digit, and has no two spaces side by side.
pub proof fn law_field_has_single_spaces(s: Seq<char>, i: int)
    requires
        is_hex_field(s),
        0 <= i < s.len(),
    ensures
        s.len() >= 2,
        text::hex_value(s[0]) is Some,
        text::hex_value(s.last()) is Some,
        s[i] == ' ' || text::hex_value(s[i]) is Some,
        s[i] == ' ' ==> 2 <= i < s.len() - 2 && text::hex_value(s[i - 2]) is Some
            && text::hex_value(s[i - 1]) is Some && text::hex_value(s[i + 1]) is Some
            && text::hex_value(s[i + 2]) is Some,
{
    lemma_field_ends(s);
    assert(s[0] == ' ' || text::hex_value(s[0]) is Some);
    if s[i] == ' ' {
        lemma_field_break(s, i);
    }
    if s[0] == ' ' {
        lemma_field_break(s, 0);
    }
}

proof fn lemma_field_ends(s: Seq<char>)
    requires
        is_hex_field(s),
    ensures
        s.len() >= 2,
        text::hex_value(s.last()) is Some,
        text::hex_value(s[s.len() - 2]) is Some,
{
    reveal_with_fuel(text::pieces, 3);
    let p = text::pieces(s, ' ');
    text::lemma_pieces_nonempty(s, ' ');
    text::lemma_pieces_nonempty(s.drop_last(), ' ');
    assert(p[p.len() - 1].len() > 0);
    assert(s.last() == s[s.len() - 1]);
    assert(s.last() != ' ');
    if s.len() == 1 {
        assert(s.drop_last() =~= Seq::empty());
        assert(p[0].len() == 1);
    } else {
        let t = s.drop_last();
        text::lemma_pieces_nonempty(t.drop_last(), ' ');
        assert(t.last() == s[s.len() - 2]);
        if t.last() == ' ' {
            assert(p[p.len() - 1].len() == 1);
        }
    }
}

proof fn lemma_field_break(s: Seq<char>, i: int)
    requires
        is_hex_field(s),
        0 <= i < s.len(),
        s[i] == ' ',
    ensures
        2 <= i < s.len() - 2,
        text::hex_value(s[i - 2]) is Some,
        text::hex_value(s[i - 1]) is Some,
        text::hex_value(s[i + 1]) is Some,
        text::hex_value(s[i + 2]) is Some,
{
    reveal_with_fuel(text::pieces, 3);
    let p = text::pieces(s, ' ');
    let a = s.take(i);
    let pa = text::pieces(a, ' ');
    text::lemma_pieces_nonempty(a, ' ');
    assert(s.take(i + 1).drop_last() =~= a);
    assert(text::pieces(s.take(i + 1), ' ') == pa.push(Seq::empty()));
    let k = pa.len() - 1;
    lemma_pieces_prefix(s, i + 1, k);
    assert(p[k] == pa[k]);
    assert(p[k].len() > 0 && p[k].len() % 2 == 0);
    assert(a.len() > 0) by {
        if a.len() == 0 {
            assert(pa[0].len() == 0);
        }
    }
    assert forall|j: int| 0 <= j < p.len() && j < pa.len() implies (#[trigger] pa[j]).len() > 0
        && pa[j].len() % 2 == 0 by {
        if j < k {
            lemma_pieces_prefix(s, i, j);
        }
        assert(p[j] == pa[j]);
    }
    assert forall|j: int| 0 <= j < a.len() implies (#[trigger] a[j] == ' ' || text::hex_value(
        a[j],
    ) is Some) by {
        assert(a[j] == s[j]);
    }
    assert(is_hex_field(a));
    lemma_field_ends(a);
    assert(a.last() == s[i - 1]);
    assert(a[a.len() - 2] == s[i - 2]);
    lemma_field_ends(s);
    assert(i < s.len() - 2) by {
        assert(s.last() == s[s.len() - 1]);
    }
    lemma_next_run(s, i);
}

proof fn lemma_next_run(s: Seq<char>, i: int)
    requires
        is_hex_field(s),
        0 <= i < s.len() - 2,
        s[i] == ' ',
    ensures
        s[i + 1] != ' ',
        s[i + 2] != ' ',
        text::hex_value(s[i + 1]) is Some,
        text::hex_value(s[i + 2]) is Some,
{
    let p = text::pieces(s, ' ');
    let pa = text::pieces(s.take(i), ' ');
    let n = pa.len() as int;
    text::lemma_pieces_nonempty(s.take(i), ' ');
    assert(s.take(i + 1).drop_last() =~= s.take(i));
    assert(s.take(i + 2).drop_last() =~= s.take(i + 1));
    assert(s.take(i + 3).drop_last() =~= s.take(i + 2));
    assert(s.take(i + 1).last() == s[i]);
    assert(s.take(i + 2).last() == s[i + 1]);
    assert(s.take(i + 3).last() == s[i + 2]);
    let p1 = text::pieces(s.take(i + 1), ' ');
    let p2 = text::pieces(s.take(i + 2), ' ');
    let p3 = text::pieces(s.take(i + 3), ' ');
    assert(p1 == pa.push(Seq::empty()));
    if s[i + 1] == ' ' {
        assert(p2 == p1.push(Seq::empty()));
        lemma_pieces_prefix(s, i + 2, n);
        assert(p[n].len() == 0);
    } else if s[i + 2] == ' ' {
        assert(p2[n].len() == 1);
        assert(p3 == p2.push(Seq::empty()));
        lemma_pieces_prefix(s, i + 3, n);
        assert(p[n].len() == 1);
    }
    assert(s[i + 1] == ' ' || text::hex_value(s[i + 1]) is Some);
    assert(s[i + 2] == ' ' || text::hex_value(s[i + 2]) is Some);
}

/// One byte in two digits is a field; so is a field with another byte behind it, with a
/// space between them or without.
pub proof fn law_field_grows_by_whole_bytes(s: Seq<char>, x: char, y: char)
    requires
        text::hex_value(x) is Some,
        text::hex_value(y) is Some,
    ensures
        is_hex_field(seq![x, y]),
        is_hex_field(s) ==> is_hex_field(s.push(x).push(y)),
        is_hex_field(s) ==> is_hex_field(s.push(' ').push(x).push(y)),
        s.len() > 0 && !is_hex_field(s) ==> !is_hex_field(s.push(x).push(y)) || (s.last() == ' '
            && is_hex_field(s.drop_last())),
{
    reveal_with_fuel(text::pieces, 4);
    assert(seq![x, y].drop_last() =~= seq![x]);
    assert(seq![x].drop_last() =~= Seq::empty());
    let one = text::pieces(seq![x, y], ' ');
    assert(one.len() == 1);
    assert(one[0].len() == 2);
    text::lemma_pieces_nonempty(s, ' ');
    let p = text::pieces(s, ' ');
    let joined = s.push(x).push(y);
    assert(joined.drop_last() =~= s.push(x));
    assert(s.push(x).drop_last() =~= s);
    let pj = text::pieces(joined, ' ');
    assert(pj.len() == p.len());
    assert forall|k: int| 0 <= k < p.len() - 1 implies #[trigger] pj[k] == p[k] by {}
    assert(pj[p.len() - 1].len() == p[p.len() - 1].len() + 2);
    let apart = s.push(' ').push(x).push(y);
    assert(apart.drop_last() =~= s.push(' ').push(x));
    assert(s.push(' ').push(x).drop_last() =~= s.push(' '));
    assert(s.push(' ').drop_last() =~= s);
    let pp = text::pieces(apart, ' ');
    assert(pp.len() == p.len() + 1);
    assert forall|k: int| 0 <= k < p.len() implies #[trigger] pp[k] == p[k] by {}
    assert(pp[p.len() as int].len() == 2);
    if is_hex_field(s) {
        assert forall|i: int| 0 <= i < joined.len() implies (#[trigger] joined[i] == ' '
            || text::hex_value(joined[i]) is Some) by {
            if i < s.len() {
                assert(joined[i] == s[i]);
            }
        }
        assert forall|i: int| 0 <= i < apart.len() implies (#[trigger] apart[i] == ' '
            || text::hex_value(apart[i]) is Some) by {
            if i < s.len() {
                assert(apart[i] == s[i]);
            }
        }
        assert forall|k: int| 0 <= k < pj.len() implies (#[trigger] pj[k]).len() > 0 && pj[k].len()
            % 2 == 0 by {
            assert(p[k].len() % 2 == 0);
        }
        assert forall|k: int| 0 <= k < pp.len() implies (#[trigger] pp[k]).len() > 0 && pp[k].len()
            % 2 == 0 by {
            if k < p.len() {
                assert(p[k].len() > 0);
            }
        }
    }
    if s.len() > 0 && !is_hex_field(s) && is_hex_field(joined) {
        assert forall|i: int| 0 <= i < s.len() implies (#[trigger] s[i] == ' ' || text::hex_value(
            s[i],
        ) is Some) by {
            assert(joined[i] == s[i]);
        }
        let n = p.len() - 1;
        assert(pj[n].len() % 2 == 0);
        assert(p[n].len() == 0) by {
            if p[n].len() > 0 {
                assert forall|k: int| 0 <= k < p.len() implies (#[trigger] p[k]).len() > 0
                    && p[k].len() % 2 == 0 by {
                    assert(pj[k].len() > 0 && pj[k].len() % 2 == 0);
                }
            }
        }
        let t = s.drop_last();
        text::lemma_pieces_nonempty(t, ' ');
        assert(s.last() == ' ');
        let pt = text::pieces(t, ' ');
        assert(p == pt.push(Seq::empty()));
        assert forall|k: int| 0 <= k < pt.len() implies (#[trigger] pt[k]).len() > 0 && pt[k].len()
            % 2 == 0 by {
            assert(pj[k] == p[k]);
        }
        assert(t.len() > 0) by {
            if t.len() == 0 {
                assert(pt[0].len() == 0);
            }
        }
        assert forall|i: int| 0 <= i < t.len() implies (#[trigger] t[i] == ' ' || text::hex_value(
            t[i],
        ) is Some) by {
            assert(t[i] == s[i]);
        }
    }
}

} // verus!
