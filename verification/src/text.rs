//! Text building blocks: decimal and hexadecimal digits, padding, joining,
//! splitting, comparing and searching.
//!
//! Each function that returns a `String` is specified by a spec function over
//! `Seq<char>`, so the messages of the other modules are stated to the letter.

use vstd::prelude::*;

verus! {

// ---------------------------------------------------------------------------
// What the standard library renders
// ---------------------------------------------------------------------------

/// `String::push` appends the character to the end of the string.
pub assume_specification[ String::push ](s: &mut String, c: char)
    ensures
        final(s)@ == old(s)@.push(c),
;

/// What `{:?}` writes for a string: the text between double quotes, escaped.
pub uninterp spec fn quoted(s: Seq<char>) -> Seq<char>;

/// What `{:?}` writes for a character: the character between single quotes, escaped.
pub uninterp spec fn quoted_char(c: char) -> Seq<char>;

/// What `str::to_lowercase` makes of a string.
pub uninterp spec fn lowercase(s: Seq<char>) -> Seq<char>;

/// The `Debug` form of a string, by `format!`. The escapes follow the Unicode
/// tables of the standard library and are not spelled out here; the result
/// depends on the text alone.
#[verifier::external_body]
pub(crate) fn quote(s: &str) -> (r: String)
    ensures
        r@ == quoted(s@),
{
    format!("{s:?}")
}

/// The `Debug` form of a character, by `format!`. The escapes follow the
/// Unicode tables of the standard library and are not spelled out here; the
/// result depends on the character alone.
#[verifier::external_body]
pub(crate) fn quote_char(c: char) -> (r: String)
    ensures
        r@ == quoted_char(c),
{
    format!("{c:?}")
}

/// `str::to_lowercase`. The mapping follows the Unicode tables of the standard
/// library and is not spelled out here; the result depends on the text alone.
#[verifier::external_body]
pub(crate) fn to_lower(s: &str) -> (r: String)
    ensures
        r@ == lowercase(s@),
{
    s.to_lowercase()
}

// ---------------------------------------------------------------------------
// Characters
// ---------------------------------------------------------------------------

/// The Unicode property `White_Space`.
pub open spec fn white_space(c: char) -> bool {
    let u = c as u32;
    ||| 0x09 <= u <= 0x0D
    ||| u == 0x20
    ||| u == 0x85
    ||| u == 0xA0
    ||| u == 0x1680
    ||| 0x2000 <= u <= 0x200A
    ||| u == 0x2028
    ||| u == 0x2029
    ||| u == 0x202F
    ||| u == 0x205F
    ||| u == 0x3000
}

/// Whether `c` has the Unicode property `White_Space`.
pub fn is_white_space(c: char) -> (r: bool)
    ensures
        r == white_space(c),
{
    let u: u32 = c as u32;
    (0x09 <= u && u <= 0x0D) || u == 0x20 || u == 0x85 || u == 0xA0 || u == 0x1680 || (0x2000 <= u
        && u <= 0x200A) || u == 0x2028 || u == 0x2029 || u == 0x202F || u == 0x205F || u == 0x3000
}

/// The value of a hexadecimal digit of either case.
pub open spec fn hex_value(c: char) -> Option<u8> {
    if '0' <= c <= '9' {
        Some((c as u8 - '0' as u8) as u8)
    } else if 'a' <= c <= 'f' {
        Some((c as u8 - 'a' as u8 + 10) as u8)
    } else if 'A' <= c <= 'F' {
        Some((c as u8 - 'A' as u8 + 10) as u8)
    } else {
        None
    }
}

/// The value of a hexadecimal digit of either case.
pub fn hex_digit_value(c: char) -> (r: Option<u8>)
    ensures
        r == hex_value(c),
{
    if '0' <= c && c <= '9' {
        Some(c as u8 - 48)
    } else if 'a' <= c && c <= 'f' {
        Some(c as u8 - 97 + 10)
    } else if 'A' <= c && c <= 'F' {
        Some(c as u8 - 65 + 10)
    } else {
        None
    }
}

/// The decimal digit `d`.
pub open spec fn digit(d: nat) -> char {
    ('0' as nat + d) as char
}

/// The hexadecimal digit `d`, in the given case.
pub open spec fn hex_digit(d: nat, upper: bool) -> char {
    if d < 10 {
        digit(d)
    } else if upper {
        ('A' as nat + d - 10) as char
    } else {
        ('a' as nat + d - 10) as char
    }
}

fn digit_char(d: u8) -> (c: char)
    requires
        d < 10,
    ensures
        c == digit(d as nat),
{
    (48u8 + d) as char
}

fn hex_digit_char(d: u8, upper: bool) -> (c: char)
    requires
        d < 16,
    ensures
        c == hex_digit(d as nat, upper),
{
    if d < 10 {
        digit_char(d)
    } else if upper {
        (55u8 + d) as char
    } else {
        (87u8 + d) as char
    }
}

/// A hexadecimal digit reads back as its value.
pub proof fn lemma_hex_digit_value(d: nat, upper: bool)
    requires
        d < 16,
    ensures
        hex_value(hex_digit(d, upper)) == Some(d as u8),
        !white_space(hex_digit(d, upper)),
        hex_digit(d, upper) != ' ',
{
}

/// The characters of a string, in order.
pub fn chars_of(s: &str) -> (r: Vec<char>)
    ensures
        r@ == s@,
{
    let mut out: Vec<char> = Vec::new();
    for c in it: s.chars()
        invariant
            out@ == it.seq().take(it.index()),
            it.seq() == s@,
    {
        out.push(c);
    }
    assert(s@.take(s@.len() as int) =~= s@);
    out
}

// ---------------------------------------------------------------------------
// Numbers
// ---------------------------------------------------------------------------

/// `n` in decimal, without leading zeros.
pub open spec fn dec(n: nat) -> Seq<char>
    decreases n,
{
    if n < 10 {
        seq![digit(n)]
    } else {
        dec(n / 10).push(digit(n % 10))
    }
}

/// A signed number in decimal.
pub open spec fn dec_int(n: int) -> Seq<char> {
    if n < 0 {
        "-"@ + dec((-n) as nat)
    } else {
        dec(n as nat)
    }
}

/// `n` in decimal.
pub fn dec_text(n: u64) -> (r: String)
    ensures
        r@ == dec(n as nat),
    decreases n,
{
    let mut s = if n < 10 {
        String::new()
    } else {
        dec_text(n / 10)
    };
    let d: u8 = (n % 10) as u8;
    s.push(digit_char(d));
    assert(s@ =~= dec(n as nat));
    s
}

/// A signed number in decimal.
pub fn dec_int_text(n: i64) -> (r: String)
    ensures
        r@ == dec_int(n as int),
{
    if n < 0 {
        let magnitude: u64 = if n == i64::MIN {
            0x8000_0000_0000_0000u64
        } else {
            (-n) as u64
        };
        "-".to_owned().concat(dec_text(magnitude).as_str())
    } else {
        dec_text(n as u64)
    }
}

/// `s` with zeros before it until it has `width` characters.
pub open spec fn zero_padded(s: Seq<char>, width: nat) -> Seq<char> {
    if s.len() < width {
        Seq::new((width - s.len()) as nat, |i: int| '0') + s
    } else {
        s
    }
}

/// A signed number in decimal, with zeros after the sign until it has `width`
/// characters, the sign among them.
pub open spec fn dec_padded(n: int, width: nat) -> Seq<char> {
    if n < 0 {
        "-"@ + zero_padded(dec((-n) as nat), (width - 1) as nat)
    } else {
        zero_padded(dec(n as nat), width)
    }
}

fn zero_pad(s: String, width: usize) -> (r: String)
    ensures
        r@ == zero_padded(s@, width as nat),
{
    let have = s.as_str().unicode_len();
    if have < width {
        let mut out = String::new();
        let mut i: usize = have;
        while i < width
            invariant
                have <= i <= width,
                out@ == Seq::new((i - have) as nat, |k: int| '0'),
            decreases width - i,
        {
            out.push('0');
            i = i + 1;
            assert(out@ =~= Seq::new((i - have) as nat, |k: int| '0'));
        }
        out.concat(s.as_str())
    } else {
        s
    }
}

/// A signed number in decimal, zero-padded to `width` characters.
pub fn dec_padded_text(n: i64, width: usize) -> (r: String)
    requires
        width >= 1,
    ensures
        r@ == dec_padded(n as int, width as nat),
{
    if n < 0 {
        let magnitude: u64 = if n == i64::MIN {
            0x8000_0000_0000_0000u64
        } else {
            (-n) as u64
        };
        "-".to_owned().concat(zero_pad(dec_text(magnitude), width - 1).as_str())
    } else {
        zero_pad(dec_text(n as u64), width)
    }
}

/// The number that decimal digits spell.
pub open spec fn number(s: Seq<char>) -> int
    decreases s.len(),
{
    if s.len() == 0 {
        0
    } else {
        10 * number(s.drop_last()) + (s.last() as int - '0' as int)
    }
}

proof fn lemma_dec_number(n: nat)
    ensures
        number(dec(n)) == n,
        dec(n).len() >= 1,
        '0' <= dec(n)[0] <= '9',
        n < 100 ==> dec(n).len() <= 2,
    decreases n,
{
    reveal_with_fuel(number, 2);
    if n >= 10 {
        lemma_dec_number(n / 10);
        assert(dec(n).drop_last() =~= dec(n / 10));
        if n < 100 {
            assert(dec(n / 10).len() == 1);
        }
    } else {
        assert(dec(n).drop_last() =~= Seq::empty());
    }
}

proof fn lemma_leading_zeros(zeros: nat, s: Seq<char>)
    ensures
        number(Seq::new(zeros, |i: int| '0') + s) == number(s),
    decreases s.len(), zeros,
{
    let padded = Seq::new(zeros, |i: int| '0') + s;
    if s.len() > 0 {
        lemma_leading_zeros(zeros, s.drop_last());
        assert(padded.drop_last() =~= Seq::new(zeros, |i: int| '0') + s.drop_last());
    } else if zeros > 0 {
        lemma_leading_zeros((zeros - 1) as nat, s);
        assert(padded.drop_last() =~= Seq::new((zeros - 1) as nat, |i: int| '0') + s);
    } else {
        assert(padded =~= s);
    }
}

proof fn lemma_padded_number(n: nat, width: nat)
    ensures
        number(zero_padded(dec(n), width)) == n,
        zero_padded(dec(n), width).len() >= 1,
        '0' <= zero_padded(dec(n), width)[0] <= '9',
        n < 100 && width == 2 ==> zero_padded(dec(n), width).len() == 2,
{
    lemma_dec_number(n);
    if dec(n).len() < width {
        lemma_leading_zeros((width - dec(n).len()) as nat, dec(n));
    }
}

/// A number can be read back from its padded text, and two digits are enough for
/// numbers below a hundred.
pub proof fn lemma_dec_padded(a: int, b: int, width: nat)
    requires
        width >= 1,
    ensures
        dec_padded(a, width) == dec_padded(b, width) ==> a == b,
        0 <= a < 100 ==> dec_padded(a, 2).len() == 2,
{
    reveal_strlit("-");
    if a >= 0 {
        lemma_padded_number(a as nat, width);
        lemma_padded_number(a as nat, 2);
    } else {
        lemma_padded_number((-a) as nat, (width - 1) as nat);
        assert(dec_padded(a, width).drop_first() =~= zero_padded(
            dec((-a) as nat),
            (width - 1) as nat,
        ));
        assert(dec_padded(a, width)[0] == '-');
    }
    if b >= 0 {
        lemma_padded_number(b as nat, width);
    } else {
        lemma_padded_number((-b) as nat, (width - 1) as nat);
        assert(dec_padded(b, width).drop_first() =~= zero_padded(
            dec((-b) as nat),
            (width - 1) as nat,
        ));
        assert(dec_padded(b, width)[0] == '-');
    }
}

/// A byte as two hexadecimal digits.
pub open spec fn hex2(b: u8, upper: bool) -> Seq<char> {
    seq![hex_digit((b / 16) as nat, upper), hex_digit((b % 16) as nat, upper)]
}

/// A byte as two hexadecimal digits.
pub fn hex2_text(b: u8, upper: bool) -> (r: String)
    ensures
        r@ == hex2(b, upper),
{
    let mut s = String::new();
    s.push(hex_digit_char(b / 16, upper));
    s.push(hex_digit_char(b % 16, upper));
    assert(s@ =~= hex2(b, upper));
    s
}

/// A byte as `0x` and two lowercase digits.
pub open spec fn prefixed_hex(b: u8) -> Seq<char> {
    "0x"@ + hex2(b, false)
}

/// A byte as `0x` and two lowercase digits.
pub fn prefixed_hex_text(b: u8) -> (r: String)
    ensures
        r@ == prefixed_hex(b),
{
    "0x".to_owned().concat(hex2_text(b, false).as_str())
}

// ---------------------------------------------------------------------------
// Laying text out
// ---------------------------------------------------------------------------

/// `n` spaces.
pub open spec fn spaces(n: nat) -> Seq<char> {
    Seq::new(n, |i: int| ' ')
}

/// `s` with spaces after it until it has `width` characters.
pub open spec fn padded(s: Seq<char>, width: nat) -> Seq<char> {
    if s.len() < width {
        s + spaces((width - s.len()) as nat)
    } else {
        s
    }
}

/// `s` with spaces after it until it has `width` characters.
pub fn pad(s: &str, width: usize) -> (r: String)
    ensures
        r@ == padded(s@, width as nat),
{
    let have = s.unicode_len();
    let mut out = s.to_owned();
    let mut i: usize = have;
    while i < width
        invariant
            have == s@.len(),
            have <= i <= width || i == have,
            out@ == s@ + spaces((i - have) as nat),
        decreases width - i,
    {
        out.push(' ');
        i = i + 1;
        assert(out@ =~= s@ + spaces((i - have) as nat));
    }
    assert(out@ =~= padded(s@, width as nat));
    out
}

/// The parts one after the other, with `sep` between each two.
pub open spec fn joined<T>(parts: Seq<Seq<T>>, sep: Seq<T>) -> Seq<T>
    decreases parts.len(),
{
    if parts.len() == 0 {
        Seq::empty()
    } else if parts.len() == 1 {
        parts[0]
    } else {
        joined(parts.drop_last(), sep) + sep + parts.last()
    }
}

/// The contents of a string that may be missing.
pub open spec fn string_option(s: Option<String>) -> Option<Seq<char>> {
    match s {
        Some(s) => Some(s@),
        None => None,
    }
}

/// The contents of each string of a list.
pub open spec fn texts(list: Seq<String>) -> Seq<Seq<char>> {
    list.map_values(|s: String| s@)
}

/// The list, with `message` after it where `cond` holds.
pub open spec fn noted(list: Seq<Seq<char>>, cond: bool, message: Seq<char>) -> Seq<Seq<char>> {
    if cond {
        list.push(message)
    } else {
        list
    }
}

/// A list without texts.
pub fn no_texts() -> (r: Vec<String>)
    ensures
        texts(r@) == Seq::<Seq<char>>::empty(),
{
    let r: Vec<String> = Vec::new();
    assert(texts(r@) =~= Seq::empty());
    r
}

/// Appends a text to a list.
pub fn push_text(list: &mut Vec<String>, s: String)
    ensures
        texts(final(list)@) == texts(old(list)@).push(s@),
{
    list.push(s);
    assert(texts(list@) =~= texts(old(list)@).push(s@));
}

/// Moves the texts of `more` to the end of `list`.
pub fn append_texts(list: &mut Vec<String>, more: Vec<String>)
    ensures
        texts(final(list)@) == texts(old(list)@) + texts(more@),
{
    let mut rest = more;
    list.append(&mut rest);
    assert(texts(list@) =~= texts(old(list)@) + texts(more@));
}

/// The parts one after the other, with `sep` between each two.
pub fn join(parts: &Vec<String>, sep: &str) -> (r: String)
    ensures
        r@ == joined(texts(parts@), sep@),
{
    let mut out = String::new();
    let mut i: usize = 0;
    while i < parts.len()
        invariant
            i <= parts.len(),
            out@ == joined(texts(parts@).take(i as int), sep@),
        decreases parts.len() - i,
    {
        let ghost before = texts(parts@).take(i as int);
        let ghost after = texts(parts@).take(i + 1);
        assert(after.drop_last() =~= before);
        assert(after.last() == parts@[i as int]@);
        if i > 0 {
            out = out.concat(sep);
        }
        out = out.concat(parts[i].as_str());
        proof {
            if i == 0 {
                assert(after.len() == 1);
                assert(out@ =~= after[0]);
            }
        }
        i = i + 1;
    }
    assert(texts(parts@).take(parts@.len() as int) =~= texts(parts@));
    out
}

/// The pieces of `s` between the separators: one more than there are separators.
pub open spec fn pieces<T>(s: Seq<T>, sep: T) -> Seq<Seq<T>>
    decreases s.len(),
{
    if s.len() == 0 {
        seq![Seq::empty()]
    } else {
        let before = pieces(s.drop_last(), sep);
        if s.last() == sep {
            before.push(Seq::empty())
        } else {
            before.update(before.len() - 1, before.last().push(s.last()))
        }
    }
}

/// There is always at least one piece.
pub proof fn lemma_pieces_nonempty<T>(s: Seq<T>, sep: T)
    ensures
        pieces(s, sep).len() >= 1,
    decreases s.len(),
{
    if s.len() > 0 {
        lemma_pieces_nonempty(s.drop_last(), sep);
    }
}

/// No piece holds a separator, and the pieces joined with the separator are the
/// whole.
pub proof fn law_pieces_join<T>(s: Seq<T>, sep: T)
    ensures
        pieces(s, sep).len() >= 1,
        forall|k: int|
            0 <= k < pieces(s, sep).len() ==> !(#[trigger] pieces(s, sep)[k]).contains(sep),
        joined(pieces(s, sep), seq![sep]) == s,
    decreases s.len(),
{
    let after = pieces(s, sep);
    if s.len() == 0 {
        assert(joined(after, seq![sep]) =~= s);
    } else {
        let before = pieces(s.drop_last(), sep);
        law_pieces_join(s.drop_last(), sep);
        assert(s =~= s.drop_last().push(s.last()));
        if s.last() == sep {
            assert(after.drop_last() =~= before);
            assert(joined(after, seq![sep]) =~= s);
        } else {
            let longer = before.last().push(s.last());
            assert(!longer.contains(sep)) by {
                if longer.contains(sep) {
                    let i = choose|i: int| 0 <= i < longer.len() && longer[i] == sep;
                    assert(before[before.len() - 1].contains(before.last()[i]));
                }
            }
            assert forall|k: int| 0 <= k < after.len() implies !(#[trigger] after[k]).contains(
                sep,
            ) by {
                if k < before.len() - 1 {
                    assert(after[k] == before[k]);
                }
            }
            assert(after.drop_last() =~= before.drop_last());
            assert(joined(after, seq![sep]) =~= s);
        }
    }
}

/// What holds no separator is one piece.
pub proof fn lemma_one_piece<T>(s: Seq<T>, sep: T)
    requires
        !s.contains(sep),
    ensures
        pieces(s, sep) == seq![s],
    decreases s.len(),
{
    if s.len() == 0 {
        assert(s =~= Seq::empty());
    } else {
        assert forall|i: int| 0 <= i < s.drop_last().len() implies s.drop_last()[i] != sep by {
            assert(s.contains(s[i]));
        }
        assert(s.contains(s.last()));
        lemma_one_piece(s.drop_last(), sep);
        assert(s.drop_last().push(s.last()) =~= s);
        assert(seq![s.drop_last()].update(0, s) =~= seq![s]);
    }
}

/// The pieces of a longer sequence: all but the last stay, and the last goes on.
pub proof fn lemma_pieces_append<T>(s: Seq<T>, more: Seq<T>, sep: T)
    ensures
        pieces(s + more, sep) == pieces(s, sep).drop_last() + pieces(
            pieces(s, sep).last() + more,
            sep,
        ),
    decreases more.len(),
{
    let whole = pieces(s, sep);
    law_pieces_join(s, sep);
    let last = whole.last();
    if more.len() == 0 {
        assert(s + more =~= s);
        assert(last + more =~= last);
        assert(!whole[whole.len() - 1].contains(sep));
        lemma_one_piece(last, sep);
        assert(whole =~= whole.drop_last() + seq![last]);
    } else {
        let less = more.drop_last();
        lemma_pieces_append(s, less, sep);
        lemma_pieces_nonempty(last + less, sep);
        let tail = pieces(last + less, sep);
        assert((s + more).drop_last() =~= s + less);
        assert((last + more).drop_last() =~= last + less);
        assert((s + more).last() == more.last() && (last + more).last() == more.last());
        assert(pieces(s + more, sep) =~= whole.drop_last() + pieces(last + more, sep));
    }
}

// ---------------------------------------------------------------------------
// Comparing and searching
// ---------------------------------------------------------------------------

/// Whether two strings hold the same text.
pub fn same(a: &str, b: &str) -> (r: bool)
    ensures
        r == (a@ == b@),
{
    a.to_owned() == b.to_owned()
}

/// Whether `needle` occurs in `s`.
pub open spec fn occurs(needle: Seq<char>, s: Seq<char>) -> bool {
    exists|i: int|
        0 <= i && i + needle.len() <= s.len() && #[trigger] s.subrange(i, i + needle.len())
            == needle
}

/// Whether `needle` occurs in `s`.
pub fn contains(s: &str, needle: &str) -> (r: bool)
    ensures
        r == occurs(needle@, s@),
{
    let hay = chars_of(s);
    let pin = chars_of(needle);
    if pin.len() > hay.len() {
        return false;
    }
    let mut i: usize = 0;
    while i <= hay.len() - pin.len()
        invariant
            hay@ == s@,
            pin@ == needle@,
            pin.len() <= hay.len(),
            i <= hay.len() - pin.len() + 1,
            forall|k: int| 0 <= k < i ==> #[trigger] s@.subrange(k, k + needle@.len()) != needle@,
        decreases hay.len() - pin.len() + 1 - i,
    {
        let mut j: usize = 0;
        while j < pin.len() && hay[i + j] == pin[j]
            invariant
                hay@ == s@,
                pin@ == needle@,
                pin.len() <= hay.len(),
                i <= hay.len() - pin.len(),
                j <= pin.len(),
                forall|k: int| 0 <= k < j ==> hay@[i + k] == pin@[k],
            decreases pin.len() - j,
        {
            j = j + 1;
        }
        if j == pin.len() {
            assert(s@.subrange(i as int, i + needle@.len()) =~= needle@);
            return true;
        }
        assert(s@.subrange(i as int, i + needle@.len())[j as int] != needle@[j as int]);
        i = i + 1;
    }
    false
}

/// Lexicographic order of character sequences by code point: `a` comes before `b`.
pub open spec fn precedes(a: Seq<char>, b: Seq<char>) -> bool
    decreases a.len(),
{
    if b.len() == 0 {
        false
    } else if a.len() == 0 {
        true
    } else if a[0] != b[0] {
        a[0] < b[0]
    } else {
        precedes(a.drop_first(), b.drop_first())
    }
}

/// Whether `a` comes before `b` by code points.
pub fn comes_before(a: &str, b: &str) -> (r: bool)
    ensures
        r == precedes(a@, b@),
{
    let left = chars_of(a);
    let right = chars_of(b);
    let mut i: usize = 0;
    assert(a@.skip(0) =~= a@);
    assert(b@.skip(0) =~= b@);
    while i < left.len() && i < right.len()
        invariant
            left@ == a@,
            right@ == b@,
            i <= left.len(),
            i <= right.len(),
            precedes(a@, b@) == precedes(a@.skip(i as int), b@.skip(i as int)),
        decreases left.len() - i,
    {
        assert(a@.skip(i as int).drop_first() =~= a@.skip(i + 1));
        assert(b@.skip(i as int).drop_first() =~= b@.skip(i + 1));
        if left[i] != right[i] {
            return left[i] < right[i];
        }
        i = i + 1;
    }
    i < right.len()
}

/// The order is strict.
pub proof fn lemma_precedes_irreflexive(a: Seq<char>)
    ensures
        !precedes(a, a),
    decreases a.len(),
{
    if a.len() > 0 {
        lemma_precedes_irreflexive(a.drop_first());
    }
}

/// The order is transitive.
pub proof fn lemma_precedes_transitive(a: Seq<char>, b: Seq<char>, c: Seq<char>)
    requires
        precedes(a, b),
        precedes(b, c),
    ensures
        precedes(a, c),
    decreases a.len(),
{
    if a.len() > 0 && b.len() > 0 && c.len() > 0 && a[0] == b[0] && b[0] == c[0] {
        lemma_precedes_transitive(a.drop_first(), b.drop_first(), c.drop_first());
    }
}

/// Of two different texts one comes first.
pub proof fn lemma_precedes_total(a: Seq<char>, b: Seq<char>)
    ensures
        precedes(a, b) || precedes(b, a) || a == b,
    decreases a.len(),
{
    if a.len() == 0 {
        if b.len() == 0 {
            assert(a =~= b);
        }
    } else if b.len() > 0 && a[0] == b[0] {
        lemma_precedes_total(a.drop_first(), b.drop_first());
        if a.drop_first() == b.drop_first() {
            assert(a =~= seq![a[0]] + a.drop_first());
            assert(b =~= seq![b[0]] + b.drop_first());
        }
    }
}

/// The number that a text of decimal digits spells can be read back from the text
/// of the number, also where zeros were put before it; the zeros make it at least
/// as long as asked for, and numbers below a hundred take two characters.
pub proof fn law_padded_number_reads_back(n: int, width: nat)
    requires
        n >= 0,
        width >= 1,
    ensures
        number(dec(n as nat)) == n,
        number(dec_padded(n, width)) == n,
        dec_padded(n, width).len() >= width,
        n < 100 ==> dec_padded(n, 2).len() == 2,
        n < 1000 ==> dec_padded(n, 3).len() == 3,
        forall|i: int|
            0 <= i < dec_padded(n, width).len() ==> '0' <= #[trigger] dec_padded(n, width)[i]
                <= '9',
{
    lemma_dec_number(n as nat);
    lemma_padded_number(n as nat, width);
    lemma_padded_number(n as nat, 2);
    lemma_dec_digits(n as nat);
    if n < 1000 {
        reveal_with_fuel(dec, 4);
    }
    let p = dec_padded(n, width);
    assert forall|i: int| 0 <= i < p.len() implies '0' <= #[trigger] p[i] <= '9' by {
        let zeros = p.len() - dec(n as nat).len();
        if i >= zeros {
            assert(p[i] == dec(n as nat)[i - zeros]);
        }
    }
}

proof fn lemma_dec_digits(n: nat)
    ensures
        forall|i: int| 0 <= i < dec(n).len() ==> '0' <= #[trigger] dec(n)[i] <= '9',
    decreases n,
{
    if n >= 10 {
        lemma_dec_digits(n / 10);
        assert forall|i: int| 0 <= i < dec(n).len() implies '0' <= #[trigger] dec(n)[i] <= '9' by {
            if i < dec(n / 10).len() {
                assert(dec(n)[i] == dec(n / 10)[i]);
            }
        }
    }
}

/// A number is written without needless zeros before it.
pub proof fn law_number_has_no_leading_zero(n: nat)
    ensures
        dec(n).len() >= 1,
        n > 0 ==> dec(n)[0] != '0',
        n == 0 ==> dec(n) == seq!['0'],
    decreases n,
{
    if n >= 10 {
        law_number_has_no_leading_zero(n / 10);
        assert(dec(n)[0] == dec(n / 10)[0]);
    }
}

/// A signed number is its magnitude, after a minus sign where it is negative.
pub proof fn law_signed_number_reads_back(n: int)
    ensures
        n >= 0 ==> number(dec_int(n)) == n,
        n < 0 ==> dec_int(n)[0] == '-' && number(dec_int(n).drop_first()) == -n,
{
    reveal_strlit("-");
    if n >= 0 {
        lemma_dec_number(n as nat);
    } else {
        lemma_dec_number((-n) as nat);
        assert(dec_int(n).drop_first() =~= dec((-n) as nat));
    }
}

/// Padding keeps the text, adds nothing but spaces after it, and makes it at least
/// as long as asked for and no longer than needed.
pub proof fn law_padding_only_adds_spaces(s: Seq<char>, width: nat)
    ensures
        s.is_prefix_of(padded(s, width)),
        padded(s, width).len() == if s.len() < width {
            width
        } else {
            s.len()
        },
        forall|i: int|
            s.len() <= i < padded(s, width).len() ==> #[trigger] padded(s, width)[i] == ' ',
{
}

/// Two texts in order first differ at a character that is smaller in the one that
/// comes first, or the one that comes first is how the other begins.
pub proof fn law_order_is_by_the_first_difference(a: Seq<char>, b: Seq<char>)
    ensures
        precedes(a, b) <==> exists|n: int|
            0 <= n <= a.len() && n < b.len() && #[trigger] a.take(n) == b.take(n) && (n == a.len()
                || a[n] < b[n]),
    decreases a.len(),
{
    if b.len() > 0 {
        if a.len() == 0 {
            assert(a.take(0) =~= b.take(0));
        } else if a[0] != b[0] {
            assert(a.take(0) =~= b.take(0));
            assert forall|n: int|
                0 <= n <= a.len() && n < b.len() && #[trigger] a.take(n) == b.take(n) && (n
                    == a.len() || a[n] < b[n]) implies a[0] < b[0] by {
                if n > 0 {
                    assert(a.take(n)[0] == b.take(n)[0]);
                }
            }
        } else {
            let (x, y) = (a.drop_first(), b.drop_first());
            law_order_is_by_the_first_difference(x, y);
            if precedes(x, y) {
                let n = choose|n: int|
                    0 <= n <= x.len() && n < y.len() && #[trigger] x.take(n) == y.take(n) && (n
                        == x.len() || x[n] < y[n]);
                assert forall|i: int| 0 <= i < n + 1 implies a[i] == b[i] by {
                    if i > 0 {
                        assert(x.take(n)[i - 1] == y.take(n)[i - 1]);
                    }
                }
                assert(a.take(n + 1) =~= b.take(n + 1));
            }
            assert forall|n: int|
                0 <= n <= a.len() && n < b.len() && #[trigger] a.take(n) == b.take(n) && (n
                    == a.len() || a[n] < b[n]) implies precedes(x, y) by {
                assert(n > 0);
                assert forall|i: int| 0 <= i < n - 1 implies x[i] == y[i] by {
                    assert(a.take(n)[i + 1] == b.take(n)[i + 1]);
                }
                assert(x.take(n - 1) =~= y.take(n - 1));
            }
        }
    }
}

/// The hexadecimal digits are ten digits and six letters of either case, each worth its
/// place among them.
pub proof fn law_hex_digits(c: char, v: u8)
    ensures
        hex_value(c) == Some(v) <==> {
            ||| v < 10 && c as u32 == 48 + v
            ||| 10 <= v < 16 && c as u32 == 97 + v - 10
            ||| 10 <= v < 16 && c as u32 == 65 + v - 10
        },
{
}

/// What stands in the middle of a text occurs in it.
pub proof fn lemma_occurs(before: Seq<char>, needle: Seq<char>, after: Seq<char>)
    ensures
        occurs(needle, before + needle + after),
{
    let s = before + needle + after;
    let n = before.len() as int;
    assert(s.subrange(n, n + needle.len()) =~= needle);
}

/// A byte is told in two digits, the upper half first, with letters of the case that was
/// asked for; a prefixed one follows `0x`.
pub proof fn law_byte_is_told_in_two_digits(b: u8, upper: bool)
    ensures
        hex2(b, upper).len() == 2,
        hex_value(hex2(b, upper)[0]) matches Some(hi) && (hex_value(hex2(b, upper)[1]) matches Some(
            lo,
        ) && 16 * hi + lo == b),
        upper ==> !('a' <= hex2(b, upper)[0] <= 'f') && !('a' <= hex2(b, upper)[1] <= 'f'),
        !upper ==> !('A' <= hex2(b, upper)[0] <= 'F') && !('A' <= hex2(b, upper)[1] <= 'F'),
        prefixed_hex(b).len() == 4,
        prefixed_hex(b)[0] == '0' && prefixed_hex(b)[1] == 'x',
        prefixed_hex(b).skip(2) == hex2(b, false),
{
    reveal_strlit("0x");
    lemma_hex_digit_value((b / 16) as nat, upper);
    lemma_hex_digit_value((b % 16) as nat, upper);
    assert(prefixed_hex(b).skip(2) =~= hex2(b, false));
}

/// Texts that are joined are all there, in their order, with the separator between one
/// and the next: joining two lists is joining what each comes to.
pub proof fn law_joined_in_order(a: Seq<Seq<char>>, b: Seq<Seq<char>>, sep: Seq<char>)
    requires
        a.len() > 0,
        b.len() > 0,
    ensures
        joined(a + b, sep) == joined(a, sep) + sep + joined(b, sep),
        joined(seq![a[0]], sep) == a[0],
        joined(Seq::<Seq<char>>::empty(), sep).len() == 0,
    decreases b.len(),
{
    let all = a + b;
    assert(all.drop_last() =~= a + b.drop_last());
    if b.len() == 1 {
        assert(a + b.drop_last() =~= a);
        assert(joined(all, sep) =~= joined(a, sep) + sep + joined(b, sep));
    } else {
        law_joined_in_order(a, b.drop_last(), sep);
        assert(joined(all, sep) =~= joined(a, sep) + sep + joined(b, sep));
    }
}

/// White space is the blanks, the tabs and the ends of lines, pages and paragraphs, in
/// all their widths.
pub proof fn law_white_space_is_these(c: char)
    ensures
        white_space(c) <==> seq![
            9int,
            10,
            11,
            12,
            13,
            32,
            133,
            160,
            5760,
            8192,
            8193,
            8194,
            8195,
            8196,
            8197,
            8198,
            8199,
            8200,
            8201,
            8202,
            8232,
            8233,
            8239,
            8287,
            12288,
        ].contains(c as int),
{
    let all = seq![
        9int,
        10,
        11,
        12,
        13,
        32,
        133,
        160,
        5760,
        8192,
        8193,
        8194,
        8195,
        8196,
        8197,
        8198,
        8199,
        8200,
        8201,
        8202,
        8232,
        8233,
        8239,
        8287,
        12288,
    ];
    let u = c as int;
    assert(all[0] == 9 && all[1] == 10 && all[2] == 11 && all[3] == 12 && all[4] == 13);
    assert(all[5] == 32 && all[6] == 133 && all[7] == 160 && all[8] == 5760);
    assert(all[9] == 8192 && all[10] == 8193 && all[11] == 8194 && all[12] == 8195 && all[13] == 8196
        && all[14] == 8197 && all[15] == 8198 && all[16] == 8199 && all[17] == 8200 && all[18]
        == 8201 && all[19] == 8202);
    assert(all[20] == 8232 && all[21] == 8233 && all[22] == 8239 && all[23] == 8287 && all[24]
        == 12288);
}

} // verus!
