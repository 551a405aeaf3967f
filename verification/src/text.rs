//! Text: numbers written out, comparison, and the few edits the rest of the library needs.

use vstd::prelude::*;
use vstd::string::StringSliceAdditionalSpecFns;
use vstd::utf8::encode_utf8;

verus! {

/// `String::push` of std: the character is appended to the text.
pub assume_specification[ String::push ](s: &mut String, c: char)
    ensures
        final(s)@ == old(s)@.push(c),
;

/// The lowercase form of a text, as Unicode defines it.
pub uninterp spec fn lowercase(s: Seq<char>) -> Seq<char>;

/// The uppercase form of a text, as Unicode defines it.
pub uninterp spec fn uppercase(s: Seq<char>) -> Seq<char>;

/// One ASCII capital letter replaced by its small one; any other character is kept.
pub open spec fn ascii_lower(c: char) -> char {
    if 'A' <= c <= 'Z' {
        ((c as u32) + 32) as char
    } else {
        c
    }
}

/// One ASCII small letter replaced by its capital one; any other character is kept.
pub open spec fn ascii_upper(c: char) -> char {
    if 'a' <= c <= 'z' {
        ((c as u32) - 32) as char
    } else {
        c
    }
}

/// Whether every character of the text is ASCII.
pub open spec fn all_ascii(s: Seq<char>) -> bool {
    forall|i: int| 0 <= i < s.len() ==> (#[trigger] s[i] as u32) < 128
}

/// `str::to_lowercase` of std. The result is a function of the text; on a text that is all ASCII
/// it is the text with the letters `A` to `Z` made small.
#[verifier::external_body]
pub(crate) fn to_lowercase(s: &str) -> (r: String)
    ensures
        r@ == lowercase(s@),
        all_ascii(s@) ==> r@ == s@.map_values(|c: char| ascii_lower(c)),
{
    s.to_lowercase()
}

/// `str::to_uppercase` of std. The result is a function of the text; on a text that is all ASCII
/// it is the text with the letters `a` to `z` made capital.
#[verifier::external_body]
pub(crate) fn to_uppercase(s: &str) -> (r: String)
    ensures
        r@ == uppercase(s@),
        all_ascii(s@) ==> r@ == s@.map_values(|c: char| ascii_upper(c)),
{
    s.to_uppercase()
}

/// Whether two texts are the same.
pub fn same_text(a: &str, b: &str) -> (r: bool)
    ensures
        r == (a@ == b@),
{
    let x = a.as_bytes();
    let y = b.as_bytes();
    proof {
        vstd::utf8::encode_utf8_decode_utf8(a@);
        vstd::utf8::encode_utf8_decode_utf8(b@);
    }
    if x.len() != y.len() {
        return false;
    }
    let mut i: usize = 0;
    while i < x.len()
        invariant
            x@ == encode_utf8(a@),
            y@ == encode_utf8(b@),
            x@.len() == y@.len(),
            i <= x@.len(),
            forall|j: int| 0 <= j < i ==> x@[j] == y@[j],
        decreases x@.len() - i,
    {
        if x[i] != y[i] {
            return false;
        }
        i += 1;
    }
    assert(x@ =~= y@);
    true
}

/// Whether the byte string `a` comes before `b` in dictionary order, or is the same.
pub open spec fn bytes_le(a: Seq<u8>, b: Seq<u8>) -> bool
    decreases a.len(),
{
    if a.len() == 0 {
        true
    } else if b.len() == 0 {
        false
    } else if a[0] != b[0] {
        a[0] < b[0]
    } else {
        bytes_le(a.drop_first(), b.drop_first())
    }
}

/// The order of texts: dictionary order of their UTF-8 bytes.
pub open spec fn text_le(a: Seq<char>, b: Seq<char>) -> bool {
    bytes_le(encode_utf8(a), encode_utf8(b))
}

/// Two bytes strings are always comparable.
pub proof fn lemma_bytes_le_total(a: Seq<u8>, b: Seq<u8>)
    ensures
        bytes_le(a, b) || bytes_le(b, a),
    decreases a.len(),
{
    if a.len() > 0 && b.len() > 0 && a[0] == b[0] {
        lemma_bytes_le_total(a.drop_first(), b.drop_first());
    }
}

/// Dictionary order is transitive.
pub proof fn lemma_bytes_le_transitive(a: Seq<u8>, b: Seq<u8>, c: Seq<u8>)
    requires
        bytes_le(a, b),
        bytes_le(b, c),
    ensures
        bytes_le(a, c),
    decreases a.len(),
{
    if a.len() > 0 && b.len() > 0 && c.len() > 0 && a[0] == b[0] && b[0] == c[0] {
        lemma_bytes_le_transitive(a.drop_first(), b.drop_first(), c.drop_first());
    }
}

/// The order of texts is that of a dictionary over their UTF-8 bytes: one text comes before another
/// or is the same exactly when it is the start of the other, or has the smaller byte in the first
/// place where the two differ.
pub proof fn law_texts_are_in_dictionary_order(a: Seq<char>, b: Seq<char>)
    ensures
        text_le(a, b) <==> {
            ||| encode_utf8(a).is_prefix_of(encode_utf8(b))
            ||| exists|k: int|
                #![trigger encode_utf8(a)[k]]
                0 <= k < encode_utf8(a).len() && k < encode_utf8(b).len() && encode_utf8(a).take(k)
                    == encode_utf8(b).take(k) && encode_utf8(a)[k] < encode_utf8(b)[k]
        },
{
    lemma_bytes_in_dictionary_order(encode_utf8(a), encode_utf8(b));
}

proof fn lemma_bytes_in_dictionary_order(a: Seq<u8>, b: Seq<u8>)
    ensures
        bytes_le(a, b) <==> {
            ||| a.is_prefix_of(b)
            ||| exists|k: int|
                #![trigger a[k]]
                0 <= k < a.len() && k < b.len() && a.take(k) == b.take(k) && a[k] < b[k]
        },
    decreases a.len(),
{
    if a.len() > 0 && b.len() > 0 {
        let x = a.drop_first();
        let y = b.drop_first();
        if a[0] != b[0] {
            if a.is_prefix_of(b) {
                assert(a[0] == b.take(a.len() as int)[0]);
            }
            if a[0] < b[0] {
                assert(a.take(0) =~= b.take(0));
            }
            if exists|k: int|
                #![trigger a[k]]
                0 <= k < a.len() && k < b.len() && a.take(k) == b.take(k) && a[k] < b[k] {
                let k = choose|k: int|
                    #![trigger a[k]]
                    0 <= k < a.len() && k < b.len() && a.take(k) == b.take(k) && a[k] < b[k];
                if k > 0 {
                    assert(a.take(k)[0] == b.take(k)[0]);
                }
            }
        } else {
            lemma_bytes_in_dictionary_order(x, y);
            if a.is_prefix_of(b) {
                assert forall|i: int| 0 <= i < x.len() implies x[i] == y[i] by {
                    assert(a[i + 1] == b.take(a.len() as int)[i + 1]);
                }
                assert(x =~= y.take(x.len() as int));
            }
            if x.is_prefix_of(y) {
                assert forall|i: int| 0 <= i < a.len() implies a[i] == b[i] by {
                    if i > 0 {
                        assert(x[i - 1] == y.take(x.len() as int)[i - 1]);
                    }
                }
                assert(a =~= b.take(a.len() as int));
            }
            if exists|k: int|
                #![trigger a[k]]
                0 <= k < a.len() && k < b.len() && a.take(k) == b.take(k) && a[k] < b[k] {
                let k = choose|k: int|
                    #![trigger a[k]]
                    0 <= k < a.len() && k < b.len() && a.take(k) == b.take(k) && a[k] < b[k];
                assert(x.take(k - 1) =~= a.take(k).drop_first());
                assert(y.take(k - 1) =~= b.take(k).drop_first());
                assert(x[k - 1] < y[k - 1]);
            }
            if exists|k: int|
                #![trigger x[k]]
                0 <= k < x.len() && k < y.len() && x.take(k) == y.take(k) && x[k] < y[k] {
                let k = choose|k: int|
                    #![trigger x[k]]
                    0 <= k < x.len() && k < y.len() && x.take(k) == y.take(k) && x[k] < y[k];
                assert forall|i: int| 0 <= i < k + 1 implies #[trigger] a[i] == b[i] by {
                    if i > 0 {
                        assert(x.take(k)[i - 1] == y.take(k)[i - 1]);
                    }
                }
                assert(a.take(k + 1) =~= b.take(k + 1));
                assert(a[k + 1] < b[k + 1]);
            }
        }
    } else if a.len() == 0 {
        assert(a =~= b.take(0));
    }
}

/// Whether the text `a` comes before `b`, or is the same.
pub fn is_text_le(a: &str, b: &str) -> (r: bool)
    ensures
        r == text_le(a@, b@),
{
    let x = a.as_bytes();
    let y = b.as_bytes();
    let mut i: usize = 0;
    assert(x@.skip(0) =~= x@);
    assert(y@.skip(0) =~= y@);
    while i < x.len()
        invariant
            x@ == encode_utf8(a@),
            y@ == encode_utf8(b@),
            i <= x@.len(),
            i <= y@.len(),
            text_le(a@, b@) == bytes_le(x@.skip(i as int), y@.skip(i as int)),
        decreases x@.len() - i,
    {
        if i >= y.len() {
            return false;
        }
        if x[i] != y[i] {
            return x[i] < y[i];
        }
        assert(x@.skip(i as int).drop_first() =~= x@.skip(i + 1));
        assert(y@.skip(i as int).drop_first() =~= y@.skip(i + 1));
        i += 1;
    }
    true
}

/// The decimal digit for a number below ten.
pub open spec fn digit_char(d: nat) -> char {
    (48 + d) as char
}

/// A number in decimal, without leading zeros.
pub open spec fn decimal(n: nat) -> Seq<char>
    decreases n,
{
    if n < 10 {
        seq![digit_char(n)]
    } else {
        decimal(n / 10).push(digit_char(n % 10))
    }
}

pub(crate) fn digit_of(d: u64) -> (c: char)
    requires
        d < 10,
    ensures
        c == digit_char(d as nat),
{
    match d {
        0 => '0',
        1 => '1',
        2 => '2',
        3 => '3',
        4 => '4',
        5 => '5',
        6 => '6',
        7 => '7',
        8 => '8',
        _ => '9',
    }
}

/// Appends a number in decimal.
pub fn push_decimal(out: &mut String, n: u64)
    ensures
        final(out)@ == old(out)@ + decimal(n as nat),
    decreases n,
{
    if n >= 10 {
        push_decimal(out, n / 10);
    }
    out.push(digit_of(n % 10));
    assert(out@ =~= old(out)@ + decimal(n as nat));
}

/// Decimal digits are `0` to `9`, and there is at least one.
pub proof fn lemma_decimal_digits(n: nat)
    ensures
        decimal(n).len() > 0,
        forall|i: int| 0 <= i < decimal(n).len() ==> '0' <= #[trigger] decimal(n)[i] <= '9',
    decreases n,
{
    if n >= 10 {
        lemma_decimal_digits(n / 10);
    }
}

/// Different numbers are written differently.
pub proof fn lemma_decimal_injective(m: nat, n: nat)
    requires
        decimal(m) == decimal(n),
    ensures
        m == n,
    decreases m,
{
    lemma_decimal_digits(m / 10);
    lemma_decimal_digits(n / 10);
    assert(decimal(m).last() == digit_char(m % 10));
    assert(decimal(n).last() == digit_char(n % 10));
    assert((digit_char(m % 10) as u32) == 48 + m % 10);
    assert((digit_char(n % 10) as u32) == 48 + n % 10);
    if m >= 10 && n >= 10 {
        assert(decimal(m).drop_last() =~= decimal(m / 10));
        assert(decimal(n).drop_last() =~= decimal(n / 10));
        lemma_decimal_injective(m / 10, n / 10);
    } else if m >= 10 {
        assert(decimal(m).len() > 1);
    } else if n >= 10 {
        assert(decimal(n).len() > 1);
    }
}

/// A text with every space written `%20`.
pub open spec fn spaces_escaped(s: Seq<char>) -> Seq<char>
    decreases s.len(),
{
    if s.len() == 0 {
        Seq::empty()
    } else if s.last() == ' ' {
        spaces_escaped(s.drop_last()) + seq!['%', '2', '0']
    } else {
        spaces_escaped(s.drop_last()).push(s.last())
    }
}

/// Appends a text with every space written `%20`.
pub fn push_spaces_escaped(out: &mut String, s: &str)
    ensures
        final(out)@ == old(out)@ + spaces_escaped(s@),
{
    let ghost before = out@;
    assert(s@.take(0) =~= Seq::<char>::empty());
    assert(before + spaces_escaped(s@.take(0)) =~= before);
    for c in it: s.chars()
        invariant
            it.seq() == s@,
            out@ == before + spaces_escaped(s@.take(it.index())),
    {
        let ghost k = it.index();
        assert(s@.take(k + 1).drop_last() =~= s@.take(k));
        assert(s@.take(k + 1).last() == c);
        if c == ' ' {
            out.push('%');
            out.push('2');
            out.push('0');
        } else {
            out.push(c);
        }
        assert(out@ =~= before + spaces_escaped(s@.take(k + 1)));
    }
    assert(s@.take(s@.len() as int) =~= s@);
}

/// The strings, as text.
pub open spec fn texts(list: Seq<String>) -> Seq<Seq<char>> {
    list.map_values(|s: String| s@)
}

/// The number that decimal digits stand for.
pub open spec fn digits_value(digits: Seq<char>) -> nat
    decreases digits.len(),
{
    if digits.len() == 0 {
        0
    } else {
        digits_value(digits.drop_last()) * 10 + (digits.last() as nat - '0' as nat) as nat
    }
}

/// Whether a text holds decimal digits and nothing else.
pub open spec fn all_digits(text: Seq<char>) -> bool {
    forall|i: int| 0 <= i < text.len() ==> '0' <= #[trigger] text[i] <= '9'
}

/// A text without the plus sign that it may start with.
pub open spec fn without_plus(text: Seq<char>) -> Seq<char> {
    if text.len() > 0 && text[0] == '+' {
        text.skip(1)
    } else {
        text
    }
}

/// The number that a text stands for: decimal digits, with or without a plus sign before them,
/// as long as the number fits in 32 bits.
pub open spec fn u32_of(text: Seq<char>) -> Option<u32> {
    let digits = without_plus(text);
    if digits.len() == 0 || !all_digits(digits) || digits_value(digits) > u32::MAX {
        None
    } else {
        Some(digits_value(digits) as u32)
    }
}

/// More digits do not make a number smaller.
proof fn lemma_digits_value_grows(digits: Seq<char>, n: int)
    requires
        0 <= n <= digits.len(),
    ensures
        digits_value(digits.take(n)) <= digits_value(digits),
    decreases digits.len(),
{
    if n == digits.len() {
        assert(digits.take(n) =~= digits);
    } else {
        assert(digits.drop_last().take(n) =~= digits.take(n));
        lemma_digits_value_grows(digits.drop_last(), n);
    }
}

/// The number that a text stands for.
pub fn parse_u32(text: &str) -> (r: Option<u32>)
    ensures
        r == u32_of(text@),
{
    let ghost digits = without_plus(text@);
    let mut value: u64 = 0;
    let mut any = false;
    let mut first = true;
    let ghost mut seen: int = 0;
    assert(digits.take(0) =~= Seq::empty());
    for c in it: text.chars()
        invariant
            it.seq() == text@,
            digits == without_plus(text@),
            first == (it.index() == 0),
            seen == if it.index() > 0 && text@[0] == '+' {
                it.index() - 1
            } else {
                it.index() as int
            },
            0 <= seen <= digits.len(),
            any <==> seen > 0,
            all_digits(digits.take(seen)),
            value == digits_value(digits.take(seen)),
            value <= u32::MAX,
    {
        let ghost k = it.index() as int;
        assert(c == text@[k]);
        if first && c == '+' {
            first = false;
        } else {
            first = false;
            assert(digits[seen] == c);
            if c < '0' || '9' < c {
                assert(!all_digits(digits));
                return None;
            }
            let digit: u64 = (c as u32 - '0' as u32) as u64;
            value = value * 10 + digit;
            any = true;
            proof {
                assert(digits.take(seen + 1).drop_last() =~= digits.take(seen));
                assert(digits.take(seen + 1).last() == c);
                assert(all_digits(digits.take(seen + 1))) by {
                    assert forall|i: int| 0 <= i < seen + 1 implies '0' <= #[trigger] digits.take(
                        seen + 1,
                    )[i] <= '9' by {
                        if i < seen {
                            assert(digits.take(seen)[i] == digits.take(seen + 1)[i]);
                        }
                    }
                }
                seen = seen + 1;
                lemma_digits_value_grows(digits, seen);
            }
            if value > u32::MAX as u64 {
                return None;
            }
        }
    }
    assert(digits.take(seen) =~= digits);
    if any {
        Some(value as u32)
    } else {
        None
    }
}

/// A number that is written out is read back.
pub proof fn law_written_numbers_are_read_back(n: u32)
    ensures
        u32_of(decimal(n as nat)) == Some(n),
        u32_of(seq!['+'] + decimal(n as nat)) == Some(n),
        digits_value(decimal(n as nat)) == n,
{
    let text = decimal(n as nat);
    lemma_decimal_digits(n as nat);
    lemma_decimal_value(n as nat);
    assert(text[0] != '+');
    let signed = seq!['+'] + text;
    assert(signed.skip(1) =~= text);
}

proof fn lemma_decimal_value(n: nat)
    ensures
        digits_value(decimal(n)) == n,
    decreases n,
{
    assert((digit_char(n % 10) as nat) == 48 + n % 10);
    if n < 10 {
        assert(decimal(n).drop_last() =~= Seq::empty());
        assert(digits_value(decimal(n).drop_last()) == 0);
    } else {
        lemma_decimal_value(n / 10);
        assert(decimal(n).drop_last() =~= decimal(n / 10));
    }
}

/// A text is a number only if it holds nothing but decimal digits behind a plus sign that may be
/// missing; one digit more makes ten times the number and the digit.
pub proof fn law_numbers_are_decimal_digits(text: Seq<char>, digit: char)
    ensures
        u32_of(text) is Some ==> forall|i: int|
            0 <= i < text.len() ==> '0' <= #[trigger] text[i] <= '9' || i == 0 && text[i] == '+',
        u32_of(Seq::empty()) is None,
        u32_of(seq!['+']) is None,
        u32_of(text) is Some && '0' <= digit <= '9' && u32_of(text)->0 * 10 + (digit as u32
            - '0' as u32) <= u32::MAX ==> u32_of(text.push(digit)) == Some(
            (u32_of(text)->0 * 10 + (digit as u32 - '0' as u32)) as u32,
        ),
        u32_of(text) is Some && '0' <= digit <= '9' && u32_of(text)->0 * 10 + (digit as u32
            - '0' as u32) > u32::MAX ==> u32_of(text.push(digit)) is None,
{
    let digits = without_plus(text);
    assert(seq!['+'].skip(1) =~= Seq::<char>::empty());
    if u32_of(text) is Some {
        assert forall|i: int| 0 <= i < text.len() implies '0' <= #[trigger] text[i] <= '9' || i == 0
            && text[i] == '+' by {
            if text[0] == '+' {
                if i > 0 {
                    assert(digits[i - 1] == text[i]);
                }
            } else {
                assert(digits[i] == text[i]);
            }
        }
        if '0' <= digit <= '9' {
            let longer = without_plus(text.push(digit));
            assert(longer =~= digits.push(digit));
            assert(longer.drop_last() =~= digits);
            assert forall|i: int| 0 <= i < longer.len() implies '0' <= #[trigger] longer[i]
                <= '9' by {
                if i < digits.len() {
                    assert(longer[i] == digits[i]);
                }
            }
            assert(all_digits(longer));
        }
    }
}

/// Escaping goes character by character: a space becomes `%20`, and any other character stays.
pub proof fn law_only_spaces_are_escaped(s: Seq<char>, c: char)
    ensures
        spaces_escaped(Seq::empty()) == Seq::<char>::empty(),
        spaces_escaped(s.push(c)) == spaces_escaped(s) + if c == ' ' {
            seq!['%', '2', '0']
        } else {
            seq![c]
        },
{
    assert(s.push(c).drop_last() =~= s);
    assert(spaces_escaped(s.push(c)) =~= spaces_escaped(s) + if c == ' ' {
        seq!['%', '2', '0']
    } else {
        seq![c]
    });
}

/// A number in decimal holds digits only, starts with a zero only if it is zero, and has the number as
/// its value: each digit more counts ten times what stood before it.
pub proof fn law_decimal_has_the_value_of_the_number(n: nat, text: Seq<char>, digit: char)
    ensures
        digits_value(decimal(n)) == n,
        all_digits(decimal(n)),
        decimal(n).len() > 0,
        n > 0 ==> decimal(n)[0] != '0',
        digits_value(Seq::empty()) == 0,
        '0' <= digit <= '9' ==> digits_value(text.push(digit)) == 10 * digits_value(text) + (
        digit as u32 - '0' as u32),
{
    lemma_decimal_value(n);
    lemma_decimal_digits(n);
    lemma_no_leading_zero(n);
    assert(text.push(digit).drop_last() =~= text);
}

proof fn lemma_no_leading_zero(n: nat)
    ensures
        n > 0 ==> decimal(n)[0] != '0',
    decreases n,
{
    lemma_decimal_digits(n / 10);
    if n >= 10 {
        lemma_no_leading_zero(n / 10);
        assert(decimal(n)[0] == decimal(n / 10)[0]);
    } else if n > 0 {
        assert((digit_char(n) as u32) == 48 + n);
    }
}

} // verus!
