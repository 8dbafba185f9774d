//! Text helpers: exact comparison, byte order, decimal rendering and parsing, words.
use crate::seqs;
use vstd::prelude::*;
use vstd::string::*;
use vstd::utf8::*;

verus! {

/// `String::push`: the character is appended to the end of the text.
pub assume_specification[ String::push ](s: &mut String, c: char)
    ensures
        final(s)@ == old(s)@.push(c),
;

/// What `format!` makes of a text with `{:?}`.
pub uninterp spec fn debug_text(text: Seq<char>) -> Seq<char>;

/// Calls `format!` with `{:?}`, the debug form of a text: in quotes, and with some
/// characters escaped. Claimed is only that the same text always gives the same form;
/// which characters are escaped is left unsaid.
#[verifier::external_body]
pub(crate) fn debug_form(text: &str) -> (quoted: String)
    ensures
        quoted@ == debug_text(text@),
{
    format!("{:?}", text)
}

/// The characters of `text`, in order.
pub fn chars_of(text: &str) -> (chars: Vec<char>)
    ensures
        chars@ == text@,
{
    let mut chars: Vec<char> = Vec::new();
    for c in it: text.chars()
        invariant
            it.seq() == text@,
            chars@ == text@.take(it.index() as int),
    {
        assert(text@.take(it.index() as int).push(text@[it.index() as int]) =~= text@.take(
            it.index() as int + 1,
        ));
        chars.push(c);
    }
    assert(text@.take(text@.len() as int) =~= text@);
    chars
}

/// The text made of `chars`, in order.
pub fn text_of(chars: &Vec<char>) -> (text: String)
    ensures
        text@ == chars@,
{
    let mut text = String::new();
    for i in 0..chars.len()
        invariant
            text@ == chars@.take(i as int),
    {
        assert(chars@.take(i as int).push(chars@[i as int]) =~= chars@.take(i as int + 1));
        text.push(chars[i]);
    }
    assert(chars@.take(chars@.len() as int) =~= chars@);
    text
}

/// An owned copy of `text`.
pub fn owned(text: &str) -> (copy: String)
    ensures
        copy@ == text@,
{
    text.to_owned()
}

/// Two texts with the same bytes are the same text.
pub proof fn lemma_bytes_determine_text(a: Seq<char>, b: Seq<char>)
    ensures
        encode_utf8(a) == encode_utf8(b) <==> a == b,
{
    encode_utf8_decode_utf8(a);
    encode_utf8_decode_utf8(b);
}

/// Whether two texts hold the same characters.
pub fn same_text(a: &str, b: &str) -> (same: bool)
    ensures
        same == (a@ == b@),
{
    let x = a.as_bytes();
    let y = b.as_bytes();
    proof {
        lemma_bytes_determine_text(a@, b@);
    }
    if x.len() != y.len() {
        return false;
    }
    let mut i: usize = 0;
    while i < x.len()
        invariant
            i <= x.len(),
            x@.len() == y@.len(),
            x@ == encode_utf8(a@),
            y@ == encode_utf8(b@),
            (x@ == y@) <==> (a@ == b@),
            forall|j: int| 0 <= j < i ==> x@[j] == y@[j],
        decreases x.len() - i,
    {
        if x[i] != y[i] {
            return false;
        }
        i += 1;
    }
    assert(x@ =~= y@);
    true
}

/// Whether the bytes of `a` come before those of `b`, looking from position `i` on.
pub open spec fn bytes_before_from(a: Seq<u8>, b: Seq<u8>, i: int) -> bool
    decreases a.len() - i,
{
    if i < 0 || i >= b.len() {
        false
    } else if i >= a.len() {
        true
    } else if a[i] == b[i] {
        bytes_before_from(a, b, i + 1)
    } else {
        a[i] < b[i]
    }
}

/// The byte order of text: the order in which `str` values are sorted.
pub open spec fn text_before(a: Seq<char>, b: Seq<char>) -> bool {
    bytes_before_from(encode_utf8(a), encode_utf8(b), 0)
}

/// Whether `a` comes strictly before `b` in byte order.
pub fn comes_before(a: &str, b: &str) -> (before: bool)
    ensures
        before == text_before(a@, b@),
{
    let x = a.as_bytes();
    let y = b.as_bytes();
    let mut i: usize = 0;
    while i < x.len() && i < y.len()
        invariant
            i <= x.len(),
            i <= y.len(),
            x@ == encode_utf8(a@),
            y@ == encode_utf8(b@),
            bytes_before_from(x@, y@, 0) == bytes_before_from(x@, y@, i as int),
        decreases x.len() - i,
    {
        if x[i] != y[i] {
            return x[i] < y[i];
        }
        i += 1;
    }
    i < y.len()
}

proof fn lemma_bytes_irreflexive(a: Seq<u8>, i: int)
    ensures
        !bytes_before_from(a, a, i),
    decreases a.len() - i,
{
    if 0 <= i < a.len() {
        lemma_bytes_irreflexive(a, i + 1);
    }
}

proof fn lemma_bytes_transitive(a: Seq<u8>, b: Seq<u8>, c: Seq<u8>, i: int)
    requires
        bytes_before_from(a, b, i),
        bytes_before_from(b, c, i),
    ensures
        bytes_before_from(a, c, i),
    decreases a.len() - i,
{
    if 0 <= i < a.len() && i < b.len() && i < c.len() && a[i] == b[i] && b[i] == c[i] {
        lemma_bytes_transitive(a, b, c, i + 1);
    }
}

proof fn lemma_bytes_total(a: Seq<u8>, b: Seq<u8>, i: int)
    requires
        0 <= i <= a.len(),
        i <= b.len(),
        forall|j: int| 0 <= j < i ==> a[j] == b[j],
    ensures
        a == b || bytes_before_from(a, b, i) || bytes_before_from(b, a, i),
    decreases a.len() - i,
{
    if i < a.len() && i < b.len() {
        if a[i] == b[i] {
            lemma_bytes_total(a, b, i + 1);
        }
    } else if i == a.len() && i == b.len() {
        assert(a =~= b);
    }
}

/// The byte order of text is a strict total order: nothing comes before itself,
/// the relation is transitive, and of two different texts one comes first.
pub proof fn text_order_is_strict_and_total(a: Seq<char>, b: Seq<char>, c: Seq<char>)
    ensures
        !text_before(a, a),
        text_before(a, b) && text_before(b, c) ==> text_before(a, c),
        a == b || text_before(a, b) || text_before(b, a),
        !(text_before(a, b) && text_before(b, a)),
{
    lemma_bytes_irreflexive(encode_utf8(a), 0);
    if text_before(a, b) && text_before(b, c) {
        lemma_bytes_transitive(encode_utf8(a), encode_utf8(b), encode_utf8(c), 0);
    }
    if text_before(a, b) && text_before(b, a) {
        lemma_bytes_transitive(encode_utf8(a), encode_utf8(b), encode_utf8(a), 0);
    }
    lemma_bytes_total(encode_utf8(a), encode_utf8(b), 0);
    lemma_bytes_determine_text(a, b);
}

/// The decimal digit for a value below ten.
pub open spec fn digit(d: int) -> char {
    seq!['0', '1', '2', '3', '4', '5', '6', '7', '8', '9'][d]
}

/// The decimal rendering of `n`, without leading zeros.
pub open spec fn decimal(n: nat) -> Seq<char>
    decreases n,
{
    if n < 10 {
        seq![digit(n as int)]
    } else {
        decimal(n / 10).push(digit((n % 10) as int))
    }
}

/// The decimal rendering of a `u64` has at least one digit and at most twenty.
pub proof fn lemma_decimal_is_short(n: nat)
    requires
        n <= u64::MAX,
    ensures
        1 <= decimal(n).len() <= 20,
{
    assert(n < vstd::arithmetic::power::pow(10, 20)) by {
        reveal_with_fuel(vstd::arithmetic::power::pow, 21);
    }
    lemma_decimal_length(n, 20);
}

proof fn lemma_decimal_length(n: nat, digits: nat)
    requires
        digits >= 1,
        n < vstd::arithmetic::power::pow(10, digits),
    ensures
        1 <= decimal(n).len() <= digits,
    decreases digits,
{
    reveal(vstd::arithmetic::power::pow);
    if n >= 10 {
        assert(vstd::arithmetic::power::pow(10, digits) == 10 * vstd::arithmetic::power::pow(
            10,
            (digits - 1) as nat,
        ));
        if digits == 1 {
            assert(vstd::arithmetic::power::pow(10, 0) == 1);
        }
        lemma_decimal_length(n / 10, (digits - 1) as nat);
    }
}

fn digit_char(d: u128) -> (c: char)
    requires
        d < 10,
    ensures
        c == digit(d as int),
{
    if d == 0 {
        '0'
    } else if d == 1 {
        '1'
    } else if d == 2 {
        '2'
    } else if d == 3 {
        '3'
    } else if d == 4 {
        '4'
    } else if d == 5 {
        '5'
    } else if d == 6 {
        '6'
    } else if d == 7 {
        '7'
    } else if d == 8 {
        '8'
    } else {
        '9'
    }
}

/// Appends the decimal rendering of `n`.
pub fn push_decimal(text: &mut String, n: u128)
    ensures
        final(text)@ == old(text)@ + decimal(n as nat),
    decreases n,
{
    if n >= 10 {
        push_decimal(text, n / 10);
    }
    text.push(digit_char(n % 10));
    assert(text@ =~= old(text)@ + decimal(n as nat));
}

/// The decimal rendering of `n`.
pub fn decimal_text(n: u128) -> (text: String)
    ensures
        text@ == decimal(n as nat),
{
    let mut text = String::new();
    push_decimal(&mut text, n);
    assert(text@ =~= decimal(n as nat));
    text
}

/// The decimal rendering of a number that may be negative.
pub open spec fn signed_decimal(n: int) -> Seq<char> {
    if n < 0 {
        "-"@ + decimal((-n) as nat)
    } else {
        decimal(n as nat)
    }
}

/// The decimal rendering of a number that may be negative.
pub fn signed_text(n: i64) -> (text: String)
    ensures
        text@ == signed_decimal(n as int),
{
    if n < 0 {
        let mut text = owned("-");
        push_decimal(&mut text, -(n as i128) as u128);
        text
    } else {
        decimal_text(n as u128)
    }
}

/// Whether `prefix` stands at the front of `text`.
pub open spec fn has_prefix(text: Seq<char>, prefix: Seq<char>) -> bool {
    prefix.len() <= text.len() && text.take(prefix.len() as int) == prefix
}

/// Whether `prefix` stands at the front of `text`.
pub fn starts_with(text: &str, prefix: &str) -> (found: bool)
    ensures
        found == has_prefix(text@, prefix@),
{
    let x = chars_of(text);
    let y = chars_of(prefix);
    if y.len() > x.len() {
        return false;
    }
    let mut i: usize = 0;
    while i < y.len()
        invariant
            i <= y.len() <= x.len(),
            x@ == text@,
            y@ == prefix@,
            forall|j: int| 0 <= j < i ==> x@[j] == y@[j],
        decreases y.len() - i,
    {
        if x[i] != y[i] {
            assert(text@.take(prefix@.len() as int)[i as int] != prefix@[i as int]);
            return false;
        }
        i += 1;
    }
    assert(text@.take(prefix@.len() as int) =~= prefix@);
    true
}

/// A text that may be missing, as contracts speak of it.
pub open spec fn optional_text(text: Option<String>) -> Option<Seq<char>> {
    match text {
        Some(text) => Some(text@),
        None => None,
    }
}

pub fn same_option(a: &Option<String>, b: &Option<String>) -> (same: bool)
    ensures
        same == (optional_text(*a) == optional_text(*b)),
{
    match (a, b) {
        (Some(a), Some(b)) => same_text(a.as_str(), b.as_str()),
        (None, None) => true,
        _ => false,
    }
}

pub fn copy_option(text: &Option<String>) -> (copy: Option<String>)
    ensures
        optional_text(copy) == optional_text(*text),
{
    match text {
        Some(text) => Some(owned(text.as_str())),
        None => None,
    }
}

/// The value of a decimal digit.
pub open spec fn digit_value(c: char) -> Option<nat> {
    if 48 <= c as u32 <= 57 {
        Some((c as u32 - 48) as nat)
    } else {
        None
    }
}

/// The number that the first `n` characters are in decimal, if all are digits.
pub open spec fn digits_value(digits: Seq<char>, n: int) -> Option<nat>
    decreases n,
{
    if n <= 0 {
        Some(0)
    } else {
        match (digits_value(digits, n - 1), digit_value(digits[n - 1])) {
            (Some(value), Some(digit)) => Some(value * 10 + digit),
            _ => None,
        }
    }
}

/// The number that a text is in decimal. A plus sign may stand in front.
pub open spec fn parsed(text: Seq<char>) -> Option<nat> {
    let digits = if text.len() > 0 && text[0] == '+' {
        text.skip(1)
    } else {
        text
    };
    if digits.len() == 0 {
        None
    } else {
        digits_value(digits, digits.len() as int)
    }
}

proof fn lemma_digits_grow(digits: Seq<char>, m: int, n: int)
    requires
        0 <= m <= n,
        digits_value(digits, n) is Some,
    ensures
        digits_value(digits, m) is Some,
        digits_value(digits, m)->0 <= digits_value(digits, n)->0,
    decreases n - m,
{
    if m < n {
        lemma_digits_grow(digits, m, n - 1);
    }
}

proof fn lemma_digits_fail(digits: Seq<char>, m: int, n: int)
    requires
        0 <= m <= n,
        digits_value(digits, m) is None,
    ensures
        digits_value(digits, n) is None,
    decreases n - m,
{
    if m < n {
        lemma_digits_fail(digits, m, n - 1);
    }
}

/// The number that a text is in decimal, if it is not above `max`.
pub fn parse_unsigned(text: &str, max: u64) -> (value: Option<u64>)
    ensures
        value == match parsed(text@) {
            Some(number) if number <= max => Some(number as u64),
            _ => None,
        },
{
    let chars = chars_of(text);
    let start: usize = if chars.len() > 0 && chars[0] == '+' {
        1
    } else {
        0
    };
    let ghost digits = if text@.len() > 0 && text@[0] == '+' {
        text@.skip(1)
    } else {
        text@
    };
    if chars.len() == start {
        return None;
    }
    let mut value: u64 = 0;
    let mut i: usize = start;
    while i < chars.len()
        invariant
            chars@ == text@,
            start <= i <= chars.len(),
            start < chars.len(),
            start <= 1,
            start == 1 <==> text@.len() > 0 && text@[0] == '+',
            digits == (if start == 1 {
                text@.skip(1)
            } else {
                text@
            }),
            parsed(text@) == digits_value(digits, digits.len() as int),
            digits_value(digits, i - start) == Some(value as nat),
            value <= max,
        decreases chars.len() - i,
    {
        let code: u32 = chars[i] as u32;
        assert(digits[i - start] == chars@[i as int]);
        if code < 48 || code > 57 {
            proof {
                lemma_digits_fail(digits, i - start + 1, digits.len() as int);
            }
            return None;
        }
        let next: u128 = value as u128 * 10 + (code - 48) as u128;
        if next > max as u128 {
            proof {
                if digits_value(digits, digits.len() as int) is Some {
                    lemma_digits_grow(digits, i - start + 1, digits.len() as int);
                }
            }
            return None;
        }
        value = next as u64;
        i += 1;
    }
    Some(value)
}

/// Different numbers have different decimal renderings.
pub proof fn decimal_tells_apart(a: nat, b: nat)
    requires
        decimal(a) == decimal(b),
    ensures
        a == b,
    decreases a,
{
    if a >= 10 && b >= 10 {
        let x = decimal(a / 10);
        let y = decimal(b / 10);
        assert(decimal(a).drop_last() =~= x);
        assert(decimal(b).drop_last() =~= y);
        decimal_tells_apart(a / 10, b / 10);
        assert(decimal(a).last() == digit((a % 10) as int));
        assert(decimal(b).last() == digit((b % 10) as int));
    } else if a >= 10 {
        lemma_decimal_not_empty(a / 10);
        assert(decimal(a).len() >= 2);
        assert(decimal(b).len() == 1);
    } else if b >= 10 {
        lemma_decimal_not_empty(b / 10);
        assert(decimal(b).len() >= 2);
        assert(decimal(a).len() == 1);
    } else {
        assert(decimal(a)[0] == digit(a as int));
        assert(decimal(b)[0] == digit(b as int));
    }
}

proof fn lemma_decimal_not_empty(n: nat)
    ensures
        decimal(n).len() >= 1,
    decreases n,
{
    if n >= 10 {
        lemma_decimal_not_empty(n / 10);
    }
}

/// A blank of ASCII: a space, tab, line feed, form feed or carriage return.
pub open spec fn is_blank(c: char) -> bool {
    let code = c as u32;
    code == 9 || code == 10 || code == 12 || code == 13 || code == 32
}

/// The words among the first `n` characters, and the characters of one that may go on.
pub open spec fn words_upto(text: Seq<char>, n: int) -> (Seq<Seq<char>>, Seq<char>)
    decreases n,
{
    if n <= 0 {
        (Seq::empty(), Seq::empty())
    } else {
        let (done, current) = words_upto(text, n - 1);
        if !is_blank(text[n - 1]) {
            (done, current.push(text[n - 1]))
        } else if current.len() > 0 {
            (done.push(current), Seq::empty())
        } else {
            (done, current)
        }
    }
}

/// The words of a text, with blanks in between.
pub open spec fn words(text: Seq<char>) -> Seq<Seq<char>> {
    let (done, current) = words_upto(text, text.len() as int);
    if current.len() > 0 {
        done.push(current)
    } else {
        done
    }
}

pub fn split_words(text: &Vec<char>) -> (result: Vec<Vec<char>>)
    ensures
        result.deep_view() == words(text@),
{
    let mut done: Vec<Vec<char>> = Vec::new();
    let mut current: Vec<char> = Vec::new();
    proof {
        assert(done.deep_view() =~= Seq::<Seq<char>>::empty());
    }
    for i in 0..text.len()
        invariant
            words_upto(text@, i as int) == (done.deep_view(), current@),
    {
        let c = text[i];
        let code: u32 = c as u32;
        let blank: bool = code == 9 || code == 10 || code == 12 || code == 13 || code == 32;
        if !blank {
            current.push(c);
        } else if current.len() > 0 {
            let ghost before = done;
            done.push(current);
            proof {
                seqs::lemma_deep_push(before, done);
                assert(done@.last().deep_view() =~= current@);
            }
            current = Vec::new();
        }
    }
    if current.len() > 0 {
        let ghost before = done;
        let ghost last = current@;
        done.push(current);
        proof {
            seqs::lemma_deep_push(before, done);
            assert(done@.last().deep_view() =~= last);
        }
    }
    done
}

/// A character that Unicode counts as white space.
pub open spec fn is_white(c: char) -> bool {
    let code = c as u32;
    9 <= code <= 13 || code == 0x20 || code == 0x85 || code == 0xa0 || code == 0x1680 || 0x2000
        <= code <= 0x200a || code == 0x2028 || code == 0x2029 || code == 0x202f || code == 0x205f
        || code == 0x3000
}

pub fn white(c: char) -> (result: bool)
    ensures
        result == is_white(c),
{
    let code: u32 = c as u32;
    (9 <= code && code <= 13) || code == 0x20 || code == 0x85 || code == 0xa0 || code == 0x1680
        || (0x2000 <= code && code <= 0x200a) || code == 0x2028 || code == 0x2029 || code == 0x202f
        || code == 0x205f || code == 0x3000
}

/// Where a text begins from `i` on when white space in front is left out.
pub open spec fn begin_from(text: Seq<char>, i: int) -> int
    decreases text.len() - i,
{
    if 0 <= i < text.len() && is_white(text[i]) {
        begin_from(text, i + 1)
    } else {
        i
    }
}

/// Where a text that begins at `from` ends among the first `n` characters when white
/// space at the end is left out.
pub open spec fn end_upto(text: Seq<char>, from: int, n: int) -> int
    decreases n,
{
    if 0 <= from < n && is_white(text[n - 1]) {
        end_upto(text, from, n - 1)
    } else {
        n
    }
}

/// A text without white space at both ends.
pub open spec fn trimmed(text: Seq<char>) -> Seq<char> {
    let from = begin_from(text, 0);
    text.subrange(from, end_upto(text, from, text.len() as int))
}

pub fn trim(text: &str) -> (result: Vec<char>)
    ensures
        result@ == trimmed(text@),
{
    let chars = chars_of(text);
    let mut from: usize = 0;
    while from < chars.len() && white(chars[from])
        invariant
            chars@ == text@,
            from <= chars.len(),
            begin_from(text@, 0) == begin_from(text@, from as int),
        decreases chars.len() - from,
    {
        from += 1;
    }
    let mut to: usize = chars.len();
    while from < to && white(chars[to - 1])
        invariant
            chars@ == text@,
            from <= to <= chars.len(),
            end_upto(text@, from as int, text@.len() as int) == end_upto(
                text@,
                from as int,
                to as int,
            ),
        decreases to,
    {
        to -= 1;
    }
    let mut result: Vec<char> = Vec::new();
    for i in from..to
        invariant
            chars@ == text@,
            from <= to <= chars.len(),
            result@ == text@.subrange(from as int, i as int),
    {
        result.push(chars[i]);
        assert(result@ =~= text@.subrange(from as int, i + 1));
    }
    result
}

} // verus!
