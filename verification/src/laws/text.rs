//! What texts, numbers and addresses mean when they are written and read.
use crate::addresses;
use crate::addresses::IpAddress;
use crate::route_lookup;
use crate::text;
use vstd::prelude::*;
use vstd::utf8::encode_utf8;

verus! {

/// Of two texts, the one whose bytes are the beginning of the other comes first, and else the
/// one with the lower byte where they first differ.
pub proof fn lower_bytes_come_first(a: Seq<char>, b: Seq<char>, i: int)
    requires
        0 <= i <= encode_utf8(a).len(),
        i < encode_utf8(b).len(),
        forall|j: int| 0 <= j < i ==> #[trigger] encode_utf8(a)[j] == encode_utf8(b)[j],
        i == encode_utf8(a).len() || encode_utf8(a)[i] < encode_utf8(b)[i],
    ensures
        text::text_before(a, b),
{
    lemma_before_from(encode_utf8(a), encode_utf8(b), 0, i);
}

proof fn lemma_before_from(a: Seq<u8>, b: Seq<u8>, k: int, i: int)
    requires
        0 <= k <= i <= a.len(),
        i < b.len(),
        forall|j: int| 0 <= j < i ==> #[trigger] a[j] == b[j],
        i == a.len() || a[i] < b[i],
    ensures
        text::bytes_before_from(a, b, k),
    decreases i - k,
{
    if k < i {
        lemma_before_from(a, b, k + 1, i);
    }
}

/// A number that is written in decimal is read back as it was.
pub proof fn decimals_are_read_back(n: nat)
    ensures
        text::parsed(text::decimal(n)) == Some(n),
        addresses::number_upto(text::decimal(n), false, text::decimal(n).len() as int) == Some(n),
        text::decimal(n).len() >= 1,
        forall|i: int|
            0 <= i < text::decimal(n).len() ==> '0' <= #[trigger] text::decimal(n)[i] <= '9',
{
    lemma_decimal(n);
}

proof fn lemma_decimal(n: nat)
    ensures
        text::digits_value(text::decimal(n), text::decimal(n).len() as int) == Some(n),
        addresses::number_upto(text::decimal(n), false, text::decimal(n).len() as int) == Some(n),
        text::decimal(n).len() >= 1,
        forall|i: int|
            0 <= i < text::decimal(n).len() ==> '0' <= #[trigger] text::decimal(n)[i] <= '9',
    decreases n,
{
    let d = (n % 10) as int;
    assert(text::digit_value(text::digit(d)) == Some(d as nat));
    assert(addresses::figure(text::digit(d), false) == Some(d as nat));
    assert('0' <= text::digit(d) <= '9');
    if n >= 10 {
        lemma_decimal(n / 10);
        let before = text::decimal(n / 10);
        let all = text::decimal(n);
        lemma_digits_prefix(before, all, before.len() as int);
        lemma_numbers_prefix(before, all, before.len() as int);
        assert(all[all.len() - 1] == text::digit(d));
        assert(10 * (n / 10) + n % 10 == n);
    } else {
        reveal_with_fuel(text::digits_value, 2);
        reveal_with_fuel(addresses::number_upto, 2);
        assert(text::decimal(n)[0] == text::digit(d));
    }
}

proof fn lemma_digits_prefix(a: Seq<char>, b: Seq<char>, n: int)
    requires
        n <= a.len(),
        n <= b.len(),
        forall|i: int| 0 <= i < n ==> a[i] == b[i],
    ensures
        text::digits_value(a, n) == text::digits_value(b, n),
    decreases n,
{
    if n > 0 {
        lemma_digits_prefix(a, b, n - 1);
    }
}

proof fn lemma_numbers_prefix(a: Seq<char>, b: Seq<char>, n: int)
    requires
        n <= a.len(),
        n <= b.len(),
        forall|i: int| 0 <= i < n ==> a[i] == b[i],
    ensures
        addresses::number_upto(a, false, n) == addresses::number_upto(b, false, n),
    decreases n,
{
    if n > 0 {
        lemma_numbers_prefix(a, b, n - 1);
    }
}

/// Negative numbers have a sign before their digits.
pub proof fn signs_are_shown(n: nat)
    ensures
        text::signed_decimal(n as int) == text::decimal(n),
        n > 0 ==> text::signed_decimal(-(n as int)) == "-"@ + text::decimal(n),
{
}

/// Digits mean what they mean: the ten decimal ones, and in hexadecimal the first six letters,
/// small or large.
pub proof fn digits_mean_their_number(c: char)
    ensures
        '0' <= c <= '9' ==> addresses::figure(c, true) == Some((c as int - '0' as int) as nat)
            && addresses::figure(c, false) == Some(
                (c as int - '0' as int) as nat,
            ) && text::digit_value(c) == Some(
            (c as int - '0' as int) as nat,
        ),
        'a' <= c <= 'f' ==> addresses::figure(c, true) == Some((c as int - 'a' as int + 10) as nat)
            && addresses::figure(c, false) is None,
        'A' <= c <= 'F' ==> addresses::figure(c, true) == Some((c as int - 'A' as int + 10) as nat)
            && addresses::figure(c, false) is None,
        c < '0' || 'f' < c ==> addresses::figure(c, true) is None,
        c < '0' || '9' < c ==> addresses::figure(c, false) is None && text::digit_value(c) is None,
{
}

/// Another digit behind a number makes it ten, or sixteen, times as much and the digit.
pub proof fn digits_are_worth_their_place(digits: Seq<char>, c: char, hex: bool)
    requires
        addresses::figure(c, hex) is Some,
        addresses::number_upto(digits, hex, digits.len() as int) is Some,
    ensures
        addresses::number_upto(digits.push(c), hex, digits.len() as int + 1) == Some(
            ((if hex {
                16int
            } else {
                10int
            }) * addresses::number_upto(digits, hex, digits.len() as int)->0 + addresses::figure(
                c,
                hex,
            )->0) as nat,
        ),
{
    lemma_pushed(digits, c, hex, digits.len() as int);
}

proof fn lemma_pushed(digits: Seq<char>, c: char, hex: bool, n: int)
    requires
        0 <= n <= digits.len(),
    ensures
        addresses::number_upto(digits.push(c), hex, n) == addresses::number_upto(digits, hex, n),
    decreases n,
{
    if n > 0 {
        lemma_pushed(digits, c, hex, n - 1);
    }
}

/// Texts with a separator between them.
pub open spec fn joined(parts: Seq<Seq<char>>, separator: char) -> Seq<char>
    decreases parts.len(),
{
    if parts.len() == 0 {
        Seq::empty()
    } else if parts.len() == 1 {
        parts[0]
    } else {
        joined(parts.drop_last(), separator).push(separator) + parts.last()
    }
}

/// Texts that were joined by a separator that they do not hold are told apart again.
pub proof fn pieces_undo_joining(parts: Seq<Seq<char>>, separator: char)
    requires
        parts.len() > 0,
        forall|i: int| 0 <= i < parts.len() ==> !(#[trigger] parts[i]).contains(separator),
    ensures
        addresses::pieces(joined(parts, separator), separator) == parts,
    decreases parts.len(),
{
    let all = joined(parts, separator);
    if parts.len() == 1 {
        assert(!parts[0].contains(separator));
        lemma_plain(Seq::empty(), parts[0], separator, parts[0].len() as int);
        assert(Seq::<char>::empty() + parts[0] =~= parts[0]);
        assert(addresses::pieces_upto(parts[0], separator, 0).drop_last() =~= Seq::<
            Seq<char>,
        >::empty());
        assert(parts[0].take(parts[0].len() as int) =~= parts[0]);
        assert(addresses::pieces(all, separator) =~= parts);
    } else {
        let front = parts.drop_last();
        assert forall|i: int| 0 <= i < front.len() implies !(#[trigger] front[i]).contains(
            separator,
        ) by {
            assert(front[i] == parts[i]);
        }
        pieces_undo_joining(front, separator);
        let head = joined(front, separator);
        let last = parts.last();
        let k = head.len() as int;
        assert(!parts[parts.len() - 1].contains(separator));
        lemma_pieces_prefix(head, all, separator, k);
        assert(all[k] == separator);
        let here = addresses::pieces_upto(all, separator, k + 1);
        assert(here == front.push(Seq::empty()));
        lemma_plain(head.push(separator), last, separator, last.len() as int);
        assert(head.push(separator) + last =~= all);
        assert(here.drop_last() =~= front);
        assert(here.last() =~= Seq::<char>::empty());
        assert(last.take(last.len() as int) =~= last);
        assert(addresses::pieces(all, separator) =~= parts);
    }
}

proof fn lemma_pieces_prefix(a: Seq<char>, b: Seq<char>, separator: char, n: int)
    requires
        n <= a.len(),
        n <= b.len(),
        forall|i: int| 0 <= i < n ==> a[i] == b[i],
    ensures
        addresses::pieces_upto(a, separator, n) == addresses::pieces_upto(b, separator, n),
    decreases n,
{
    if n > 0 {
        lemma_pieces_prefix(a, b, separator, n - 1);
    }
}

/// Text without a separator goes into the last piece.
proof fn lemma_plain(head: Seq<char>, tail: Seq<char>, separator: char, n: int)
    requires
        0 <= n <= tail.len(),
        !tail.contains(separator),
        addresses::pieces_upto(head + tail, separator, head.len() as int).len() >= 1,
        addresses::pieces_upto(head + tail, separator, head.len() as int).last().len() == 0,
    ensures
        addresses::pieces_upto(head + tail, separator, head.len() + n)
            == addresses::pieces_upto(head + tail, separator, head.len() as int).drop_last().push(
            tail.take(n),
        ),
    decreases n,
{
    let all = head + tail;
    let start = addresses::pieces_upto(all, separator, head.len() as int);
    if n > 0 {
        lemma_plain(head, tail, separator, n - 1);
        let before = addresses::pieces_upto(all, separator, head.len() + n - 1);
        assert(all[head.len() + n - 1] == tail[n - 1]);
        assert(tail.contains(tail[n - 1]));
        assert(before.drop_last() =~= start.drop_last());
        assert(before.last() == tail.take(n - 1));
        assert(tail.take(n - 1).push(tail[n - 1]) =~= tail.take(n));
    } else {
        assert(start =~= start.drop_last().push(start.last()));
        assert(start.last() =~= tail.take(0));
    }
}

/// Four numbers below 256 with dots between them are the address of these four bytes, the
/// first of which is worth most.
pub proof fn dotted_numbers_are_addresses(a: nat, b: nat, c: nat, d: nat)
    requires
        a <= 255,
        b <= 255,
        c <= 255,
        d <= 255,
    ensures
        addresses::address_in(
            joined(
                seq![text::decimal(a), text::decimal(b), text::decimal(c), text::decimal(d)],
                '.',
            ),
        ) == Some(IpAddress::V4((((a * 256 + b) * 256 + c) * 256 + d) as u32)),
{
    let parts = seq![text::decimal(a), text::decimal(b), text::decimal(c), text::decimal(d)];
    lemma_octet(a);
    lemma_octet(b);
    lemma_octet(c);
    lemma_octet(d);
    assert forall|i: int| 0 <= i < parts.len() implies !(#[trigger] parts[i]).contains('.') by {
        let n = if i == 0 {
            a
        } else if i == 1 {
            b
        } else if i == 2 {
            c
        } else {
            d
        };
        assert(parts[i] == text::decimal(n));
        lemma_decimal(n);
        if parts[i].contains('.') {
            let k = choose|k: int| 0 <= k < parts[i].len() && parts[i][k] == '.';
            assert('0' <= text::decimal(n)[k]);
        }
    }
    pieces_undo_joining(parts, '.');
}

proof fn lemma_octet(n: nat)
    requires
        n <= 255,
    ensures
        addresses::octet_in(text::decimal(n)) == Some(n),
{
    lemma_decimal(n);
    reveal_with_fuel(text::decimal, 4);
    assert(n / 10 / 10 < 10);
    assert(n >= 10 && n < 100 ==> n / 10 > 0);
    assert(n >= 100 ==> n / 10 / 10 > 0);
    let digits = text::decimal(n);
    if n >= 10 {
        assert(digits[0] != '0') by {
            if n < 100 {
                assert(digits[0] == text::digit((n / 10) as int));
            } else {
                assert(digits[0] == text::digit((n / 10 / 10) as int));
            }
        }
    }
}

/// A number with a leading zero, or above 255, is no part of an address.
pub proof fn bytes_of_addresses_are_plain(piece: Seq<char>)
    ensures
        addresses::octet_in(piece) matches Some(n) ==> n <= 255 && 1 <= piece.len() <= 3 && (
        piece.len() > 1 ==> piece[0] != '0'),
{
}

/// Eight groups of hexadecimal digits with colons between them are the address of these
/// groups, the first of which is worth most.
pub proof fn groups_are_addresses(parts: Seq<Seq<char>>)
    requires
        parts.len() == 8,
        forall|i: int|
            0 <= i < 8 ==> addresses::group_in(#[trigger] parts[i]) is Some && !parts[i].contains(
                ':',
            ) && addresses::v4_in(parts[i]) is None,
    ensures
        addresses::v6_in(joined(parts, ':')) == Some(
            addresses::joined(Seq::new(8, |i: int| addresses::group_in(parts[i])->0), 8),
        ),
{
    pieces_undo_joining(parts, ':');
    let values = Seq::new(8, |i: int| addresses::group_in(parts[i])->0);
    lemma_no_gap(parts, 8);
    assert(parts.last() == parts[7]);
    lemma_groups(parts, 0, 8);
    assert(addresses::groups_between(parts, 0, 8)->0 =~= values);
}

proof fn lemma_no_gap(parts: Seq<Seq<char>>, n: int)
    requires
        0 <= n <= parts.len(),
        forall|i: int| 0 <= i < parts.len() ==> addresses::group_in(#[trigger] parts[i]) is Some,
    ensures
        addresses::gap_upto(parts, n) is None,
    decreases n,
{
    if n > 0 {
        lemma_no_gap(parts, n - 1);
        assert(addresses::group_in(parts[n - 1]) is Some);
    }
}

proof fn lemma_groups(parts: Seq<Seq<char>>, from: int, to: int)
    requires
        0 <= from <= to <= parts.len(),
        forall|i: int| from <= i < to ==> addresses::group_in(#[trigger] parts[i]) is Some,
    ensures
        addresses::groups_between(parts, from, to) matches Some(groups) && groups.len() == to - from
            && forall|i: int|
            0 <= i < to - from ==> #[trigger] groups[i] == addresses::group_in(parts[from + i])->0,
    decreases to - from,
{
    if from < to {
        lemma_groups(parts, from, to - 1);
    }
}

/// Where groups are left out, the empty piece stands for as many zeros as are missing.
pub proof fn left_out_groups_are_zero(head: Seq<Seq<char>>, tail: Seq<Seq<char>>)
    requires
        1 <= head.len(),
        1 <= tail.len(),
        head.len() + tail.len() <= 7,
        forall|i: int|
            0 <= i < head.len() ==> addresses::group_in(#[trigger] head[i]) is Some
                && !head[i].contains(':'),
        forall|i: int|
            0 <= i < tail.len() ==> addresses::group_in(#[trigger] tail[i]) is Some
                && !tail[i].contains(':') && addresses::v4_in(tail[i]) is None,
    ensures
        ({
            let parts = head.push(Seq::empty()) + tail;
            addresses::v6_groups(joined(parts, ':')) matches Some(groups) && {
                &&& groups.len() == 8
                &&& forall|i: int|
                    0 <= i < head.len() ==> #[trigger] groups[i] == addresses::group_in(head[i])->0
                &&& forall|i: int|
                    head.len() <= i < 8 - tail.len() ==> #[trigger] groups[i] == 0
                &&& forall|i: int|
                    0 <= i < tail.len() ==> addresses::group_in(#[trigger] tail[i])->0 == groups[8
                        - tail.len() + i]
            }
        }),
{
    let parts = head.push(Seq::empty()) + tail;
    let gap = head.len() as int;
    assert forall|i: int| 0 <= i < parts.len() implies !(#[trigger] parts[i]).contains(':') by {
        if i < gap {
            assert(parts[i] == head[i]);
        } else if i > gap {
            assert(parts[i] == tail[i - gap - 1]);
        } else {
            assert(parts[i].len() == 0);
        }
    }
    pieces_undo_joining(parts, ':');
    lemma_gap_found(parts, gap, parts.len() as int, head);
    lemma_head(parts, head, gap);
    let last = parts.last();
    assert(last == tail[tail.len() - 1]);
    assert(addresses::group_in(last) is Some && last.len() > 0);
    assert forall|i: int| gap + 1 <= i < parts.len() implies addresses::group_in(
        #[trigger] parts[i],
    ) is Some by {
        assert(parts[i] == tail[i - gap - 1]);
    }
    lemma_groups(parts, gap + 1, parts.len() as int);
    let rest = addresses::rest_from(parts, gap)->0;
    assert forall|i: int| 0 <= i < tail.len() implies addresses::group_in(#[trigger] tail[i])->0
        == rest[i] by {
        assert(parts[gap + 1 + i] == tail[i]);
    }
}

proof fn lemma_gap_found(parts: Seq<Seq<char>>, gap: int, n: int, head: Seq<Seq<char>>)
    requires
        0 < gap < parts.len() - 1,
        gap == head.len(),
        parts[gap].len() == 0,
        0 <= n <= parts.len(),
        forall|i: int| 0 <= i < gap ==> parts[i] == #[trigger] head[i],
        forall|i: int| 0 <= i < gap ==> addresses::group_in(#[trigger] head[i]) is Some,
    ensures
        addresses::gap_upto(parts, n) == if n > gap {
            Some(gap)
        } else {
            None
        },
    decreases n,
{
    if n > 0 {
        lemma_gap_found(parts, gap, n - 1, head);
        if n - 1 < gap {
            assert(addresses::group_in(head[n - 1]) is Some);
            assert(parts[n - 1].len() > 0);
        }
    }
}

proof fn lemma_head(parts: Seq<Seq<char>>, head: Seq<Seq<char>>, gap: int)
    requires
        1 <= gap == head.len() < parts.len(),
        forall|i: int| 0 <= i < gap ==> parts[i] == #[trigger] head[i],
        forall|i: int| 0 <= i < gap ==> addresses::group_in(#[trigger] head[i]) is Some,
    ensures
        addresses::head_upto(parts, gap) matches Some(groups) && groups.len() == gap && forall|
            i: int,
        |
            0 <= i < gap ==> #[trigger] groups[i] == addresses::group_in(head[i])->0,
{
    assert(addresses::group_in(head[0]) is Some);
    assert(parts[0] == head[0]);
    assert(parts[0].len() > 0);
    assert forall|i: int| 0 <= i < gap implies addresses::group_in(#[trigger] parts[i]) is Some by {
        assert(parts[i] == head[i]);
    }
    lemma_groups(parts, 0, gap);
    let groups = addresses::groups_between(parts, 0, gap)->0;
    assert forall|i: int| 0 <= i < gap implies #[trigger] groups[i] == addresses::group_in(
        head[i],
    )->0 by {
        assert(groups[i] == addresses::group_in(parts[0 + i])->0);
        assert(parts[i] == head[i]);
    }
}

/// Another group behind others shifts them by sixteen bits.
pub proof fn groups_are_worth_their_place(groups: Seq<nat>, n: int)
    requires
        0 <= n < groups.len(),
    ensures
        addresses::joined(groups, n + 1) == addresses::joined(groups, n) * 65_536 + groups[n],
        addresses::joined(groups, 0) == 0,
{
}

/// A group has one to four hexadecimal digits.
pub proof fn groups_are_short(piece: Seq<char>)
    ensures
        addresses::group_in(piece) matches Some(n) ==> n <= 0xffff && 1 <= piece.len() <= 4
            && addresses::number_upto(piece, true, piece.len() as int) == Some(n),
{
}

/// A text that is an address of both kinds is the older one, and one of neither is none.
pub proof fn addresses_are_of_one_kind(typed: Seq<char>)
    ensures
        addresses::v4_in(typed) matches Some(value) ==> addresses::address_in(typed) == Some(
            IpAddress::V4(value as u32),
        ),
        addresses::v4_in(typed) is None ==> (addresses::v6_in(typed) matches Some(value)
            ==> addresses::address_in(typed) == Some(IpAddress::V6(value as u128))),
        addresses::v4_in(typed) is None && addresses::v6_in(typed) is None
            ==> addresses::address_in(typed) is None,
{
}

/// Numbers of options are read as they are written, in decimal, or in hexadecimal behind 0x.
pub proof fn option_numbers_are_read(n: nat)
    requires
        n <= u32::MAX,
    ensures
        route_lookup::option_number(text::decimal(n)) == Some(n as u32),
{
    lemma_decimal(n);
    decimals_are_read_back(n);
    reveal_strlit("0x");
    let digits = text::decimal(n);
    if text::has_prefix(digits, "0x"@) {
        assert(digits.take(2)[1] == "0x"@[1]);
        assert(digits[1] == 'x');
        assert('0' <= digits[1] <= '9');
    }
}

/// Hexadecimal numbers of options are read behind 0x.
pub proof fn hexadecimal_option_numbers_are_read(digits: Seq<char>)
    requires
        digits.len() > 0,
        digits[0] != '+',
    ensures
        route_lookup::option_number("0x"@ + digits) == match addresses::number_upto(
            digits,
            true,
            digits.len() as int,
        ) {
            Some(n) => if n <= 0xffff_ffff {
                Some(n as u32)
            } else {
                None
            },
            None => None,
        },
{
    reveal_strlit("0x");
    let typed = "0x"@ + digits;
    assert(typed.take(2) =~= "0x"@);
    assert(typed.skip(2) =~= digits);
}

/// Words are what stands between blanks: they hold no blank and are not empty.
pub proof fn words_hold_no_blanks(typed: Seq<char>, i: int)
    requires
        0 <= i < text::words(typed).len(),
    ensures
        text::words(typed)[i].len() > 0,
        forall|j: int|
            0 <= j < text::words(typed)[i].len() ==> {
                let c = #[trigger] text::words(typed)[i][j];
                c != ' ' && c != '\t' && c != '\n' && c != '\r'
            },
{
    lemma_words(typed, typed.len() as int);
    let (done, current) = text::words_upto(typed, typed.len() as int);
    assert(is_word(text::words(typed)[i]));
    assert forall|j: int| 0 <= j < text::words(typed)[i].len() implies {
        let c = #[trigger] text::words(typed)[i][j];
        c != ' ' && c != '\t' && c != '\n' && c != '\r'
    } by {
        assert(!text::is_blank(text::words(typed)[i][j]));
    }
}

spec fn is_word(word: Seq<char>) -> bool {
    word.len() > 0 && is_plain(word)
}

spec fn is_plain(word: Seq<char>) -> bool {
    forall|j: int| 0 <= j < word.len() ==> !text::is_blank(#[trigger] word[j])
}

proof fn lemma_words(typed: Seq<char>, n: int)
    requires
        0 <= n <= typed.len(),
    ensures
        ({
            let (done, current) = text::words_upto(typed, n);
            is_plain(current) && forall|i: int| 0 <= i < done.len() ==> is_word(#[trigger] done[i])
        }),
    decreases n,
{
    if n > 0 {
        lemma_words(typed, n - 1);
    }
}

/// Words that are joined by spaces are told apart again.
pub proof fn words_undo_joining(parts: Seq<Seq<char>>)
    requires
        parts.len() > 0,
        forall|i: int|
            0 <= i < parts.len() ==> (#[trigger] parts[i]).len() > 0 && forall|j: int|
                0 <= j < parts[i].len() ==> !text::is_blank(#[trigger] parts[i][j]),
    ensures
        text::words(joined(parts, ' ')) == parts,
{
    lemma_words_joined(parts);
    let all = joined(parts, ' ');
    let (done, current) = text::words_upto(all, all.len() as int);
    assert(current == parts.last());
    assert(parts[parts.len() - 1].len() > 0);
    assert(parts.drop_last().push(parts.last()) =~= parts);
}

proof fn lemma_words_joined(parts: Seq<Seq<char>>)
    requires
        parts.len() > 0,
        forall|i: int|
            0 <= i < parts.len() ==> (#[trigger] parts[i]).len() > 0 && forall|j: int|
                0 <= j < parts[i].len() ==> !text::is_blank(#[trigger] parts[i][j]),
    ensures
        text::words_upto(joined(parts, ' '), joined(parts, ' ').len() as int) == (
            parts.drop_last(),
            parts.last(),
        ),
    decreases parts.len(),
{
    let all = joined(parts, ' ');
    assert(parts[parts.len() - 1].len() > 0);
    let last = parts.last();
    assert forall|j: int| 0 <= j < last.len() implies !text::is_blank(#[trigger] last[j]) by {
        assert(!text::is_blank(parts[parts.len() - 1][j]));
    }
    if parts.len() == 1 {
        lemma_plain_word(Seq::empty(), last, last.len() as int);
        assert(Seq::<char>::empty() + last =~= last);
        assert(parts.drop_last() =~= Seq::<Seq<char>>::empty());
        assert(last.take(last.len() as int) =~= last);
    } else {
        let front = parts.drop_last();
        assert forall|i: int| 0 <= i < front.len() implies (#[trigger] front[i]).len() > 0
            && forall|j: int|
            0 <= j < front[i].len() ==> !text::is_blank(#[trigger] front[i][j]) by {
            assert(front[i] == parts[i]);
        }
        lemma_words_joined(front);
        let head = joined(front, ' ');
        let k = head.len() as int;
        lemma_words_prefix(head, all, k);
        assert(all[k] == ' ');
        assert(front[front.len() - 1].len() > 0);
        assert(front.drop_last().push(front.last()) =~= front);
        lemma_plain_word(head.push(' '), last, last.len() as int);
        assert(head.push(' ') + last =~= all);
        assert(last.take(last.len() as int) =~= last);
    }
}

proof fn lemma_words_prefix(a: Seq<char>, b: Seq<char>, n: int)
    requires
        n <= a.len(),
        n <= b.len(),
        forall|i: int| 0 <= i < n ==> a[i] == b[i],
    ensures
        text::words_upto(a, n) == text::words_upto(b, n),
    decreases n,
{
    if n > 0 {
        lemma_words_prefix(a, b, n - 1);
    }
}

proof fn lemma_plain_word(head: Seq<char>, tail: Seq<char>, n: int)
    requires
        0 <= n <= tail.len(),
        forall|j: int| 0 <= j < tail.len() ==> !text::is_blank(#[trigger] tail[j]),
        text::words_upto(head + tail, head.len() as int).1.len() == 0,
    ensures
        text::words_upto(head + tail, head.len() + n) == (
            text::words_upto(head + tail, head.len() as int).0,
            tail.take(n),
        ),
    decreases n,
{
    let all = head + tail;
    if n > 0 {
        lemma_plain_word(head, tail, n - 1);
        assert(all[head.len() + n - 1] == tail[n - 1]);
        assert(tail.take(n - 1).push(tail[n - 1]) =~= tail.take(n));
    } else {
        assert(text::words_upto(all, head.len() as int).1 =~= tail.take(0));
    }
}

/// A text that is trimmed begins and ends with something that can be seen, and is a part of
/// the text.
pub proof fn trimmed_texts_have_no_edges(typed: Seq<char>)
    ensures
        ({
            let kept = text::trimmed(typed);
            kept.len() > 0 ==> !text::is_white(kept[0]) && !text::is_white(kept.last())
        }),
{
    lemma_begin(typed, 0);
    let from = text::begin_from(typed, 0);
    lemma_end(typed, from, typed.len() as int);
    let to = text::end_upto(typed, from, typed.len() as int);
    let kept = text::trimmed(typed);
    if kept.len() > 0 && from <= to <= typed.len() {
        assert(kept[0] == typed[from]);
        assert(kept.last() == typed[to - 1]);
    }
}

proof fn lemma_begin(typed: Seq<char>, i: int)
    requires
        0 <= i <= typed.len(),
    ensures
        i <= text::begin_from(typed, i) <= typed.len(),
        text::begin_from(typed, i) < typed.len() ==> !text::is_white(
            typed[text::begin_from(typed, i)],
        ),
    decreases typed.len() - i,
{
    if i < typed.len() && text::is_white(typed[i]) {
        lemma_begin(typed, i + 1);
    }
}

proof fn lemma_end(typed: Seq<char>, from: int, n: int)
    requires
        0 <= from <= n <= typed.len(),
    ensures
        from <= text::end_upto(typed, from, n) <= n,
        from < text::end_upto(typed, from, n) ==> !text::is_white(
            typed[text::end_upto(typed, from, n) - 1],
        ),
    decreases n,
{
    if from < n && text::is_white(typed[n - 1]) {
        lemma_end(typed, from, n - 1);
    }
}

/// Words are parted by tabs, new lines, form feeds, returns and blanks.
pub proof fn blanks_part_words(c: char)
    ensures
        text::is_blank(c) <==> c == '\t' || c == '\n' || c == '\x0c' || c == '\r' || c == ' ',
{
}

/// What counts as white at the edges of a text: every plain blank, and the blanks of other
/// scripts, each of them.
pub proof fn white_is_what_shows_nothing(c: char)
    ensures
        text::is_blank(c) ==> text::is_white(c),
        c == '\x0b' ==> text::is_white(c),
        c <= '\x7f' && text::is_white(c) ==> text::is_blank(c) || c == '\x0b',
        c == '\u{85}' || c == '\u{a0}' || c == '\u{1680}' || '\u{2000}' <= c <= '\u{200a}' || c
            == '\u{2028}' || c == '\u{2029}' || c == '\u{202f}' || c == '\u{205f}' || c
            == '\u{3000}' ==> text::is_white(c),
        text::is_white(c) && c > '\x7f' ==> c == '\u{85}' || c == '\u{a0}' || c == '\u{1680}'
            || '\u{2000}' <= c <= '\u{200a}' || c == '\u{2028}' || c == '\u{2029}' || c
            == '\u{202f}' || c == '\u{205f}' || c == '\u{3000}',
{
}

} // verus!
