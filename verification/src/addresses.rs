//! Internet addresses as numbers, and how they are written.
use crate::seqs;
use vstd::prelude::*;

verus! {

/// An address as a number.
#[derive(Clone, Copy, PartialEq, Eq, Structural)]
pub enum IpAddress {
    V4(u32),
    V6(u128),
}

impl IpAddress {
    /// The rank of the family of an address.
    pub open spec fn rank(self) -> int {
        match self {
            IpAddress::V4(_) => 0,
            IpAddress::V6(_) => 1,
        }
    }

    pub open spec fn number(self) -> int {
        match self {
            IpAddress::V4(value) => value as int,
            IpAddress::V6(value) => value as int,
        }
    }

    pub fn rank_of(self) -> (rank: u128)
        ensures
            rank == self.rank(),
    {
        match self {
            IpAddress::V4(_) => 0,
            IpAddress::V6(_) => 1,
        }
    }

    pub fn number_of(self) -> (number: u128)
        ensures
            number == self.number(),
    {
        match self {
            IpAddress::V4(value) => value as u128,
            IpAddress::V6(value) => value,
        }
    }

    pub fn is_ipv4(&self) -> (older: bool)
        ensures
            older == (self is V4),
    {
        match self {
            IpAddress::V4(_) => true,
            IpAddress::V6(_) => false,
        }
    }
}

/// The value of a digit; without `hex` only decimal digits have one.
pub open spec fn figure(c: char, hex: bool) -> Option<nat> {
    let code = c as u32;
    if 48 <= code <= 57 {
        Some((code - 48) as nat)
    } else if hex && 97 <= code <= 102 {
        Some((code - 87) as nat)
    } else if hex && 65 <= code <= 70 {
        Some((code - 55) as nat)
    } else {
        None
    }
}

fn figure_of(c: char, hex: bool) -> (value: Option<u64>)
    ensures
        match value {
            Some(value) => figure(c, hex) == Some(value as nat) && value < 16,
            None => figure(c, hex) is None,
        },
{
    let code: u32 = c as u32;
    if 48 <= code && code <= 57 {
        Some((code - 48) as u64)
    } else if hex && 97 <= code && code <= 102 {
        Some((code - 87) as u64)
    } else if hex && 65 <= code && code <= 70 {
        Some((code - 55) as u64)
    } else {
        None
    }
}

/// The number that the first `n` digits are.
pub open spec fn number_upto(digits: Seq<char>, hex: bool, n: int) -> Option<nat>
    decreases n,
{
    if n <= 0 {
        Some(0)
    } else {
        match (number_upto(digits, hex, n - 1), figure(digits[n - 1], hex)) {
            (Some(value), Some(figure)) => Some(
                if hex {
                    value * 16 + figure
                } else {
                    value * 10 + figure
                },
            ),
            _ => None,
        }
    }
}

proof fn lemma_number_grows(digits: Seq<char>, hex: bool, m: int, n: int)
    requires
        0 <= m <= n,
    ensures
        number_upto(digits, hex, m) is None ==> number_upto(digits, hex, n) is None,
        number_upto(digits, hex, n) is Some ==> number_upto(digits, hex, m) is Some && number_upto(
            digits,
            hex,
            m,
        )->0 <= number_upto(digits, hex, n)->0,
    decreases n - m,
{
    if m < n {
        lemma_number_grows(digits, hex, m, n - 1);
    }
}

/// The number that a text of digits is, if it is not above `max`; none for no digits.
pub open spec fn number_in(digits: Seq<char>, hex: bool, max: nat) -> Option<nat> {
    match number_upto(digits, hex, digits.len() as int) {
        Some(value) => if digits.len() > 0 && value <= max {
            Some(value)
        } else {
            None
        },
        None => None,
    }
}

pub fn read_number(digits: &Vec<char>, hex: bool, max: u64) -> (value: Option<u64>)
    ensures
        match value {
            Some(value) => number_in(digits@, hex, max as nat) == Some(value as nat),
            None => number_in(digits@, hex, max as nat) is None,
        },
{
    if digits.len() == 0 {
        return None;
    }
    let mut value: u64 = 0;
    for i in 0..digits.len()
        invariant
            digits@.len() > 0,
            number_upto(digits@, hex, i as int) == Some(value as nat),
            value <= max,
    {
        proof {
            lemma_number_grows(digits@, hex, i + 1, digits@.len() as int);
        }
        match figure_of(digits[i], hex) {
            None => {
                return None;
            },
            Some(figure) => {
                let next: u128 = if hex {
                    value as u128 * 16 + figure as u128
                } else {
                    value as u128 * 10 + figure as u128
                };
                if next > max as u128 {
                    return None;
                }
                value = next as u64;
            },
        }
    }
    Some(value)
}

/// The pieces between separators among the first `n` characters.
pub open spec fn pieces_upto(text: Seq<char>, separator: char, n: int) -> Seq<Seq<char>>
    decreases n,
{
    if n <= 0 {
        seq![Seq::<char>::empty()]
    } else {
        let before = pieces_upto(text, separator, n - 1);
        if text[n - 1] == separator {
            before.push(Seq::empty())
        } else {
            before.drop_last().push(before.last().push(text[n - 1]))
        }
    }
}

/// The pieces of a text between separators.
pub open spec fn pieces(text: Seq<char>, separator: char) -> Seq<Seq<char>> {
    pieces_upto(text, separator, text.len() as int)
}

fn split(text: &Vec<char>, separator: char) -> (result: Vec<Vec<char>>)
    ensures
        result.deep_view() == pieces(text@, separator),
        result@.len() >= 1,
{
    let mut done: Vec<Vec<char>> = Vec::new();
    let mut current: Vec<char> = Vec::new();
    proof {
        assert(done.deep_view().push(current@) =~= seq![Seq::<char>::empty()]);
    }
    for i in 0..text.len()
        invariant
            done.deep_view().push(current@) == pieces_upto(text@, separator, i as int),
    {
        let ghost before = pieces_upto(text@, separator, i as int);
        assert(before.last() == current@);
        assert(before.drop_last() =~= done.deep_view());
        if text[i] == separator {
            let ghost old_done = done;
            done.push(current);
            proof {
                seqs::lemma_deep_push(old_done, done);
                assert(done@.last().deep_view() =~= current@);
            }
            current = Vec::new();
        } else {
            current.push(text[i]);
        }
    }
    let ghost old_done = done;
    let ghost last = current@;
    done.push(current);
    proof {
        seqs::lemma_deep_push(old_done, done);
        assert(done@.last().deep_view() =~= last);
    }
    done
}

/// The number of an IPv4 octet: up to three digits, with no zero in front of others.
pub open spec fn octet_in(piece: Seq<char>) -> Option<nat> {
    if piece.len() > 3 || (piece.len() > 1 && piece[0] == '0') {
        None
    } else {
        number_in(piece, false, 255)
    }
}

fn read_octet(piece: &Vec<char>) -> (value: Option<u64>)
    ensures
        match value {
            Some(value) => octet_in(piece@) == Some(value as nat) && value <= 255,
            None => octet_in(piece@) is None,
        },
{
    if piece.len() > 3 || (piece.len() > 1 && piece[0] == '0') {
        None
    } else {
        read_number(piece, false, 255)
    }
}

/// The number of an IPv4 address: four octets with dots in between.
pub open spec fn v4_in(text: Seq<char>) -> Option<nat> {
    let octets = pieces(text, '.');
    if octets.len() != 4 {
        None
    } else {
        match (
            octet_in(octets[0]),
            octet_in(octets[1]),
            octet_in(octets[2]),
            octet_in(octets[3]),
        ) {
            (Some(a), Some(b), Some(c), Some(d)) => Some(
                a * 0x100_0000 + b * 0x1_0000 + c * 0x100 + d,
            ),
            _ => None,
        }
    }
}

fn read_v4(text: &Vec<char>) -> (value: Option<u32>)
    ensures
        match value {
            Some(value) => v4_in(text@) == Some(value as nat),
            None => v4_in(text@) is None,
        },
{
    let octets = split(text, '.');
    let ghost all = octets.deep_view();
    assert(all.len() == octets@.len());
    if octets.len() != 4 {
        return None;
    }
    assert(all[0] =~= octets@[0]@ && all[1] =~= octets@[1]@ && all[2] =~= octets@[2]@ && all[3]
        =~= octets@[3]@);
    match (
        read_octet(&octets[0]),
        read_octet(&octets[1]),
        read_octet(&octets[2]),
        read_octet(&octets[3]),
    ) {
        (Some(a), Some(b), Some(c), Some(d)) => Some(
            (a * 0x100_0000 + b * 0x1_0000 + c * 0x100 + d) as u32,
        ),
        _ => None,
    }
}

/// The number of an IPv6 group: up to four hexadecimal digits.
pub open spec fn group_in(piece: Seq<char>) -> Option<nat> {
    if piece.len() > 4 {
        None
    } else {
        number_in(piece, true, 0xffff)
    }
}

/// The groups that the pieces from `from` to `to` are.
pub open spec fn groups_between(all: Seq<Seq<char>>, from: int, to: int) -> Option<Seq<nat>>
    decreases to - from,
{
    if to <= from {
        Some(Seq::empty())
    } else {
        match (groups_between(all, from, to - 1), group_in(all[to - 1])) {
            (Some(groups), Some(group)) => Some(groups.push(group)),
            _ => None,
        }
    }
}

/// The groups that the pieces from `from` on are: the last one may be an IPv4 address,
/// which stands for two groups.
pub open spec fn tail_from(all: Seq<Seq<char>>, from: int) -> Option<Seq<nat>> {
    match v4_in(all.last()) {
        Some(value) => match groups_between(all, from, all.len() - 1) {
            Some(groups) => Some(groups.push(value / 0x1_0000).push(value % 0x1_0000)),
            None => None,
        },
        None => groups_between(all, from, all.len() as int),
    }
}

/// Whether a piece between others is empty: two colons stand there.
pub open spec fn is_gap(all: Seq<Seq<char>>, i: int) -> bool {
    0 < i < all.len() - 1 && all[i].len() == 0
}

/// Where the first gap among the first `n` pieces is.
pub open spec fn gap_upto(all: Seq<Seq<char>>, n: int) -> Option<int>
    decreases n,
{
    if n <= 0 {
        None
    } else {
        match gap_upto(all, n - 1) {
            Some(i) => Some(i),
            None => if is_gap(all, n - 1) {
                Some(n - 1)
            } else {
                None
            },
        }
    }
}

/// The groups in front of a gap; an address may begin with it.
pub open spec fn head_upto(all: Seq<Seq<char>>, gap: int) -> Option<Seq<nat>> {
    if gap == 1 && all[0].len() == 0 {
        Some(Seq::empty())
    } else {
        groups_between(all, 0, gap)
    }
}

/// The groups behind a gap; an address may end with it.
pub open spec fn rest_from(all: Seq<Seq<char>>, gap: int) -> Option<Seq<nat>> {
    if gap + 2 == all.len() && all.last().len() == 0 {
        Some(Seq::empty())
    } else {
        tail_from(all, gap + 1)
    }
}

/// The number that groups are.
pub open spec fn joined(groups: Seq<nat>, n: int) -> nat
    decreases n,
{
    if n <= 0 {
        0
    } else {
        joined(groups, n - 1) * 0x1_0000 + groups[n - 1]
    }
}

/// So many groups of zeros.
pub open spec fn zeros(n: int) -> Seq<nat> {
    Seq::new(n as nat, |i: int| 0nat)
}

/// The eight groups of an IPv6 address: one gap may stand for the zeros that are
/// missing, at least one group of them.
pub open spec fn v6_groups(text: Seq<char>) -> Option<Seq<nat>> {
    let all = pieces(text, ':');
    match gap_upto(all, all.len() as int) {
        Some(gap) => match (head_upto(all, gap), rest_from(all, gap)) {
            (Some(head), Some(rest)) => if head.len() + rest.len() <= 7 {
                Some(head + zeros(8 - head.len() - rest.len()) + rest)
            } else {
                None
            },
            _ => None,
        },
        None => match tail_from(all, 0) {
            Some(groups) => if groups.len() == 8 {
                Some(groups)
            } else {
                None
            },
            None => None,
        },
    }
}

pub open spec fn v6_in(text: Seq<char>) -> Option<nat> {
    match v6_groups(text) {
        Some(groups) => Some(joined(groups, 8)),
        None => None,
    }
}

fn read_group(piece: &Vec<char>) -> (value: Option<u64>)
    ensures
        match value {
            Some(value) => group_in(piece@) == Some(value as nat) && value <= 0xffff,
            None => group_in(piece@) is None,
        },
{
    if piece.len() > 4 {
        None
    } else {
        read_number(piece, true, 0xffff)
    }
}

/// The numbers of a list, as contracts speak of them.
pub open spec fn numbers(values: Seq<u64>) -> Seq<nat> {
    Seq::new(values.len(), |i: int| values[i] as nat)
}

proof fn lemma_groups_fail(all: Seq<Seq<char>>, from: int, m: int, n: int)
    requires
        from <= m <= n,
        groups_between(all, from, m) is None,
    ensures
        groups_between(all, from, n) is None,
    decreases n - m,
{
    if m < n {
        lemma_groups_fail(all, from, m, n - 1);
    }
}

fn read_groups(all: &Vec<Vec<char>>, from: usize, to: usize) -> (groups: Option<Vec<u64>>)
    requires
        from <= to <= all@.len(),
    ensures
        match groups {
            Some(groups) => {
                &&& groups_between(all.deep_view(), from as int, to as int) == Some(
                    numbers(groups@),
                )
                &&& forall|i: int| 0 <= i < groups@.len() ==> (#[trigger] groups@[i]) <= 0xffff
            },
            None => groups_between(all.deep_view(), from as int, to as int) is None,
        },
{
    let ghost texts = all.deep_view();
    assert(texts.len() == all@.len());
    let mut groups: Vec<u64> = Vec::new();
    proof {
        assert(numbers(groups@) =~= Seq::<nat>::empty());
    }
    for i in from..to
        invariant
            from <= to <= all@.len(),
            texts == all.deep_view(),
            texts.len() == all@.len(),
            groups_between(texts, from as int, i as int) == Some(numbers(groups@)),
            forall|j: int| 0 <= j < groups@.len() ==> (#[trigger] groups@[j]) <= 0xffff,
    {
        assert(texts[i as int] =~= all@[i as int]@);
        match read_group(&all[i]) {
            Some(group) => {
                let ghost before = groups@;
                groups.push(group);
                assert(numbers(groups@) =~= numbers(before).push(group as nat));
            },
            None => {
                proof {
                    lemma_groups_fail(texts, from as int, i + 1, to as int);
                }
                return None;
            },
        }
    }
    Some(groups)
}

fn read_tail(all: &Vec<Vec<char>>, from: usize) -> (groups: Option<Vec<u64>>)
    requires
        from < all@.len(),
    ensures
        match groups {
            Some(groups) => {
                &&& tail_from(all.deep_view(), from as int) == Some(numbers(groups@))
                &&& forall|i: int| 0 <= i < groups@.len() ==> (#[trigger] groups@[i]) <= 0xffff
            },
            None => tail_from(all.deep_view(), from as int) is None,
        },
{
    let ghost texts = all.deep_view();
    assert(texts.len() == all@.len());
    let last: usize = all.len() - 1;
    assert(texts.last() =~= all@[last as int]@);
    match read_v4(&all[last]) {
        Some(value) => match read_groups(all, from, last) {
            Some(groups) => {
                let ghost before = groups@;
                let mut groups = groups;
                groups.push((value / 0x1_0000) as u64);
                groups.push((value % 0x1_0000) as u64);
                assert(numbers(groups@) =~= numbers(before).push((value / 0x1_0000) as nat).push(
                    (value % 0x1_0000) as nat,
                ));
                Some(groups)
            },
            None => None,
        },
        None => read_groups(all, from, all.len()),
    }
}

/// How many numbers so many groups can be.
spec fn scale(n: int) -> nat
    decreases n,
{
    if n <= 0 {
        1
    } else {
        scale(n - 1) * 0x1_0000
    }
}

fn join(groups: &Vec<u64>) -> (value: u128)
    requires
        groups@.len() == 8,
        forall|i: int| 0 <= i < groups@.len() ==> (#[trigger] groups@[i]) <= 0xffff,
    ensures
        value == joined(numbers(groups@), 8),
{
    let mut value: u128 = 0;
    proof {
        reveal_with_fuel(scale, 9);
    }
    for i in 0..8usize
        invariant
            groups@.len() == 8,
            forall|i: int| 0 <= i < groups@.len() ==> (#[trigger] groups@[i]) <= 0xffff,
            value == joined(numbers(groups@), i as int),
            value < scale(i as int),
            scale(8) == 0x1_0000_0000_0000_0000_0000_0000_0000_0000,
    {
        let group: u64 = groups[i];
        proof {
            lemma_scale_grows(i + 1, 8);
            assert(group <= 0xffff);
            assert(numbers(groups@)[i as int] == group);
        }
        value = value * 0x1_0000 + group as u128;
    }
    value
}

proof fn lemma_scale_grows(m: int, n: int)
    requires
        m <= n,
    ensures
        1 <= scale(m) <= scale(n),
    decreases n - m,
{
    if m < n {
        lemma_scale_grows(m, n - 1);
    } else if m > 0 {
        lemma_scale_positive(m);
    }
}

proof fn lemma_scale_positive(n: int)
    ensures
        1 <= scale(n),
    decreases n,
{
    if n > 0 {
        lemma_scale_positive(n - 1);
    }
}

fn find_gap(all: &Vec<Vec<char>>) -> (gap: Option<usize>)
    ensures
        match gap {
            Some(gap) => gap_upto(all.deep_view(), all@.len() as int) == Some(gap as int) && is_gap(
                all.deep_view(),
                gap as int,
            ),
            None => gap_upto(all.deep_view(), all@.len() as int) is None,
        },
{
    let ghost texts = all.deep_view();
    assert(texts.len() == all@.len());
    for i in 0..all.len()
        invariant
            texts == all.deep_view(),
            texts.len() == all@.len(),
            gap_upto(texts, i as int) is None,
    {
        assert(texts[i as int] =~= all@[i as int]@);
        if i > 0 && i < all.len() - 1 && all[i].len() == 0 {
            proof {
                lemma_gap_stays(texts, i + 1, texts.len() as int);
            }
            return Some(i);
        }
    }
    None
}

proof fn lemma_gap_stays(all: Seq<Seq<char>>, m: int, n: int)
    requires
        0 <= m <= n,
        gap_upto(all, m) is Some,
    ensures
        gap_upto(all, n) == gap_upto(all, m),
    decreases n - m,
{
    if m < n {
        lemma_gap_stays(all, m, n - 1);
    }
}

fn read_v6(text: &Vec<char>) -> (value: Option<u128>)
    ensures
        match value {
            Some(value) => v6_in(text@) == Some(value as nat),
            None => v6_in(text@) is None,
        },
{
    let all = split(text, ':');
    let ghost texts = all.deep_view();
    assert(texts.len() == all@.len());
    match find_gap(&all) {
        None => match read_tail(&all, 0) {
            Some(groups) => if groups.len() == 8 {
                Some(join(&groups))
            } else {
                None
            },
            None => None,
        },
        Some(gap) => {
            assert(texts[0] =~= all@[0]@);
            assert(texts.last() =~= all@[all@.len() - 1]@);
            let head = if gap == 1 && all[0].len() == 0 {
                let none: Vec<u64> = Vec::new();
                assert(numbers(none@) =~= Seq::<nat>::empty());
                Some(none)
            } else {
                read_groups(&all, 0, gap)
            };
            let rest = if gap + 2 == all.len() && all[all.len() - 1].len() == 0 {
                let none: Vec<u64> = Vec::new();
                assert(numbers(none@) =~= Seq::<nat>::empty());
                Some(none)
            } else {
                read_tail(&all, gap + 1)
            };
            match (head, rest) {
                (Some(head), Some(rest)) => {
                    if head.len() > 7 || rest.len() > 7 || head.len() + rest.len() > 7 {
                        return None;
                    }
                    let missing: usize = 8 - head.len() - rest.len();
                    let ghost front = head@;
                    let mut groups = head;
                    for i in 0..missing
                        invariant
                            groups@.len() == front.len() + i,
                            numbers(groups@) == numbers(front) + zeros(i as int),
                            forall|j: int|
                                0 <= j < groups@.len() ==> (#[trigger] groups@[j]) <= 0xffff,
                    {
                        let ghost before = groups@;
                        groups.push(0);
                        assert(numbers(groups@) =~= numbers(before).push(0));
                        assert(zeros(i + 1) =~= zeros(i as int).push(0));
                        assert(numbers(groups@) =~= numbers(front) + zeros(i + 1));
                    }
                    let ghost middle = groups@;
                    for i in 0..rest.len()
                        invariant
                            groups@ == middle + rest@.take(i as int),
                            forall|j: int|
                                0 <= j < rest@.len() ==> (#[trigger] rest@[j]) <= 0xffff,
                            forall|j: int|
                                0 <= j < groups@.len() ==> (#[trigger] groups@[j]) <= 0xffff,
                    {
                        groups.push(rest[i]);
                        assert(groups@ =~= middle + rest@.take(i + 1));
                    }
                    assert(numbers(groups@) =~= numbers(front) + zeros(missing as int) + numbers(
                        rest@,
                    ));
                    Some(join(&groups))
                },
                _ => None,
            }
        },
    }
}

/// The address that a text is.
pub open spec fn address_in(text: Seq<char>) -> Option<IpAddress> {
    match (v4_in(text), v6_in(text)) {
        (Some(value), _) => Some(IpAddress::V4(value as u32)),
        (None, Some(value)) => Some(IpAddress::V6(value as u128)),
        _ => None,
    }
}

/// The address that a text is: an IPv4 address in four octets, or an IPv6 address in
/// groups.
pub fn read_address(text: &Vec<char>) -> (address: Option<IpAddress>)
    ensures
        address == address_in(text@),
{
    match read_v4(text) {
        Some(value) => Some(IpAddress::V4(value)),
        None => match read_v6(text) {
            Some(value) => Some(IpAddress::V6(value)),
            None => None,
        },
    }
}

} // verus!
