//! The IPv6 address of a multicast group: its groups and bits, the texts
//! that write it, and its canonical text.

use crate::text::{
    chars_of, dec_digit, decimal_value, free_of, hex_digit, hex_text, hex_value, is_dec_digit,
    is_hex_digit, is_hex_group, is_hex_run, join_with, lemma_hex_value_bound,
    lemma_split_appended_piece, lemma_split_nonempty, lemma_split_one_piece, push_hex, split_on,
    string_of,
};
use vstd::prelude::*;

verus! {

/// An IPv6 address, held as its eight 16-bit groups.
#[derive(Clone, Copy, Debug, PartialEq, Eq)]
pub struct GroupAddress {
    segments: [u16; 8],
}

impl View for GroupAddress {
    type V = Seq<u16>;

    closed spec fn view(&self) -> Seq<u16> {
        self.segments@
    }
}

/// The 128 bits that a list of groups spells, most significant group first.
pub open spec fn bits_of(groups: Seq<u16>) -> nat
    decreases groups.len(),
{
    if groups.len() == 0 {
        0
    } else {
        65536 * bits_of(groups.drop_last()) + groups.last() as nat
    }
}

/// One more than the largest number that `n` groups can spell, for `n` up
/// to eight.
pub open spec fn span_of(n: int) -> nat {
    if n <= 0 {
        1
    } else if n == 1 {
        0x1_0000
    } else if n == 2 {
        0x1_0000_0000
    } else if n == 3 {
        0x1_0000_0000_0000
    } else if n == 4 {
        0x1_0000_0000_0000_0000
    } else if n == 5 {
        0x1_0000_0000_0000_0000_0000
    } else if n == 6 {
        0x1_0000_0000_0000_0000_0000_0000
    } else if n == 7 {
        0x1_0000_0000_0000_0000_0000_0000_0000
    } else {
        u128::MAX as nat + 1
    }
}

/// Cutting off sixteen bits more is dividing by 65536 once more.
proof fn lemma_divide_in_two_steps(bits: nat, span: nat)
    requires
        span > 0,
    ensures
        65536 * (bits / (65536 * span)) + (bits / span) % 65536 == bits / span,
{
    let upper = bits / span;
    assert(bits / (65536 * span) == upper / 65536) by (nonlinear_arith)
        requires
            span > 0,
            upper == bits / span,
    ;
}

/// Whether `p` is the place of two colons in a row in `t`.
pub open spec fn has_gap_at(t: Seq<char>, p: int) -> bool {
    0 <= p && p + 1 < t.len() && t[p] == ':' && t[p + 1] == ':'
}

/// The place of the first `::` in `t`, if there is one.
#[verifier::opaque]
pub open spec fn first_gap(t: Seq<char>) -> Option<int> {
    if exists|p: int| has_gap_at(t, p) {
        Some(choose|p: int| has_gap_at(t, p) && forall|q: int| has_gap_at(t, q) ==> p <= q)
    } else {
        None
    }
}

/// The values of a list of pieces that are all groups.
pub open spec fn values_of(pieces: Seq<Seq<char>>) -> Seq<u16> {
    Seq::new(pieces.len(), |i: int| hex_value(pieces[i]) as u16)
}

/// The values of a list of groups separated by single colons. The empty text
/// is the empty list; otherwise every piece must be one to four hexadecimal
/// digits.
#[verifier::opaque]
pub open spec fn groups_of(s: Seq<char>) -> Option<Seq<u16>> {
    if s.len() == 0 {
        Some(Seq::empty())
    } else {
        let pieces = split_on(s, ':');
        if forall|i: int| 0 <= i < pieces.len() ==> is_hex_group(#[trigger] pieces[i]) {
            Some(values_of(pieces))
        } else {
            None
        }
    }
}

/// Whether `s` can still grow into one number of a dotted quad: at most
/// three decimal digits, no zero in front of another digit, and a value of
/// at most 255.
pub open spec fn is_octet_start(s: Seq<char>) -> bool {
    &&& s.len() <= 3
    &&& forall|i: int| 0 <= i < s.len() ==> is_dec_digit(#[trigger] s[i])
    &&& (s.len() > 1 ==> s[0] != '0')
    &&& decimal_value(s) <= 255
}

/// Whether `s` is one number of a dotted quad.
pub open spec fn is_octet(s: Seq<char>) -> bool {
    s.len() >= 1 && is_octet_start(s)
}

/// Whether `s` is a dotted quad: four numbers from 0 to 255 in decimal with
/// dots between them, as the last 32 bits of an address may be written.
pub open spec fn is_dotted_quad(s: Seq<char>) -> bool {
    let parts = split_on(s, '.');
    parts.len() == 4 && forall|i: int| 0 <= i < 4 ==> is_octet(#[trigger] parts[i])
}

/// The two groups that a dotted quad stands for.
pub open spec fn quad_groups(s: Seq<char>) -> Seq<u16> {
    let parts = split_on(s, '.');
    seq![
        (256 * decimal_value(parts[0]) + decimal_value(parts[1])) as u16,
        (256 * decimal_value(parts[2]) + decimal_value(parts[3])) as u16,
    ]
}

/// The values of a list of groups that ends an address: as [`groups_of`],
/// but the last piece may be a dotted quad, which stands for two groups.
#[verifier::opaque]
pub open spec fn final_groups_of(s: Seq<char>) -> Option<Seq<u16>> {
    if s.len() == 0 {
        Some(Seq::empty())
    } else {
        let pieces = split_on(s, ':');
        if is_dotted_quad(pieces.last()) {
            if forall|i: int| 0 <= i < pieces.len() - 1 ==> is_hex_group(#[trigger] pieces[i]) {
                Some(values_of(pieces.drop_last()) + quad_groups(pieces.last()))
            } else {
                None
            }
        } else {
            groups_of(s)
        }
    }
}

/// `n` groups of zero.
pub open spec fn zero_groups(n: int) -> Seq<u16> {
    Seq::new(n as nat, |i: int| 0u16)
}

/// The address that `t` writes, if it writes one. Without `::` the text must
/// list all eight groups. With `::` the groups before and after the first
/// `::` are listed, at most seven together, and `::` stands for the zero
/// groups that are missing between them. In either form a dotted quad may
/// stand for the last two groups.
#[verifier::opaque]
pub open spec fn parse_spec(t: Seq<char>) -> Option<Seq<u16>> {
    match first_gap(t) {
        None => match final_groups_of(t) {
            Some(groups) => if groups.len() == 8 {
                Some(groups)
            } else {
                None
            },
            None => None,
        },
        Some(p) => match (groups_of(t.take(p)), final_groups_of(t.skip(p + 2))) {
            (Some(head), Some(tail)) => if head.len() + tail.len() <= 7 {
                Some(head + zero_groups(8 - head.len() - tail.len()) + tail)
            } else {
                None
            },
            _ => None,
        },
    }
}

/// Length of the run of zero groups of `a` that starts at `start`.
pub open spec fn zero_run(a: Seq<u16>, start: int) -> nat
    decreases a.len() - start,
{
    if 0 <= start < a.len() && a[start] == 0 {
        1 + zero_run(a, start + 1)
    } else {
        0
    }
}

/// Whether the `len` groups from `start` on are the run of zeros that the
/// canonical form writes as `::`: the longest run, of two groups or more,
/// and among equals the first.
pub open spec fn is_compressed_run(a: Seq<u16>, start: int, len: int) -> bool {
    &&& 0 <= start < a.len()
    &&& len == zero_run(a, start)
    &&& len >= 2
    &&& forall|j: int| 0 <= j < a.len() ==> #[trigger] zero_run(a, j) <= len
    &&& forall|j: int| 0 <= j < start ==> #[trigger] zero_run(a, j) < len
}

/// Start and length of the run of zeros that the canonical form of `a`
/// writes as `::`, if it writes one.
#[verifier::opaque]
pub open spec fn compressed_run(a: Seq<u16>) -> Option<(int, int)> {
    if exists|start: int, len: int| is_compressed_run(a, start, len) {
        Some(choose|start: int, len: int| is_compressed_run(a, start, len))
    } else {
        None
    }
}

/// Each group written in hexadecimal, lower case, without leading zeros.
pub open spec fn group_texts(groups: Seq<u16>) -> Seq<Seq<char>> {
    Seq::new(groups.len(), |i: int| hex_text(groups[i] as nat))
}

/// The canonical text of the address with groups `a`.
#[verifier::opaque]
pub open spec fn canonical_text(a: Seq<u16>) -> Seq<char> {
    match compressed_run(a) {
        None => join_with(group_texts(a), ':'),
        Some((start, len)) => join_with(group_texts(a.take(start)), ':') + seq![':', ':']
            + join_with(group_texts(a.skip(start + len)), ':'),
    }
}

/// Whether the pieces read so far can still be groups: every finished piece
/// is a group, and the piece being read is a run of hexadecimal digits.
spec fn readable_so_far(s: Seq<char>) -> bool {
    let pieces = split_on(s, ':');
    &&& forall|i: int| 0 <= i < pieces.len() - 1 ==> is_hex_group(#[trigger] pieces[i])
    &&& is_hex_run(pieces.last())
}

/// Reads the list of groups in `chars[from..to]`.
fn parse_groups(chars: &Vec<char>, from: usize, to: usize) -> (r: Option<Vec<u16>>)
    requires
        from <= to <= chars@.len(),
    ensures
        match r {
            Some(v) => groups_of(chars@.subrange(from as int, to as int)) == Some(v@),
            None => groups_of(chars@.subrange(from as int, to as int)) is None,
        },
{
    proof {
        reveal(groups_of);
    }
    let ghost s = chars@.subrange(from as int, to as int);
    let mut out: Vec<u16> = Vec::new();
    if from == to {
        return Some(out);
    }
    let mut current: u16 = 0;
    let mut digits: usize = 0;
    let mut readable = true;
    let mut i: usize = from;
    proof {
        assert(s.take(0) =~= Seq::<char>::empty());
        assert(split_on(s.take(0), ':') =~= seq![Seq::<char>::empty()]);
    }
    while i < to
        invariant
            from <= i <= to <= chars@.len(),
            s == chars@.subrange(from as int, to as int),
            readable == readable_so_far(s.take(i - from)),
            readable ==> {
                let pieces = split_on(s.take(i - from), ':');
                &&& pieces.len() == out@.len() + 1
                &&& forall|j: int|
                    0 <= j < out@.len() ==> out@[j] == hex_value(#[trigger] pieces[j]) as u16
                &&& pieces.last().len() == digits
                &&& hex_value(pieces.last()) == current
            },
        decreases to - i,
    {
        let c = chars[i];
        let ghost before = s.take(i - from);
        let ghost upto = s.take(i - from + 1);
        let ghost pieces = split_on(before, ':');
        proof {
            lemma_split_nonempty(before, ':');
            assert(upto.drop_last() =~= before);
            assert(upto.last() == c);
        }
        if readable {
            proof {
                lemma_hex_value_bound(pieces.last());
            }
            if c == ':' {
                if digits == 0 {
                    readable = false;
                    proof {
                        let after = split_on(upto, ':');
                        assert(after[pieces.len() - 1] == pieces.last());
                        assert(!is_hex_group(after[pieces.len() - 1]));
                    }
                } else {
                    out.push(current);
                    current = 0;
                    digits = 0;
                    proof {
                        let after = split_on(upto, ':');
                        assert(after =~= pieces.push(Seq::empty()));
                        assert forall|j: int| 0 <= j < after.len() - 1 implies is_hex_group(
                            #[trigger] after[j],
                        ) by {
                            assert(after[j] == pieces[j]);
                        }
                        assert forall|j: int| 0 <= j < out@.len() implies out@[j] == hex_value(
                            #[trigger] after[j],
                        ) as u16 by {
                            assert(after[j] == pieces[j]);
                        }
                    }
                }
            } else {
                let ghost grown = pieces.last().push(c);
                proof {
                    let after = split_on(upto, ':');
                    assert(after =~= pieces.drop_last().push(grown));
                    assert(grown.drop_last() =~= pieces.last());
                    assert forall|j: int| 0 <= j < after.len() - 1 implies after[j]
                        == pieces[j] by {}
                }
                match hex_digit(c) {
                    Some(d) => {
                        if digits < 4 {
                            current = current * 16 + d as u16;
                            digits = digits + 1;
                            proof {
                                let after = split_on(upto, ':');
                                assert forall|k: int| 0 <= k < grown.len() implies is_hex_digit(
                                    #[trigger] grown[k],
                                ) by {
                                    if k < grown.len() - 1 {
                                        assert(grown[k] == pieces.last()[k]);
                                    }
                                }
                                assert(is_hex_run(after.last()));
                                assert forall|j: int| 0 <= j < after.len() - 1 implies is_hex_group(
                                    #[trigger] after[j],
                                ) by {
                                    assert(after[j] == pieces[j]);
                                }
                                assert forall|j: int| 0 <= j < out@.len() implies out@[j]
                                    == hex_value(#[trigger] after[j]) as u16 by {
                                    assert(after[j] == pieces[j]);
                                }
                            }
                        } else {
                            readable = false;
                            proof {
                                let after = split_on(upto, ':');
                                assert(after.last().len() == 5);
                            }
                        }
                    },
                    None => {
                        readable = false;
                        proof {
                            let after = split_on(upto, ':');
                            assert(after.last()[grown.len() - 1] == c);
                            assert(!is_hex_run(after.last()));
                        }
                    },
                }
            }
        } else {
            proof {
                let after = split_on(upto, ':');
                if c == ':' {
                    assert(after =~= pieces.push(Seq::empty()));
                    if forall|j: int| 0 <= j < pieces.len() - 1 ==> is_hex_group(#[trigger] pieces[j]) {
                        assert(!is_hex_run(pieces.last()));
                        assert(after[pieces.len() - 1] == pieces.last());
                        assert(!is_hex_group(after[pieces.len() - 1]));
                    } else {
                        let j = choose|j: int|
                            0 <= j < pieces.len() - 1 && !is_hex_group(#[trigger] pieces[j]);
                        assert(after[j] == pieces[j]);
                    }
                } else {
                    let grown = pieces.last().push(c);
                    assert(after =~= pieces.drop_last().push(grown));
                    if forall|j: int| 0 <= j < pieces.len() - 1 ==> is_hex_group(#[trigger] pieces[j]) {
                        assert(!is_hex_run(pieces.last()));
                        if is_hex_run(grown) {
                            assert forall|k: int| 0 <= k < pieces.last().len() implies is_hex_digit(
                                #[trigger] pieces.last()[k],
                            ) by {
                                assert(grown[k] == pieces.last()[k]);
                            }
                        }
                        assert(!is_hex_run(after.last()));
                    } else {
                        let j = choose|j: int|
                            0 <= j < pieces.len() - 1 && !is_hex_group(#[trigger] pieces[j]);
                        assert(after[j] == pieces[j]);
                    }
                }
            }
        }
        i = i + 1;
    }
    let ghost pieces = split_on(s, ':');
    proof {
        assert(s.take(to - from) =~= s);
        lemma_split_nonempty(s, ':');
    }
    if readable && digits > 0 {
        out.push(current);
        proof {
            assert forall|j: int| 0 <= j < pieces.len() implies is_hex_group(#[trigger] pieces[j]) by {}
            assert(out@ =~= values_of(pieces));
        }
        Some(out)
    } else {
        proof {
            if readable {
                assert(!is_hex_group(pieces[pieces.len() - 1]));
            } else if forall|j: int| 0 <= j < pieces.len() - 1 ==> is_hex_group(#[trigger] pieces[j]) {
                assert(!is_hex_group(pieces[pieces.len() - 1]));
            } else {
                let j = choose|j: int| 0 <= j < pieces.len() - 1 && !is_hex_group(#[trigger] pieces[j]);
                assert(!is_hex_group(pieces[j]));
            }
        }
        None
    }
}

/// Whether the numbers read so far can still be a dotted quad.
spec fn quad_readable_so_far(s: Seq<char>) -> bool {
    let parts = split_on(s, '.');
    &&& parts.len() <= 4
    &&& forall|i: int| 0 <= i < parts.len() - 1 ==> is_octet(#[trigger] parts[i])
    &&& is_octet_start(parts.last())
}

/// A number of a dotted quad that has grown by one character was the start
/// of one before.
proof fn lemma_octet_start_of_shorter(s: Seq<char>, c: char)
    requires
        is_octet_start(s.push(c)),
    ensures
        is_octet_start(s),
        is_dec_digit(c),
{
    let grown = s.push(c);
    assert(grown.drop_last() =~= s);
    assert(is_dec_digit(grown[s.len() as int]));
    assert forall|i: int| 0 <= i < s.len() implies is_dec_digit(#[trigger] s[i]) by {
        assert(grown[i] == s[i]);
    }
    if s.len() > 1 {
        assert(grown[0] == s[0]);
    }
}

/// Reads the dotted quad in `chars[from..to]`.
fn parse_quad(chars: &Vec<char>, from: usize, to: usize) -> (r: Option<(u16, u16)>)
    requires
        from <= to <= chars@.len(),
    ensures
        match r {
            Some((high, low)) => is_dotted_quad(chars@.subrange(from as int, to as int))
                && quad_groups(chars@.subrange(from as int, to as int)) == seq![high, low],
            None => !is_dotted_quad(chars@.subrange(from as int, to as int)),
        },
{
    let ghost s = chars@.subrange(from as int, to as int);
    let mut numbers: Vec<u16> = Vec::new();
    let mut current: u16 = 0;
    let mut digits: usize = 0;
    let mut zero_first = false;
    let mut readable = true;
    let mut i: usize = from;
    proof {
        assert(s.take(0) =~= Seq::<char>::empty());
        assert(split_on(s.take(0), '.') =~= seq![Seq::<char>::empty()]);
    }
    while i < to
        invariant
            from <= i <= to <= chars@.len(),
            s == chars@.subrange(from as int, to as int),
            readable == quad_readable_so_far(s.take(i - from)),
            readable ==> {
                let parts = split_on(s.take(i - from), '.');
                &&& parts.len() == numbers@.len() + 1
                &&& forall|j: int|
                    0 <= j < numbers@.len() ==> numbers@[j] == decimal_value(#[trigger] parts[j])
                &&& parts.last().len() == digits
                &&& decimal_value(parts.last()) == current
                &&& zero_first == (digits > 0 && parts.last()[0] == '0')
            },
        decreases to - i,
    {
        let c = chars[i];
        let ghost before = s.take(i - from);
        let ghost upto = s.take(i - from + 1);
        let ghost parts = split_on(before, '.');
        let ghost after = split_on(upto, '.');
        proof {
            lemma_split_nonempty(before, '.');
            assert(upto.drop_last() =~= before);
            assert(upto.last() == c);
        }
        if readable {
            if c == '.' {
                proof {
                    assert(after =~= parts.push(Seq::empty()));
                }
                if digits == 0 || numbers.len() == 3 {
                    readable = false;
                    proof {
                        if digits == 0 {
                            assert(after[parts.len() - 1] == parts.last());
                            assert(!is_octet(after[parts.len() - 1]));
                        }
                    }
                } else {
                    numbers.push(current);
                    current = 0;
                    digits = 0;
                    zero_first = false;
                    proof {
                        assert forall|j: int| 0 <= j < after.len() - 1 implies is_octet(
                            #[trigger] after[j],
                        ) by {
                            assert(after[j] == parts[j]);
                        }
                        assert forall|j: int| 0 <= j < numbers@.len() implies numbers@[j]
                            == decimal_value(#[trigger] after[j]) by {
                            assert(after[j] == parts[j]);
                        }
                    }
                }
            } else {
                let ghost grown = parts.last().push(c);
                proof {
                    assert(after =~= parts.drop_last().push(grown));
                    assert(grown.drop_last() =~= parts.last());
                    assert forall|j: int| 0 <= j < after.len() - 1 implies after[j] == parts[j] by {}
                    if is_octet_start(grown) {
                        lemma_octet_start_of_shorter(parts.last(), c);
                    }
                }
                match dec_digit(c) {
                    Some(d) => {
                        if digits < 3 && !zero_first && current * 10 + d as u16 <= 255 {
                            current = current * 10 + d as u16;
                            zero_first = digits == 0 && d == 0;
                            digits = digits + 1;
                            proof {
                                assert forall|k: int| 0 <= k < grown.len() implies is_dec_digit(
                                    #[trigger] grown[k],
                                ) by {
                                    if k < grown.len() - 1 {
                                        assert(grown[k] == parts.last()[k]);
                                    }
                                }
                                if grown.len() > 1 {
                                    assert(grown[0] == parts.last()[0]);
                                }
                                assert(is_octet_start(after.last()));
                                assert forall|j: int| 0 <= j < after.len() - 1 implies is_octet(
                                    #[trigger] after[j],
                                ) by {
                                    assert(after[j] == parts[j]);
                                }
                                assert forall|j: int| 0 <= j < numbers@.len() implies numbers@[j]
                                    == decimal_value(#[trigger] after[j]) by {
                                    assert(after[j] == parts[j]);
                                }
                            }
                        } else {
                            readable = false;
                            proof {
                                if zero_first {
                                    assert(grown[0] == parts.last()[0]);
                                }
                                assert(!is_octet_start(after.last()));
                            }
                        }
                    },
                    None => {
                        readable = false;
                        proof {
                            assert(after.last()[grown.len() - 1] == c);
                            assert(!is_octet_start(after.last()));
                        }
                    },
                }
            }
        } else {
            proof {
                if c == '.' {
                    assert(after =~= parts.push(Seq::empty()));
                    if parts.len() <= 4 {
                        if forall|j: int| 0 <= j < parts.len() - 1 ==> is_octet(#[trigger] parts[j]) {
                            assert(!is_octet_start(parts.last()));
                            assert(after[parts.len() - 1] == parts.last());
                            assert(!is_octet(after[parts.len() - 1]));
                        } else {
                            let j = choose|j: int|
                                0 <= j < parts.len() - 1 && !is_octet(#[trigger] parts[j]);
                            assert(after[j] == parts[j]);
                        }
                    }
                } else {
                    let grown = parts.last().push(c);
                    assert(after =~= parts.drop_last().push(grown));
                    if parts.len() <= 4 {
                        if forall|j: int| 0 <= j < parts.len() - 1 ==> is_octet(#[trigger] parts[j]) {
                            assert(!is_octet_start(parts.last()));
                            if is_octet_start(grown) {
                                lemma_octet_start_of_shorter(parts.last(), c);
                            }
                            assert(!is_octet_start(after.last()));
                        } else {
                            let j = choose|j: int|
                                0 <= j < parts.len() - 1 && !is_octet(#[trigger] parts[j]);
                            assert(after[j] == parts[j]);
                        }
                    }
                }
            }
        }
        i = i + 1;
    }
    let ghost parts = split_on(s, '.');
    proof {
        assert(s.take(to - from) =~= s);
        lemma_split_nonempty(s, '.');
    }
    if readable && digits > 0 && numbers.len() == 3 {
        proof {
            assert forall|j: int| 0 <= j < 4 implies is_octet(#[trigger] parts[j]) by {}
        }
        proof {
            assert(is_octet(parts[0]) && is_octet(parts[1]) && is_octet(parts[2]));
        }
        let high: u16 = numbers[0] * 256 + numbers[1];
        let low: u16 = numbers[2] * 256 + current;
        proof {
            assert(quad_groups(s) =~= seq![high, low]);
        }
        Some((high, low))
    } else {
        proof {
            if readable {
                if digits == 0 {
                    assert(!is_octet(parts[parts.len() - 1]));
                }
            } else if parts.len() == 4 {
                if forall|j: int| 0 <= j < parts.len() - 1 ==> is_octet(#[trigger] parts[j]) {
                    assert(!is_octet(parts[3]));
                } else {
                    let j = choose|j: int| 0 <= j < parts.len() - 1 && !is_octet(#[trigger] parts[j]);
                    assert(!is_octet(parts[j]));
                }
            }
        }
        None
    }
}

/// Reads the list of groups in `chars[from..to]`, the last of which may be
/// a dotted quad.
fn parse_final_groups(chars: &Vec<char>, from: usize, to: usize) -> (r: Option<Vec<u16>>)
    requires
        from <= to <= chars@.len(),
    ensures
        match r {
            Some(v) => final_groups_of(chars@.subrange(from as int, to as int)) == Some(v@),
            None => final_groups_of(chars@.subrange(from as int, to as int)) is None,
        },
{
    proof {
        reveal(final_groups_of);
        reveal(groups_of);
    }
    let ghost s = chars@.subrange(from as int, to as int);
    if from == to {
        return Some(Vec::new());
    }
    let mut cut: usize = to;
    while cut > from && chars[cut - 1] != ':'
        invariant
            from <= cut <= to <= chars@.len(),
            forall|k: int| cut <= k < to ==> chars@[k] != ':',
        decreases cut,
    {
        cut = cut - 1;
    }
    let ghost last = chars@.subrange(cut as int, to as int);
    let ghost pieces = split_on(s, ':');
    proof {
        assert(free_of(last, ':'));
        if cut == from {
            assert(last =~= s);
            lemma_split_one_piece(s, ':');
        } else {
            let stem = chars@.subrange(from as int, cut - 1);
            assert(s =~= stem + seq![':'] + last);
            lemma_split_appended_piece(stem, last, ':');
            lemma_split_nonempty(stem, ':');
            assert(pieces.drop_last() =~= split_on(stem, ':'));
        }
        assert(pieces.last() == last);
    }
    match parse_quad(chars, cut, to) {
        None => parse_groups(chars, from, to),
        Some((high, low)) => {
            if cut == from {
                let mut v: Vec<u16> = Vec::new();
                v.push(high);
                v.push(low);
                proof {
                    assert(pieces.drop_last() =~= Seq::<Seq<char>>::empty());
                    assert(v@ =~= values_of(pieces.drop_last()) + quad_groups(last));
                }
                Some(v)
            } else if cut - 1 == from {
                proof {
                    let stem = chars@.subrange(from as int, cut - 1);
                    assert(stem =~= Seq::<char>::empty());
                    assert(split_on(stem, ':') =~= seq![Seq::<char>::empty()]);
                    assert(!is_hex_group(pieces[0]));
                }
                None
            } else {
                match parse_groups(chars, from, cut - 1) {
                    Some(mut v) => {
                        let ghost head = v@;
                        v.push(high);
                        v.push(low);
                        proof {
                            assert(v@ =~= head + quad_groups(last));
                            let front = pieces.drop_last();
                            assert forall|i: int| 0 <= i < pieces.len() - 1 implies is_hex_group(
                                #[trigger] pieces[i],
                            ) by {
                                assert(pieces[i] == front[i]);
                            }
                        }
                        Some(v)
                    },
                    None => {
                        proof {
                            let front = pieces.drop_last();
                            if forall|i: int| 0 <= i < pieces.len() - 1 ==> is_hex_group(#[trigger] pieces[i]) {
                                assert forall|i: int| 0 <= i < front.len() implies is_hex_group(
                                    #[trigger] front[i],
                                ) by {
                                    assert(front[i] == pieces[i]);
                                }
                            }
                        }
                        None
                    },
                }
            }
        },
    }
}

/// Reads an address from the characters of its text.
pub fn parse_chars(chars: &Vec<char>) -> (r: Option<GroupAddress>)
    ensures
        match r {
            Some(a) => parse_spec(chars@) == Some(a@),
            None => parse_spec(chars@) is None,
        },
{
    proof {
        reveal(parse_spec);
        reveal(first_gap);
    }
    let ghost t = chars@;
    let n = chars.len();
    let mut p: usize = 0;
    let mut found = false;
    while !found && n - p > 1
        invariant
            n == t.len(),
            t == chars@,
            p <= n,
            forall|q: int| 0 <= q < p ==> !has_gap_at(t, q),
            found ==> has_gap_at(t, p as int),
        decreases n - p + (if found { 0int } else { 1int }),
    {
        if chars[p] == ':' && chars[p + 1] == ':' {
            found = true;
        } else {
            p = p + 1;
        }
    }
    if found {
        proof {
            let chosen = choose|c: int| has_gap_at(t, c) && forall|q: int| has_gap_at(t, q) ==> c <= q;
            assert(has_gap_at(t, p as int) && forall|q: int| has_gap_at(t, q) ==> p <= q);
            assert(chosen == p);
            assert(t.take(p as int) =~= t.subrange(0, p as int));
            assert(t.skip(p + 2) =~= t.subrange(p + 2, n as int));
        }
        let head = parse_groups(chars, 0, p);
        let tail = parse_final_groups(chars, p + 2, n);
        match (head, tail) {
            (Some(h), Some(k)) => {
                if h.len() <= 7 && k.len() <= 7 - h.len() {
                    let mut segments: [u16; 8] = [0u16; 8];
                    let missing: usize = 8 - h.len() - k.len();
                    let mut i: usize = 0;
                    while i < h.len()
                        invariant
                            i <= h@.len() <= 7,
                            forall|j: int| 0 <= j < i ==> segments@[j] == h@[j],
                            forall|j: int| i <= j < 8 ==> segments@[j] == 0,
                        decreases h@.len() - i,
                    {
                        segments[i] = h[i];
                        i = i + 1;
                    }
                    let mut j: usize = 0;
                    while j < k.len()
                        invariant
                            j <= k@.len(),
                            h@.len() + k@.len() <= 7,
                            missing == 8 - h@.len() - k@.len(),
                            forall|x: int| 0 <= x < h@.len() ==> segments@[x] == h@[x],
                            forall|x: int| h@.len() <= x < h@.len() + missing ==> segments@[x] == 0,
                            forall|x: int| 0 <= x < j ==> segments@[h@.len() + missing + x] == k@[x],
                        decreases k@.len() - j,
                    {
                        segments[h.len() + missing + j] = k[j];
                        j = j + 1;
                    }
                    proof {
                        assert(segments@ =~= h@ + zero_groups(8 - h@.len() - k@.len()) + k@);
                    }
                    Some(GroupAddress { segments })
                } else {
                    None
                }
            },
            _ => None,
        }
    } else {
        proof {
            assert forall|q: int| !has_gap_at(t, q) by {}
            assert(t.subrange(0, n as int) =~= t);
        }
        match parse_final_groups(chars, 0, n) {
            Some(g) => {
                if g.len() == 8 {
                    let mut segments: [u16; 8] = [0u16; 8];
                    let mut i: usize = 0;
                    while i < 8
                        invariant
                            i <= 8,
                            g@.len() == 8,
                            forall|j: int| 0 <= j < i ==> segments@[j] == g@[j],
                        decreases 8 - i,
                    {
                        segments[i] = g[i];
                        i = i + 1;
                    }
                    proof {
                        assert(segments@ =~= g@);
                    }
                    Some(GroupAddress { segments })
                } else {
                    None
                }
            },
            None => None,
        }
    }
}

/// Reads an address from `text`.
pub fn parse_address(text: &str) -> (r: Option<GroupAddress>)
    ensures
        match r {
            Some(a) => parse_spec(text@) == Some(a@),
            None => parse_spec(text@) is None,
        },
{
    let chars = chars_of(text);
    parse_chars(&chars)
}

/// Appends the groups `segments[from..to]`, with colons between them.
fn push_groups(out: &mut Vec<char>, segments: &[u16; 8], from: usize, to: usize)
    requires
        from <= to <= 8,
    ensures
        final(out)@ == old(out)@ + join_with(
            group_texts(segments@.subrange(from as int, to as int)),
            ':',
        ),
{
    let ghost start = out@;
    let mut i: usize = from;
    proof {
        assert(group_texts(segments@.subrange(from as int, from as int)) =~= Seq::<
            Seq<char>,
        >::empty());
        assert(out@ =~= start + Seq::<char>::empty());
    }
    while i < to
        invariant
            from <= i <= to <= 8,
            out@ == start + join_with(group_texts(segments@.subrange(from as int, i as int)), ':'),
        decreases to - i,
    {
        let ghost done = group_texts(segments@.subrange(from as int, i as int));
        let ghost next = group_texts(segments@.subrange(from as int, i + 1));
        proof {
            assert(next.drop_last() =~= done);
            assert(next.last() == hex_text(segments@[i as int] as nat));
        }
        if i > from {
            out.push(':');
        }
        push_hex(out, segments[i]);
        proof {
            if i > from {
                assert(out@ =~= start + (join_with(done, ':') + seq![':'] + next.last()));
            } else {
                assert(done.len() == 0);
                assert(join_with(done, ':') =~= Seq::<char>::empty());
                assert(next.len() == 1);
                assert(out@ =~= start + next[0]);
            }
        }
        i = i + 1;
    }
}

impl GroupAddress {
    /// The address with the given groups, most significant first.
    pub fn from_segments(segments: [u16; 8]) -> (a: Self)
        ensures
            a@ == segments@,
            a@.len() == 8,
    {
        GroupAddress { segments }
    }

    /// The eight groups, most significant first.
    pub fn segments(&self) -> (s: [u16; 8])
        ensures
            s@ == self@,
            self@.len() == 8,
    {
        self.segments
    }

    /// Every address has eight groups.
    pub proof fn lemma_eight_groups(self)
        ensures
            self@.len() == 8,
    {
    }

    /// Whether the address lies in `ff00::/8`, the multicast range.
    pub open spec fn is_multicast_spec(self) -> bool {
        self@[0] >= 0xff00
    }

    /// Whether the address is a multicast address.
    pub fn is_multicast(&self) -> (b: bool)
        ensures
            b == self.is_multicast_spec(),
    {
        self.segments[0] >= 0xff00
    }

    /// The address as one 128-bit number.
    pub fn to_bits(&self) -> (bits: u128)
        ensures
            bits == bits_of(self@),
    {
        let mut bits: u128 = 0;
        let mut i: usize = 0;
        proof {
            assert(self@.take(0) =~= Seq::<u16>::empty());
        }
        while i < 8
            invariant
                i <= 8,
                self@.len() == 8,
                bits == bits_of(self@.take(i as int)),
                bits < span_of(i as int),
            decreases 8 - i,
        {
            proof {
                assert(self@.take(i + 1).drop_last() =~= self@.take(i as int));
                assert(self@.take(i + 1).last() == self@[i as int]);
            }
            bits = bits * 65536 + self.segments[i] as u128;
            i = i + 1;
        }
        proof {
            assert(self@.take(8) =~= self@);
        }
        bits
    }

    /// The address of the given 128 bits.
    pub fn from_bits(bits: u128) -> (a: Self)
        ensures
            a@.len() == 8,
            bits_of(a@) == bits,
    {
        let mut segments: [u16; 8] = [0u16; 8];
        let mut divisor: u128 = 0x1_0000_0000_0000_0000_0000_0000_0000;
        let mut i: usize = 0;
        proof {
            assert(segments@.take(0) =~= Seq::<u16>::empty());
            let whole = span_of(8);
            assert(bits as nat / whole == 0) by (nonlinear_arith)
                requires
                    bits < whole,
            ;
        }
        while i < 8
            invariant
                i <= 8,
                i < 8 ==> divisor == span_of(7 - i),
                bits_of(segments@.take(i as int)) == bits as nat / span_of(8 - i),
            decreases 8 - i,
        {
            let high: u128 = bits / divisor;
            let group: u16 = (high % 65536) as u16;
            let ghost before = segments@;
            segments[i] = group;
            proof {
                assert(segments@.take(i + 1).drop_last() =~= before.take(i as int));
                assert(segments@.take(i + 1).last() == group);
                assert(span_of(8 - i) == 65536 * span_of(7 - i));
                lemma_divide_in_two_steps(bits as nat, span_of(7 - i));
            }
            if i < 7 {
                divisor = divisor / 65536;
            }
            i = i + 1;
        }
        proof {
            assert(segments@.take(8) =~= segments@);
        }
        GroupAddress { segments }
    }

    /// The canonical text of the address: groups in lower-case hexadecimal
    /// without leading zeros, and the first longest run of two or more zero
    /// groups written as `::`.
    pub fn to_string(&self) -> (s: String)
        ensures
            s@ == canonical_text(self@),
    {
        proof {
            reveal(canonical_text);
        }
        let ghost a = self@;
        let mut best_start: usize = 0;
        let mut best_len: usize = 0;
        let mut run: usize = 0;
        let mut i: usize = 8;
        while i > 0
            invariant
                i <= 8,
                a == self@,
                a.len() == 8,
                run == zero_run(a, i as int),
                run <= 8 - i,
                best_len <= 8 - i,
                forall|j: int| i <= j < 8 ==> #[trigger] zero_run(a, j) <= best_len,
                best_len > 0 ==> i <= best_start < 8 && best_start + best_len <= 8 && zero_run(
                    a,
                    best_start as int,
                ) == best_len
                    && forall|j: int| i <= j < best_start ==> #[trigger] zero_run(a, j) < best_len,
            decreases i,
        {
            i = i - 1;
            if self.segments[i] == 0 {
                run = run + 1;
            } else {
                run = 0;
            }
            if run > 0 && run >= best_len {
                best_len = run;
                best_start = i;
            }
        }
        let mut out: Vec<char> = Vec::new();
        proof {
            reveal(compressed_run);
        }
        if best_len >= 2 {
            proof {
                assert(is_compressed_run(a, best_start as int, best_len as int));
                let chosen = choose|start: int, len: int| is_compressed_run(a, start, len);
                assert(is_compressed_run(a, chosen.0, chosen.1));
                assert(zero_run(a, chosen.0) <= best_len);
                assert(zero_run(a, best_start as int) <= chosen.1);
                assert(chosen == (best_start as int, best_len as int));
                assert(a.take(best_start as int) =~= a.subrange(0, best_start as int));
                assert(a.skip(best_start + best_len) =~= a.subrange(best_start + best_len, 8));
            }
            push_groups(&mut out, &self.segments, 0, best_start);
            out.push(':');
            out.push(':');
            push_groups(&mut out, &self.segments, best_start + best_len, 8);
            proof {
                assert(out@ =~= canonical_text(a));
            }
        } else {
            proof {
                assert forall|start: int, len: int| !is_compressed_run(a, start, len) by {
                    if is_compressed_run(a, start, len) {
                        assert(zero_run(a, start) <= best_len);
                    }
                }
                assert(a.subrange(0, 8) =~= a);
            }
            push_groups(&mut out, &self.segments, 0, 8);
            proof {
                assert(out@ =~= canonical_text(a));
            }
        }
        crate::text::string_of(&out)
    }
}

} // verus!
