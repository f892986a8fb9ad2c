//! What holds of reading and writing addresses: the canonical text of an
//! address reads back as that address, whatever the address.

use crate::address::{
    bits_of, canonical_text, compressed_run, final_groups_of, first_gap, group_texts, groups_of,
    has_gap_at, is_compressed_run, is_dotted_quad, parse_spec, values_of, zero_groups, zero_run,
};
use crate::text::{
    free_of, hex_value, is_hex_digit, is_hex_group, is_hex_run, join_with,
    lemma_hex_text_reads_back, lemma_join_shape, lemma_split_concat, lemma_split_of_join,
    lemma_split_one_piece, split_on,
};
use vstd::prelude::*;

verus! {

/// Two addresses of the same bits are the same address.
pub proof fn lemma_bits_tell_addresses_apart(a: Seq<u16>, b: Seq<u16>)
    requires
        a.len() == b.len(),
        bits_of(a) == bits_of(b),
    ensures
        a == b,
    decreases a.len(),
{
    if a.len() > 0 {
        lemma_bits_tell_addresses_apart(a.drop_last(), b.drop_last());
        assert(a =~= a.drop_last().push(a.last()));
        assert(b =~= b.drop_last().push(b.last()));
    } else {
        assert(a =~= b);
    }
}

/// Text made of hexadecimal digits is no dotted quad.
pub proof fn lemma_hex_is_no_quad(g: Seq<char>)
    requires
        forall|i: int| 0 <= i < g.len() ==> is_hex_digit(#[trigger] g[i]),
    ensures
        !is_dotted_quad(g),
{
    assert forall|i: int| 0 <= i < g.len() implies #[trigger] g[i] != '.' by {
        assert(is_hex_digit(g[i]));
    }
    lemma_split_one_piece(g, '.');
}

/// A list of groups written out with colons reads back as the same groups,
/// and what is written holds no `::` and no colon at either end.
pub proof fn lemma_groups_read_back(groups: Seq<u16>)
    ensures
        groups_of(join_with(group_texts(groups), ':')) == Some(groups),
        final_groups_of(join_with(group_texts(groups), ':')) == Some(groups),
        forall|p: int| !has_gap_at(join_with(group_texts(groups), ':'), p),
        groups.len() >= 1 ==> join_with(group_texts(groups), ':').len() >= 1 && join_with(
            group_texts(groups),
            ':',
        )[0] != ':' && join_with(group_texts(groups), ':').last() != ':',
        groups.len() >= 1 ==> split_on(join_with(group_texts(groups), ':'), ':') == group_texts(
            groups,
        ),
        groups.len() == 0 ==> join_with(group_texts(groups), ':').len() == 0,
        forall|i: int| 0 <= i < groups.len() ==> is_hex_group(#[trigger] group_texts(groups)[i]),
{
    reveal(final_groups_of);
    reveal(groups_of);
    let parts = group_texts(groups);
    let text = join_with(parts, ':');
    assert forall|i: int| 0 <= i < parts.len() implies is_hex_group(#[trigger] parts[i]) && free_of(
        parts[i],
        ':',
    ) && parts[i].len() >= 1 && hex_value(parts[i]) == groups[i] by {
        lemma_hex_text_reads_back(groups[i] as nat);
    }
    if groups.len() == 0 {
        assert(groups =~= Seq::<u16>::empty());
    } else {
        lemma_split_of_join(parts, ':');
        lemma_join_shape(parts, ':');
        assert(values_of(parts) =~= groups);
        assert(is_hex_group(parts[parts.len() - 1]));
        lemma_hex_is_no_quad(parts.last());
        assert forall|p: int| !has_gap_at(text, p) by {
            if 0 <= p && p + 1 < text.len() {
                assert(!(text[p] == ':' && text[p + 1] == ':'));
            }
        }
    }
}

/// Groups joined by single colons are read as those groups, and hold no
/// `::`.
pub proof fn lemma_joined_groups_read(pieces: Seq<Seq<char>>)
    requires
        pieces.len() >= 1,
        forall|i: int| 0 <= i < pieces.len() ==> is_hex_group(#[trigger] pieces[i]),
    ensures
        split_on(join_with(pieces, ':'), ':') == pieces,
        groups_of(join_with(pieces, ':')) == Some(values_of(pieces)),
        final_groups_of(join_with(pieces, ':')) == Some(values_of(pieces)),
        first_gap(join_with(pieces, ':')) is None,
{
    reveal(final_groups_of);
    reveal(groups_of);
    reveal(first_gap);
    let text = join_with(pieces, ':');
    assert forall|i: int| 0 <= i < pieces.len() implies (#[trigger] pieces[i]).len() >= 1 && free_of(
        pieces[i],
        ':',
    ) by {
        assert(is_hex_group(pieces[i]));
        assert forall|j: int| 0 <= j < pieces[i].len() implies #[trigger] pieces[i][j] != ':' by {
            assert(is_hex_digit(pieces[i][j]));
        }
    }
    lemma_split_of_join(pieces, ':');
    lemma_join_shape(pieces, ':');
    assert forall|p: int| !has_gap_at(text, p) by {
        if 0 <= p && p + 1 < text.len() {
            assert(!(text[p] == ':' && text[p + 1] == ':'));
        }
    }
    assert(is_hex_group(pieces[pieces.len() - 1]));
    lemma_hex_is_no_quad(pieces.last());
}

/// The first `::` of a text is where no `::` stands before it.
pub proof fn lemma_first_gap(t: Seq<char>, p: int)
    requires
        has_gap_at(t, p),
        forall|q: int| has_gap_at(t, q) ==> p <= q,
    ensures
        first_gap(t) == Some(p),
{
    reveal(first_gap);
    let chosen = choose|c: int| has_gap_at(t, c) && forall|q: int| has_gap_at(t, q) ==> c <= q;
    assert(has_gap_at(t, chosen) && forall|q: int| has_gap_at(t, q) ==> chosen <= q);
    assert(chosen <= p && p <= chosen);
}

/// Where `::` follows a text that holds no `::` and does not end with a
/// colon, no `::` of the whole stands before it.
proof fn lemma_no_gap_before(front: Seq<char>, back: Seq<char>)
    requires
        forall|q: int| !has_gap_at(front, q),
        front.len() > 0 ==> front.last() != ':',
    ensures
        forall|q: int| has_gap_at(front + seq![':', ':'] + back, q) ==> front.len() <= q,
{
    let text = front + seq![':', ':'] + back;
    let p = front.len() as int;
    assert forall|q: int| has_gap_at(text, q) implies p <= q by {
        if q < p {
            assert(text[q] == front[q]);
            if q + 1 < p {
                assert(text[q + 1] == front[q + 1]);
                assert(has_gap_at(front, q));
            }
        }
    }
}

/// What stands before and after a `::` that was put between two texts.
proof fn lemma_around_gap(front: Seq<char>, back: Seq<char>)
    ensures
        has_gap_at(front + seq![':', ':'] + back, front.len() as int),
        (front + seq![':', ':'] + back).take(front.len() as int) == front,
        (front + seq![':', ':'] + back).skip(front.len() as int + 2) == back,
{
    let text = front + seq![':', ':'] + back;
    let p = front.len() as int;
    assert(text.take(p) =~= front);
    assert(text.skip(p + 2) =~= back);
}

/// Where `::` follows a text that holds no `::` and does not end with a
/// colon, that `::` is the first of the whole.
pub proof fn lemma_gap_after(front: Seq<char>, back: Seq<char>)
    requires
        forall|q: int| !has_gap_at(front, q),
        front.len() > 0 ==> front.last() != ':',
    ensures
        first_gap(front + seq![':', ':'] + back) == Some(front.len() as int),
        (front + seq![':', ':'] + back).take(front.len() as int) == front,
        (front + seq![':', ':'] + back).skip(front.len() as int + 2) == back,
{
    lemma_no_gap_before(front, back);
    lemma_around_gap(front, back);
    lemma_first_gap(front + seq![':', ':'] + back, front.len() as int);
}

/// What a text with `::` is read as, given what stands before and after
/// the first `::`.
pub proof fn lemma_parse_around_gap(t: Seq<char>, p: int, head: Seq<u16>, tail: Seq<u16>)
    requires
        first_gap(t) == Some(p),
        groups_of(t.take(p)) == Some(head),
        final_groups_of(t.skip(p + 2)) == Some(tail),
        head.len() + tail.len() <= 7,
    ensures
        parse_spec(t) == Some(head + zero_groups(8 - head.len() - tail.len()) + tail),
{
    reveal(parse_spec);
}

/// Groups written before and after `::` read back with the missing zero
/// groups between them.
pub proof fn lemma_gap_text_reads_back(head: Seq<u16>, tail: Seq<u16>)
    requires
        head.len() + tail.len() <= 7,
    ensures
        parse_spec(
            join_with(group_texts(head), ':') + seq![':', ':'] + join_with(group_texts(tail), ':'),
        ) == Some(head + zero_groups(8 - head.len() - tail.len()) + tail),
{
    let front = join_with(group_texts(head), ':');
    let back = join_with(group_texts(tail), ':');
    lemma_groups_read_back(head);
    lemma_groups_read_back(tail);
    lemma_gap_after(front, back);
    lemma_parse_around_gap(front + seq![':', ':'] + back, front.len() as int, head, tail);
}

/// All eight groups written out with colons read back as the address.
pub proof fn lemma_full_text_reads_back(a: Seq<u16>)
    requires
        a.len() == 8,
    ensures
        parse_spec(join_with(group_texts(a), ':')) == Some(a),
{
    reveal(parse_spec);
    reveal(first_gap);
    lemma_groups_read_back(a);
    assert(first_gap(join_with(group_texts(a), ':')) is None);
}

/// A run of zeros holds zeros only and ends within the address.
pub proof fn lemma_zero_run_holds_zeros(a: Seq<u16>, start: int)
    requires
        0 <= start <= a.len(),
    ensures
        start + zero_run(a, start) <= a.len(),
        forall|i: int| start <= i < start + zero_run(a, start) ==> #[trigger] a[i] == 0,
    decreases a.len() - start,
{
    if start < a.len() && a[start] == 0 {
        lemma_zero_run_holds_zeros(a, start + 1);
    }
}

/// The run that the canonical form writes as `::` lies within the address
/// and holds zeros only.
pub proof fn lemma_compressed_run_is_zero(a: Seq<u16>)
    ensures
        compressed_run(a) matches Some((start, len)) ==> 0 <= start && 2 <= len && start + len
            <= a.len() && forall|i: int| start <= i < start + len ==> #[trigger] a[i] == 0,
{
    reveal(compressed_run);
    if compressed_run(a) is Some {
        let (start, len) = compressed_run(a)->0;
        assert(is_compressed_run(a, start, len));
        lemma_zero_run_holds_zeros(a, start);
    }
}

/// An address cut at a run of zeros is its two ends with that many zero
/// groups between them.
proof fn lemma_zero_run_rejoins(a: Seq<u16>, start: int, len: int)
    requires
        0 <= start,
        0 <= len,
        start + len <= a.len(),
        forall|i: int| start <= i < start + len ==> #[trigger] a[i] == 0,
    ensures
        a.take(start) + zero_groups(len) + a.skip(start + len) == a,
        a.take(start).len() + a.skip(start + len).len() == a.len() - len,
{
    assert(a.take(start) + zero_groups(len) + a.skip(start + len) =~= a);
}

/// The canonical text of an address reads back as that address.
pub proof fn lemma_canonical_text_reads_back(a: Seq<u16>)
    requires
        a.len() == 8,
    ensures
        parse_spec(canonical_text(a)) == Some(a),
{
    reveal(canonical_text);
    if compressed_run(a) is None {
        lemma_full_text_reads_back(a);
    } else {
        let (start, len) = compressed_run(a)->0;
        lemma_compressed_run_is_zero(a);
        let head = a.take(start);
        let tail = a.skip(start + len);
        assert(canonical_text(a) == join_with(group_texts(head), ':') + seq![':', ':'] + join_with(
            group_texts(tail),
            ':',
        ));
        lemma_gap_text_reads_back(head, tail);
        lemma_zero_run_rejoins(a, start, len);
    }
}

/// Two addresses with the same canonical text are the same address.
pub proof fn lemma_canonical_text_tells_apart(a: Seq<u16>, b: Seq<u16>)
    requires
        a.len() == 8,
        b.len() == 8,
        canonical_text(a) == canonical_text(b),
    ensures
        a == b,
{
    lemma_canonical_text_reads_back(a);
    lemma_canonical_text_reads_back(b);
}

/// Whatever is read from a text has eight groups.
pub proof fn lemma_parsed_has_eight_groups(x: Seq<char>)
    ensures
        parse_spec(x) matches Some(a) ==> a.len() == 8,
{
    reveal(parse_spec);
    match first_gap(x) {
        None => {},
        Some(p) => {
            match (groups_of(x.take(p)), final_groups_of(x.skip(p + 2))) {
                (Some(head), Some(tail)) => {
                    if head.len() + tail.len() <= 7 {
                        let a = head + zero_groups(8 - head.len() - tail.len()) + tail;
                        assert(a.len() == 8);
                    }
                },
                _ => {},
            }
        },
    }
}

/// Reading is idempotent: an address that was read from any text, written
/// in canonical form and read again, is the same address.
pub proof fn lemma_parse_is_idempotent(x: Seq<char>)
    requires
        parse_spec(x) is Some,
    ensures
        parse_spec(x)->0.len() == 8,
        parse_spec(canonical_text(parse_spec(x)->0)) == parse_spec(x),
{
    let a = parse_spec(x)->0;
    lemma_parsed_has_eight_groups(x);
    lemma_canonical_text_reads_back(a);
}

/// Every group of a canonical text has at most four characters.
pub proof fn lemma_canonical_groups_short(a: Seq<u16>)
    requires
        a.len() == 8,
    ensures
        forall|i: int|
            0 <= i < split_on(canonical_text(a), ':').len() ==> is_hex_run(
                #[trigger] split_on(canonical_text(a), ':')[i],
            ),
{
    reveal(canonical_text);
    let text = canonical_text(a);
    let pieces = split_on(text, ':');
    let none = Seq::<char>::empty();
    assert(split_on(none, ':') =~= seq![none]);
    match compressed_run(a) {
        None => {
            lemma_groups_read_back(a);
        },
        Some((start, len)) => {
            let head = a.take(start);
            let tail = a.skip(start + len);
            let front = join_with(group_texts(head), ':');
            let back = join_with(group_texts(tail), ':');
            lemma_groups_read_back(head);
            lemma_groups_read_back(tail);
            lemma_split_concat(none, back, ':');
            lemma_split_concat(front, seq![':'] + back, ':');
            assert(none + seq![':'] + back =~= seq![':'] + back);
            assert(front + seq![':'] + (seq![':'] + back) =~= text);
            let left = split_on(front, ':');
            let right = split_on(back, ':');
            assert(pieces == left + (seq![none] + right));
            assert(front.len() == 0 ==> front =~= none);
            assert(back.len() == 0 ==> back =~= none);
            assert forall|i: int| 0 <= i < left.len() implies is_hex_run(#[trigger] left[i]) by {
                if head.len() >= 1 {
                    assert(is_hex_group(group_texts(head)[i]));
                }
            }
            assert forall|i: int| 0 <= i < right.len() implies is_hex_run(#[trigger] right[i]) by {
                if tail.len() >= 1 {
                    assert(is_hex_group(group_texts(tail)[i]));
                }
            }
            assert forall|i: int| 0 <= i < pieces.len() implies is_hex_run(#[trigger] pieces[i]) by {
                if i < left.len() {
                    assert(pieces[i] == left[i]);
                } else if i == left.len() {
                    assert(pieces[i] == none);
                } else {
                    assert(pieces[i] == right[i - left.len() - 1]);
                }
            }
        },
    }
}

} // verus!
