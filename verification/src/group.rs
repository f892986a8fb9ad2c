//! Reading the group address that the operator gave: as it stands, or,
//! where colons between groups were dropped, after putting them back.

use crate::address::{
    canonical_text, final_groups_of, first_gap, groups_of, has_gap_at, is_dotted_quad, parse_chars,
    parse_spec, values_of, GroupAddress,
};
use crate::address_laws::{
    lemma_canonical_groups_short, lemma_canonical_text_reads_back, lemma_hex_is_no_quad,
    lemma_joined_groups_read, lemma_parse_is_idempotent,
};
use crate::text::{
    chars_of, free_of, is_hex_digit, is_hex_group, is_hex_run, join_with, lemma_join_halves,
    lemma_join_of_split, lemma_join_shape, lemma_split_nonempty, lemma_split_of_join, split_on,
    string_of,
};
use vstd::prelude::*;

verus! {

/// A piece cut into chunks of four characters with colons between them; a
/// piece of four characters or fewer stays as it is.
pub open spec fn chunked(piece: Seq<char>) -> Seq<char>
    decreases piece.len(),
{
    if piece.len() <= 4 {
        piece
    } else {
        piece.take(4) + seq![':'] + chunked(piece.skip(4))
    }
}

/// Every piece of `pieces` cut into chunks.
pub open spec fn all_chunked(pieces: Seq<Seq<char>>) -> Seq<Seq<char>> {
    Seq::new(pieces.len(), |i: int| chunked(pieces[i]))
}

/// The text with colons put back where they seem to have been dropped:
/// every piece between colons that is longer than four characters is cut
/// into chunks of four.
pub open spec fn repaired_text(t: Seq<char>) -> Seq<char> {
    join_with(all_chunked(split_on(t, ':')), ':')
}

/// One character more at the end of a piece adds that character to its
/// chunks, after a colon where the last chunk was full.
pub proof fn lemma_chunked_grows(piece: Seq<char>, c: char)
    ensures
        chunked(piece.push(c)) == if piece.len() > 0 && piece.len() % 4 == 0 {
            chunked(piece).push(':').push(c)
        } else {
            chunked(piece).push(c)
        },
    decreases piece.len(),
{
    let grown = piece.push(c);
    if piece.len() < 4 {
    } else if piece.len() == 4 {
        assert(grown.take(4) =~= piece);
        assert(grown.skip(4) =~= seq![c]);
        assert(chunked(seq![c]) == seq![c]);
        assert(chunked(grown) == grown.take(4) + seq![':'] + chunked(grown.skip(4)));
        assert(chunked(grown) =~= piece.push(':').push(c));
    } else {
        lemma_chunked_grows(piece.skip(4), c);
        assert(grown.take(4) =~= piece.take(4));
        assert(grown.skip(4) =~= piece.skip(4).push(c));
        if piece.len() % 4 == 0 {
            assert(chunked(grown) =~= chunked(piece).push(':').push(c));
        } else {
            assert(chunked(grown) =~= chunked(piece).push(c));
        }
    }
}

/// How one character more at the end of a text changes its repaired form.
pub proof fn lemma_repaired_grows(t: Seq<char>, c: char)
    ensures
        split_on(t, ':').len() >= 1,
        repaired_text(t.push(c)) == if c == ':' {
            repaired_text(t).push(':')
        } else if split_on(t, ':').last().len() > 0 && split_on(t, ':').last().len() % 4 == 0 {
            repaired_text(t).push(':').push(c)
        } else {
            repaired_text(t).push(c)
        },
        split_on(t.push(c), ':').last().len() == if c == ':' {
            0
        } else {
            split_on(t, ':').last().len() + 1
        },
{
    lemma_split_nonempty(t, ':');
    let pieces = split_on(t, ':');
    let after = split_on(t.push(c), ':');
    let cut = all_chunked(pieces);
    let cut_after = all_chunked(after);
    assert(t.push(c).drop_last() =~= t);
    if c == ':' {
        assert(after == pieces.push(Seq::empty()));
        assert(cut_after.drop_last() =~= cut);
        assert(cut_after.last() =~= Seq::<char>::empty());
        assert(repaired_text(t.push(c)) =~= repaired_text(t).push(':'));
    } else {
        let last = pieces.last();
        assert(after == pieces.drop_last().push(last.push(c)));
        lemma_chunked_grows(last, c);
        assert(cut_after.last() == chunked(last.push(c)));
        assert(cut.last() == chunked(last));
        assert(cut_after.drop_last() =~= cut.drop_last());
        if pieces.len() == 1 {
            assert(join_with(cut, ':') == chunked(last));
            assert(join_with(cut_after, ':') == chunked(last.push(c)));
        } else {
            let stem = join_with(cut.drop_last(), ':') + seq![':'];
            assert(join_with(cut, ':') == stem + chunked(last));
            assert(join_with(cut_after, ':') == stem + chunked(last.push(c)));
            if last.len() > 0 && last.len() % 4 == 0 {
                assert(stem + chunked(last).push(':').push(c) =~= (stem + chunked(last)).push(
                    ':',
                ).push(c));
            } else {
                assert(stem + chunked(last).push(c) =~= (stem + chunked(last)).push(c));
            }
        }
    }
}

/// Repair changes nothing in a text whose pieces all have four characters
/// or fewer: only a text with a longer piece can be read differently after
/// repair than before.
pub proof fn lemma_repair_keeps_short_pieces(t: Seq<char>)
    requires
        forall|i: int| 0 <= i < split_on(t, ':').len() ==> (#[trigger] split_on(t, ':')[i]).len() <= 4,
    ensures
        repaired_text(t) == t,
{
    let pieces = split_on(t, ':');
    assert(all_chunked(pieces) =~= pieces);
    lemma_join_of_split(t, ':');
}

/// Puts colons back into `chars` (see [`repaired_text`]).
pub fn repair(chars: &Vec<char>) -> (fixed: Vec<char>)
    ensures
        fixed@ == repaired_text(chars@),
{
    let mut out: Vec<char> = Vec::new();
    let mut run: usize = 0;
    let mut begun = false;
    let mut i: usize = 0;
    proof {
        let none = Seq::<char>::empty();
        assert(chars@.take(0) =~= none);
        assert(split_on(none, ':') =~= seq![none]);
        assert(all_chunked(seq![none]) =~= seq![none]);
        assert(repaired_text(none) =~= none);
    }
    while i < chars.len()
        invariant
            i <= chars@.len(),
            out@ == repaired_text(chars@.take(i as int)),
            run == split_on(chars@.take(i as int), ':').last().len() % 4,
            begun == (split_on(chars@.take(i as int), ':').last().len() > 0),
        decreases chars@.len() - i,
    {
        let c = chars[i];
        proof {
            lemma_repaired_grows(chars@.take(i as int), c);
            assert(chars@.take(i + 1) =~= chars@.take(i as int).push(c));
        }
        if c == ':' {
            out.push(c);
            run = 0;
            begun = false;
        } else {
            if begun && run == 0 {
                out.push(':');
            }
            out.push(c);
            run = if run == 3 {
                0
            } else {
                run + 1
            };
            begun = true;
        }
        i = i + 1;
    }
    proof {
        assert(chars@.take(i as int) =~= chars@);
    }
    out
}

/// What reading a group address from a text comes to.
pub enum Reading {
    /// The text is an address as it stands.
    Direct(Seq<u16>),
    /// The text is no address, its repaired form is: the address, and the
    /// repaired form.
    Recovered(Seq<u16>, Seq<char>),
    /// Neither the text nor its repaired form is an address: the repaired
    /// form that was tried.
    Invalid(Seq<char>),
}

/// Reads `t` as it stands; failing that, reads its repaired form.
pub open spec fn reading_of(t: Seq<char>) -> Reading {
    match parse_spec(t) {
        Some(a) => Reading::Direct(a),
        None => match parse_spec(repaired_text(t)) {
            Some(a) => Reading::Recovered(a, repaired_text(t)),
            None => Reading::Invalid(repaired_text(t)),
        },
    }
}

/// A group address that was read from text.
#[derive(Debug)]
pub struct ParsedGroup {
    pub address: GroupAddress,
    /// Whether the address lies in the multicast range. One that does not
    /// is still handed out; the caller may warn.
    pub multicast: bool,
    /// The repaired text, where the text was read only after repair.
    pub repaired: Option<String>,
}

/// The text is no address, and neither is its repaired form.
#[derive(Debug)]
pub struct InvalidAddress {
    /// The text as it was given.
    pub given: String,
    /// The repaired form that was tried.
    pub attempted: String,
}

/// Reads the group address from `text`. A text that is no address as it
/// stands is repaired and read again; only if that fails too is the text
/// turned down.
pub fn parse_multicast_address(text: &str) -> (r: Result<ParsedGroup, InvalidAddress>)
    ensures
        match reading_of(text@) {
            Reading::Direct(a) => r matches Ok(g) && g.address@ == a && g.repaired is None
                && g.multicast == g.address.is_multicast_spec(),
            Reading::Recovered(a, fixed) => r matches Ok(g) && g.address@ == a
                && g.multicast == g.address.is_multicast_spec() && (g.repaired matches Some(f)
                && f@ == fixed),
            Reading::Invalid(fixed) => r matches Err(e) && e.given@ == text@ && e.attempted@
                == fixed,
        },
{
    let chars = chars_of(text);
    match parse_chars(&chars) {
        Some(address) => Ok(
            ParsedGroup { address, multicast: address.is_multicast(), repaired: None },
        ),
        None => {
            let fixed = repair(&chars);
            let fixed_text = string_of(&fixed);
            match parse_chars(&fixed) {
                Some(address) => Ok(
                    ParsedGroup {
                        address,
                        multicast: address.is_multicast(),
                        repaired: Some(fixed_text),
                    },
                ),
                None => Err(InvalidAddress { given: text.to_owned(), attempted: fixed_text }),
            }
        },
    }
}

/// The canonical text of an address is read as it stands, as that address.
pub proof fn lemma_reading_of_canonical_text(a: Seq<u16>)
    requires
        a.len() == 8,
    ensures
        reading_of(canonical_text(a)) == Reading::Direct(a),
{
    lemma_canonical_text_reads_back(a);
}

/// Reading, writing in canonical form and reading again changes nothing:
/// for a text that is an address as it stands, the canonical text of that
/// address is read as it stands, as the same address.
pub proof fn lemma_reading_is_idempotent(x: Seq<char>)
    requires
        reading_of(x) is Direct,
    ensures
        reading_of(canonical_text(reading_of(x)->Direct_0)) == reading_of(x),
{
    lemma_parse_is_idempotent(x);
}

/// Dropped colons are recovered. Take seven pieces joined by colons, six of
/// them groups and one, at place `k`, eight hexadecimal digits: two groups
/// that lost the colon between them. That text is no address; it is read
/// after repair, as the address of the eight groups that come of cutting the
/// long piece in two; and every group of that address's canonical text has
/// at most four hexadecimal digits.
pub proof fn lemma_long_group_is_recovered(pieces: Seq<Seq<char>>, k: int)
    requires
        pieces.len() == 7,
        0 <= k < 7,
        forall|i: int| 0 <= i < 7 && i != k ==> is_hex_group(#[trigger] pieces[i]),
        pieces[k].len() == 8,
        forall|j: int| 0 <= j < 8 ==> is_hex_digit(#[trigger] pieces[k][j]),
    ensures
        ({
            let text = join_with(pieces, ':');
            let mended = pieces.take(k) + seq![pieces[k].take(4), pieces[k].skip(4)] + pieces.skip(
                k + 1,
            );
            let address = values_of(mended);
            &&& parse_spec(text) is None
            &&& repaired_text(text) == join_with(mended, ':')
            &&& reading_of(text) == Reading::Recovered(address, join_with(mended, ':'))
            &&& address.len() == 8
            &&& forall|i: int|
                0 <= i < split_on(canonical_text(address), ':').len() ==> is_hex_run(
                    #[trigger] split_on(canonical_text(address), ':')[i],
                )
        }),
{
    reveal(final_groups_of);
    reveal(first_gap);
    reveal(groups_of);
    reveal(parse_spec);
    let text = join_with(pieces, ':');
    let long = pieces[k];
    let u = long.take(4);
    let v = long.skip(4);
    let mended = pieces.take(k) + seq![u, v] + pieces.skip(k + 1);
    let address = values_of(mended);
    // The text as it stands: its pieces are the seven given, one too long.
    assert forall|i: int| 0 <= i < pieces.len() implies (#[trigger] pieces[i]).len() >= 1 && free_of(
        pieces[i],
        ':',
    ) by {
        assert forall|j: int| 0 <= j < pieces[i].len() implies #[trigger] pieces[i][j] != ':' by {
            if i == k {
                assert(is_hex_digit(pieces[k][j]));
            } else {
                assert(is_hex_group(pieces[i]));
                assert(is_hex_digit(pieces[i][j]));
            }
        }
        if i != k {
            assert(is_hex_group(pieces[i]));
        }
    }
    lemma_split_of_join(pieces, ':');
    lemma_join_shape(pieces, ':');
    assert forall|p: int| !has_gap_at(text, p) by {
        if 0 <= p && p + 1 < text.len() {
            assert(!(text[p] == ':' && text[p + 1] == ':'));
        }
    }
    assert(first_gap(text) is None);
    assert(!is_hex_group(split_on(text, ':')[k]));
    assert(groups_of(text) is None);
    assert(!is_dotted_quad(pieces.last())) by {
        if k != 6 {
            assert(is_hex_group(pieces[6]));
        }
        lemma_hex_is_no_quad(pieces[6]);
    }
    assert(final_groups_of(text) is None);
    assert(parse_spec(text) is None);
    // The repaired form: the long piece cut in two.
    let cut = all_chunked(pieces);
    assert(chunked(v) == v);
    assert(chunked(long) == u + seq![':'] + v);
    assert(cut[k] == u + seq![':'] + v);
    lemma_join_halves(cut, k, u, v, ':');
    assert(cut.take(k) + seq![u, v] + cut.skip(k + 1) =~= mended) by {
        assert forall|i: int| 0 <= i < 7 && i != k implies cut[i] == pieces[i] by {
            assert(is_hex_group(pieces[i]));
        }
    }
    assert(repaired_text(text) == join_with(mended, ':'));
    // Its pieces are eight groups.
    assert forall|i: int| 0 <= i < mended.len() implies is_hex_group(#[trigger] mended[i]) by {
        if i < k {
            assert(mended[i] == pieces[i]);
        } else if i == k {
            assert forall|j: int| 0 <= j < u.len() implies is_hex_digit(#[trigger] u[j]) by {
                assert(u[j] == long[j]);
            }
        } else if i == k + 1 {
            assert forall|j: int| 0 <= j < v.len() implies is_hex_digit(#[trigger] v[j]) by {
                assert(v[j] == long[j + 4]);
            }
        } else {
            assert(mended[i] == pieces[i - 1]);
        }
    }
    lemma_joined_groups_read(mended);
    assert(parse_spec(join_with(mended, ':')) == Some(address));
    lemma_canonical_groups_short(address);
}

} // verus!
