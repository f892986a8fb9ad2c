//! Characters, digits and the small pieces of text the prober reads and writes.

use vstd::prelude::*;

verus! {

/// The characters of `s`, in order.
pub fn chars_of(s: &str) -> (v: Vec<char>)
    ensures
        v@ == s@,
{
    let mut v: Vec<char> = Vec::new();
    let it0 = s.chars();
    for c in it: it0
        invariant
            v@ == it.seq().take(it.index()),
            it.seq() == s@,
    {
        v.push(c);
    }
    v
}

/// Appends `c` to `s`. Calls `String::push`, which std documents to append
/// the given character to the end of the string; the contract says that and
/// nothing else, and is taken on trust.
#[verifier::external_body]
pub(crate) fn push_char(s: &mut String, c: char)
    ensures
        final(s)@ == old(s)@.push(c),
{
    s.push(c);
}

/// The string made of the characters of `v`, in order.
pub fn string_of(v: &Vec<char>) -> (s: String)
    ensures
        s@ == v@,
{
    let mut s = String::new();
    let mut i: usize = 0;
    while i < v.len()
        invariant
            i <= v@.len(),
            s@ == v@.take(i as int),
        decreases v@.len() - i,
    {
        push_char(&mut s, v[i]);
        assert(v@.take(i + 1) =~= v@.take(i as int).push(v@[i as int]));
        i = i + 1;
    }
    assert(v@.take(i as int) =~= v@);
    s
}

/// Whether `c` is a hexadecimal digit, in either case.
pub open spec fn is_hex_digit(c: char) -> bool {
    ('0' <= c && c <= '9') || ('a' <= c && c <= 'f') || ('A' <= c && c <= 'F')
}

/// The value of the hexadecimal digit `c`.
pub open spec fn hex_digit_value(c: char) -> nat {
    if '0' <= c && c <= '9' {
        (c as int - '0' as int) as nat
    } else if 'a' <= c && c <= 'f' {
        (c as int - 'a' as int + 10) as nat
    } else {
        (c as int - 'A' as int + 10) as nat
    }
}

/// The value of `c`, if it is a hexadecimal digit.
pub fn hex_digit(c: char) -> (r: Option<u8>)
    ensures
        r is Some <==> is_hex_digit(c),
        r matches Some(d) ==> d as nat == hex_digit_value(c) && d < 16,
{
    if '0' <= c && c <= '9' {
        Some((c as u32 - '0' as u32) as u8)
    } else if 'a' <= c && c <= 'f' {
        Some((c as u32 - 'a' as u32 + 10) as u8)
    } else if 'A' <= c && c <= 'F' {
        Some((c as u32 - 'A' as u32 + 10) as u8)
    } else {
        None
    }
}

/// The lower-case hexadecimal digit of value `d`.
pub open spec fn hex_digit_char(d: nat) -> char {
    if d < 10 {
        (48 + d) as u8 as char
    } else {
        (87 + d) as u8 as char
    }
}

/// The lower-case hexadecimal digit of value `d`.
fn hex_char(d: u8) -> (c: char)
    requires
        d < 16,
    ensures
        c == hex_digit_char(d as nat),
        is_hex_digit(c),
        hex_digit_value(c) == d,
        c != ':',
{
    if d < 10 {
        (48 + d) as char
    } else {
        (87 + d) as char
    }
}

/// Whether `g` is at most four characters, all of them hexadecimal digits.
pub open spec fn is_hex_run(g: Seq<char>) -> bool {
    g.len() <= 4 && forall|i: int| 0 <= i < g.len() ==> is_hex_digit(#[trigger] g[i])
}

/// Whether `g` is one group of an address: one to four hexadecimal digits.
pub open spec fn is_hex_group(g: Seq<char>) -> bool {
    g.len() >= 1 && is_hex_run(g)
}

/// The number that a run of hexadecimal digits writes in base sixteen.
pub open spec fn hex_value(g: Seq<char>) -> nat
    decreases g.len(),
{
    if g.len() == 0 {
        0
    } else {
        16 * hex_value(g.drop_last()) + hex_digit_value(g.last())
    }
}

/// The hexadecimal digits of `v` in lower case, without leading zeros.
pub open spec fn hex_text(v: nat) -> Seq<char>
    decreases v,
{
    if v < 16 {
        seq![hex_digit_char(v)]
    } else {
        hex_text(v / 16).push(hex_digit_char(v % 16))
    }
}

/// A run of up to four hexadecimal digits writes a number below 65536.
pub proof fn lemma_hex_value_bound(g: Seq<char>)
    requires
        is_hex_run(g),
    ensures
        g.len() == 0 ==> hex_value(g) == 0,
        g.len() <= 1 ==> hex_value(g) < 16,
        g.len() <= 2 ==> hex_value(g) < 256,
        g.len() <= 3 ==> hex_value(g) < 4096,
        hex_value(g) < 65536,
    decreases g.len(),
{
    if g.len() > 0 {
        assert(is_hex_digit(g[g.len() - 1]));
        assert forall|i: int| 0 <= i < g.drop_last().len() implies is_hex_digit(
            #[trigger] g.drop_last()[i],
        ) by {
            assert(g.drop_last()[i] == g[i]);
        }
        lemma_hex_value_bound(g.drop_last());
    }
}

/// What is written by [`hex_text`] reads back as the same number, and for a
/// number below 65536 it is one group.
pub proof fn lemma_hex_text_reads_back(v: nat)
    ensures
        hex_value(hex_text(v)) == v,
        hex_text(v).len() >= 1,
        forall|i: int| 0 <= i < hex_text(v).len() ==> is_hex_digit(#[trigger] hex_text(v)[i]),
        forall|i: int| 0 <= i < hex_text(v).len() ==> #[trigger] hex_text(v)[i] != ':',
        v < 16 ==> hex_text(v).len() == 1,
        v < 256 ==> hex_text(v).len() <= 2,
        v < 4096 ==> hex_text(v).len() <= 3,
        v < 65536 ==> hex_text(v).len() <= 4 && is_hex_group(hex_text(v)),
    decreases v,
{
    let d = v % 16;
    assert(is_hex_digit(hex_digit_char(d)) && hex_digit_value(hex_digit_char(d)) == d
        && hex_digit_char(d) != ':');
    if v >= 16 {
        lemma_hex_text_reads_back(v / 16);
        let t = hex_text(v);
        assert(t.drop_last() =~= hex_text(v / 16));
        assert(t.last() == hex_digit_char(d));
        assert(hex_value(t) == 16 * hex_value(t.drop_last()) + hex_digit_value(t.last()));
        assert forall|i: int| 0 <= i < t.len() implies is_hex_digit(#[trigger] t[i]) && t[i]
            != ':' by {
            if i < t.len() - 1 {
                assert(t[i] == hex_text(v / 16)[i]);
            }
        }
    } else {
        let t = hex_text(v);
        assert(t.drop_last() =~= Seq::<char>::empty());
        assert(t.last() == hex_digit_char(d));
        assert(hex_value(t.drop_last()) == 0);
        assert(hex_value(t) == 16 * hex_value(t.drop_last()) + hex_digit_value(t.last()));
    }
}

/// Appends the hexadecimal digits of `v` to `out`.
pub fn push_hex(out: &mut Vec<char>, v: u16)
    ensures
        final(out)@ == old(out)@ + hex_text(v as nat),
{
    let ghost before = out@;
    if v >= 0x1000 {
        out.push(hex_char((v / 0x1000) as u8));
    }
    if v >= 0x100 {
        out.push(hex_char(((v / 0x100) % 16) as u8));
    }
    if v >= 0x10 {
        out.push(hex_char(((v / 0x10) % 16) as u8));
    }
    out.push(hex_char((v % 16) as u8));
    proof {
        let n = v as nat;
        reveal_with_fuel(hex_text, 4);
        assert(out@ =~= before + hex_text(n));
    }
}

/// The pieces of `s` between the occurrences of `sep`: one piece more than
/// there are separators, empty pieces included.
pub open spec fn split_on(s: Seq<char>, sep: char) -> Seq<Seq<char>>
    decreases s.len(),
{
    if s.len() == 0 {
        seq![Seq::empty()]
    } else {
        let before = split_on(s.drop_last(), sep);
        if s.last() == sep {
            before.push(Seq::empty())
        } else {
            before.drop_last().push(before.last().push(s.last()))
        }
    }
}

/// The pieces of `parts` in order, with `sep` between neighbours.
pub open spec fn join_with(parts: Seq<Seq<char>>, sep: char) -> Seq<char>
    decreases parts.len(),
{
    if parts.len() == 0 {
        Seq::empty()
    } else if parts.len() == 1 {
        parts[0]
    } else {
        join_with(parts.drop_last(), sep) + seq![sep] + parts.last()
    }
}

/// Whether `sep` occurs nowhere in `piece`.
pub open spec fn free_of(piece: Seq<char>, sep: char) -> bool {
    forall|i: int| 0 <= i < piece.len() ==> #[trigger] piece[i] != sep
}

/// Splitting gives at least one piece.
pub proof fn lemma_split_nonempty(s: Seq<char>, sep: char)
    ensures
        split_on(s, sep).len() >= 1,
    decreases s.len(),
{
    if s.len() > 0 {
        lemma_split_nonempty(s.drop_last(), sep);
    }
}

/// Text without a separator is its own single piece.
pub proof fn lemma_split_one_piece(piece: Seq<char>, sep: char)
    requires
        free_of(piece, sep),
    ensures
        split_on(piece, sep) == seq![piece],
    decreases piece.len(),
{
    if piece.len() > 0 {
        assert(piece[piece.len() - 1] != sep);
        lemma_split_one_piece(piece.drop_last(), sep);
        assert(piece.drop_last().push(piece.last()) =~= piece);
        assert(seq![piece.drop_last()].drop_last().push(piece) =~= seq![piece]);
    } else {
        assert(piece =~= Seq::<char>::empty());
    }
}

/// A separator and a piece after some text add that piece to its pieces.
pub proof fn lemma_split_appended_piece(s: Seq<char>, piece: Seq<char>, sep: char)
    requires
        free_of(piece, sep),
    ensures
        split_on(s + seq![sep] + piece, sep) == split_on(s, sep).push(piece),
    decreases piece.len(),
{
    let whole = s + seq![sep] + piece;
    if piece.len() == 0 {
        assert(whole.drop_last() =~= s);
        assert(piece =~= Seq::<char>::empty());
    } else {
        let shorter = piece.drop_last();
        assert(piece[piece.len() - 1] != sep);
        lemma_split_appended_piece(s, shorter, sep);
        assert(whole.drop_last() =~= s + seq![sep] + shorter);
        assert(whole.last() == piece.last());
        assert(shorter.push(piece.last()) =~= piece);
        assert(split_on(s, sep).push(shorter).drop_last() =~= split_on(s, sep));
    }
}

/// Joining pieces that hold no separator and splitting again gives the
/// pieces back.
pub proof fn lemma_split_of_join(parts: Seq<Seq<char>>, sep: char)
    requires
        parts.len() >= 1,
        forall|i: int| 0 <= i < parts.len() ==> free_of(#[trigger] parts[i], sep),
    ensures
        split_on(join_with(parts, sep), sep) == parts,
    decreases parts.len(),
{
    if parts.len() == 1 {
        lemma_split_one_piece(parts[0], sep);
        assert(seq![parts[0]] =~= parts);
    } else {
        let front = parts.drop_last();
        assert forall|i: int| 0 <= i < front.len() implies free_of(#[trigger] front[i], sep) by {
            assert(front[i] == parts[i]);
        }
        lemma_split_of_join(front, sep);
        assert(free_of(parts[parts.len() - 1], sep));
        lemma_split_appended_piece(join_with(front, sep), parts.last(), sep);
        assert(front.push(parts.last()) =~= parts);
    }
}

/// Whether `c` is one of the ten ASCII digits.
pub open spec fn is_dec_digit(c: char) -> bool {
    '0' <= c && c <= '9'
}

/// The digit that `c` stands for, if it is an ASCII digit.
pub fn dec_digit(c: char) -> (r: Option<u8>)
    ensures
        r is Some <==> is_dec_digit(c),
        r matches Some(d) ==> d as int == c as int - '0' as int && d <= 9,
{
    if '0' <= c && c <= '9' {
        Some((c as u32 - '0' as u32) as u8)
    } else {
        None
    }
}

/// Whether `s` is one or more ASCII digits and nothing else.
pub open spec fn is_decimal(s: Seq<char>) -> bool {
    s.len() >= 1 && forall|i: int| 0 <= i < s.len() ==> is_dec_digit(#[trigger] s[i])
}

/// The number that a run of ASCII digits writes in base ten.
pub open spec fn decimal_value(s: Seq<char>) -> nat
    decreases s.len(),
{
    if s.len() == 0 {
        0
    } else {
        (10 * decimal_value(s.drop_last()) + (s.last() as int - '0' as int)) as nat
    }
}

/// The pieces of a text, joined again, are the text.
pub proof fn lemma_join_of_split(s: Seq<char>, sep: char)
    ensures
        join_with(split_on(s, sep), sep) == s,
    decreases s.len(),
{
    if s.len() == 0 {
        assert(s =~= Seq::<char>::empty());
    } else {
        let x = s.drop_last();
        let c = s.last();
        let before = split_on(x, sep);
        let after = split_on(s, sep);
        lemma_join_of_split(x, sep);
        lemma_split_nonempty(x, sep);
        assert(x.push(c) =~= s);
        if c == sep {
            assert(after.drop_last() =~= before);
            assert(join_with(after, sep) =~= x.push(c));
        } else {
            let grown = before.last().push(c);
            assert(after.drop_last() =~= before.drop_last());
            assert(after.last() == grown);
            if before.len() == 1 {
                assert(join_with(after, sep) =~= x.push(c));
            } else {
                let stem = join_with(before.drop_last(), sep) + seq![sep];
                assert(join_with(before, sep) == stem + before.last());
                assert(join_with(after, sep) == stem + grown);
                assert(stem + grown =~= (stem + before.last()).push(c));
            }
        }
    }
}

/// Splitting two texts joined by a separator gives the pieces of the first,
/// then those of the second.
pub proof fn lemma_split_concat(x: Seq<char>, y: Seq<char>, sep: char)
    ensures
        split_on(x + seq![sep] + y, sep) == split_on(x, sep) + split_on(y, sep),
    decreases y.len(),
{
    let whole = x + seq![sep] + y;
    lemma_split_nonempty(x, sep);
    if y.len() == 0 {
        assert(whole.drop_last() =~= x);
        assert(split_on(x, sep).push(Seq::empty()) =~= split_on(x, sep) + seq![Seq::<char>::empty()]);
    } else {
        lemma_split_concat(x, y.drop_last(), sep);
        lemma_split_nonempty(y.drop_last(), sep);
        assert(whole.drop_last() =~= x + seq![sep] + y.drop_last());
        assert(whole.last() == y.last());
        let left = split_on(x, sep);
        let right = split_on(y.drop_last(), sep);
        if y.last() == sep {
            assert((left + right).push(Seq::empty()) =~= left + right.push(Seq::empty()));
        } else {
            assert((left + right).drop_last().push((left + right).last().push(y.last())) =~= left
                + right.drop_last().push(right.last().push(y.last())));
        }
    }
}

/// Pieces that are not empty and hold no separator join to a text that
/// neither starts nor ends with the separator and never has two in a row.
pub proof fn lemma_join_shape(parts: Seq<Seq<char>>, sep: char)
    requires
        parts.len() >= 1,
        forall|i: int| 0 <= i < parts.len() ==> (#[trigger] parts[i]).len() >= 1 && free_of(parts[i], sep),
    ensures
        join_with(parts, sep).len() >= 1,
        join_with(parts, sep)[0] != sep,
        join_with(parts, sep).last() != sep,
        forall|p: int|
            0 <= p && p + 1 < join_with(parts, sep).len() ==> !(#[trigger] join_with(parts, sep)[p]
                == sep && join_with(parts, sep)[p + 1] == sep),
    decreases parts.len(),
{
    let last = parts[parts.len() - 1];
    assert(last.len() >= 1 && free_of(last, sep));
    assert(last[0] != sep && last[last.len() - 1] != sep);
    if parts.len() > 1 {
        let front = parts.drop_last();
        assert forall|i: int| 0 <= i < front.len() implies (#[trigger] front[i]).len() >= 1
            && free_of(front[i], sep) by {
            assert(front[i] == parts[i]);
        }
        lemma_join_shape(front, sep);
        let a = join_with(front, sep);
        let whole = join_with(parts, sep);
        assert(whole == a + seq![sep] + last);
        assert forall|p: int| 0 <= p && p + 1 < whole.len() implies !(#[trigger] whole[p] == sep
            && whole[p + 1] == sep) by {
            if p + 1 < a.len() {
                assert(whole[p] == a[p] && whole[p + 1] == a[p + 1]);
            } else if p + 1 == a.len() {
                assert(whole[p] == a[a.len() - 1]);
            } else if p == a.len() {
                assert(whole[p + 1] == last[0]);
            } else {
                assert(whole[p] == last[p - a.len() - 1]);
            }
        }
        assert(whole[0] == a[0]);
        assert(whole[whole.len() - 1] == last[last.len() - 1]);
    }
}

/// A piece that itself holds one separator joins like its two halves.
pub proof fn lemma_join_halves(parts: Seq<Seq<char>>, k: int, u: Seq<char>, v: Seq<char>, sep: char)
    requires
        0 <= k < parts.len(),
        parts[k] == u + seq![sep] + v,
    ensures
        join_with(parts, sep) == join_with(parts.take(k) + seq![u, v] + parts.skip(k + 1), sep),
    decreases parts.len(),
{
    let wide = parts.take(k) + seq![u, v] + parts.skip(k + 1);
    if k == parts.len() - 1 {
        let front = parts.drop_last();
        assert(wide.drop_last() =~= front.push(u));
        assert(wide.last() == v);
        assert(front.push(u).drop_last() =~= front);
        if front.len() == 0 {
            assert(join_with(front.push(u), sep) == u);
        } else {
            assert(join_with(front.push(u), sep) == join_with(front, sep) + seq![sep] + u);
            assert(join_with(parts, sep) =~= join_with(wide, sep));
        }
    } else {
        let front = parts.drop_last();
        lemma_join_halves(front, k, u, v, sep);
        assert(wide.drop_last() =~= front.take(k) + seq![u, v] + front.skip(k + 1));
        assert(wide.last() == parts.last());
    }
}

/// The decimal digits of `n` as ASCII bytes, without leading zeros.
pub open spec fn decimal_bytes(n: nat) -> Seq<u8>
    decreases n,
{
    if n < 10 {
        seq![(48 + n) as u8]
    } else {
        decimal_bytes(n / 10).push((48 + n % 10) as u8)
    }
}

/// Appends the decimal digits of `n` to `out`.
pub fn push_decimal(out: &mut Vec<u8>, n: u64)
    ensures
        final(out)@ == old(out)@ + decimal_bytes(n as nat),
    decreases n,
{
    if n >= 10 {
        push_decimal(out, n / 10);
    }
    let digit: u8 = (n % 10) as u8;
    out.push(48 + digit);
    proof {
        let before = old(out)@;
        if n >= 10 {
            assert(out@ == (before + decimal_bytes((n / 10) as nat)).push((48 + digit) as u8));
            assert(out@ =~= before + decimal_bytes(n as nat));
        } else {
            assert(out@ =~= before + decimal_bytes(n as nat));
        }
    }
}

/// Appends every byte of `tail` to `out`.
pub fn push_all(out: &mut Vec<u8>, tail: &[u8])
    ensures
        final(out)@ == old(out)@ + tail@,
{
    let mut i: usize = 0;
    while i < tail.len()
        invariant
            i <= tail@.len(),
            out@ == old(out)@ + tail@.take(i as int),
        decreases tail@.len() - i,
    {
        out.push(tail[i]);
        assert(tail@.take(i + 1) =~= tail@.take(i as int).push(tail@[i as int]));
        i = i + 1;
    }
    assert(tail@.take(i as int) =~= tail@);
}

} // verus!
