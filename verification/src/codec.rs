//! Geometry codec: point sequences as text.
//!
//! Coordinates are held in fixed point, as integer millionths of a
//! unit (degrees for geographic points, metres for projected ones), so
//! that encoding and decoding are exact inverses: six fractional
//! digits are always written, and a parsed text with at most six
//! fractional digits loses nothing.
//!
//! The wire grammar is the point list of a well-known-text geometry:
//! pairs `x y` joined by commas, such as `-73.5 45.51,-73.6 45.52`,
//! with an optional `NAME(...)` wrapper around the list.  Decoding a
//! malformed text yields an empty sequence, never an error, so a bad
//! geometry degrades to an empty contribution.

use vstd::prelude::*;

verus! {

use vstd::arithmetic::div_mod::{lemma_breakdown, lemma_fundamental_div_mod};
use vstd::string::StringSliceAdditionalSpecFns;
use vstd::utf8::encode_utf8;

/// Largest coordinate magnitude the codec accepts, in millionths.
/// Generous enough for both geographic degrees and projected metres.
pub const COORD_LIMIT: i64 = 1_000_000_000_000_000;

/// Millionths in one whole coordinate unit.
pub const MICRO: i64 = 1_000_000;

/// A point, in fixed-point millionths.
#[derive(Clone, Copy, PartialEq, Eq, Structural, Debug)]
pub struct Coord {
    pub x: i64,
    pub y: i64,
}

/// A coordinate the codec can render: six fractional digits leave
/// room in an `i64` only up to `COORD_LIMIT`.
pub open spec fn coord_in_range(c: Coord) -> bool {
    -COORD_LIMIT <= c.x <= COORD_LIMIT && -COORD_LIMIT <= c.y <= COORD_LIMIT
}

/// Every point of the sequence is within the codec's range.
pub open spec fn all_in_range(cs: Seq<Coord>) -> bool {
    forall|i: int| 0 <= i < cs.len() ==> coord_in_range(#[trigger] cs[i])
}

// ---------------------------------------------------------------------------
// The printed form, as sequences of ASCII bytes.
// ---------------------------------------------------------------------------

/// Decimal digits of `n`, most significant first; `0` prints as `0`.
pub open spec fn dec_digits(n: nat) -> Seq<u8>
    decreases n,
{
    if n < 10 {
        seq![(48 + n) as u8]
    } else {
        dec_digits(n / 10).push((48 + n % 10) as u8)
    }
}

/// Exactly `w` decimal digits of `n mod 10^w`, leading zeros kept.
pub open spec fn fixed_digits(n: nat, w: nat) -> Seq<u8>
    decreases w,
{
    if w == 0 {
        Seq::empty()
    } else {
        fixed_digits(n / 10, (w - 1) as nat).push((48 + n % 10) as u8)
    }
}

/// A non-negative coordinate of `m` millionths: integer part, a dot,
/// six fractional digits.
pub open spec fn print_mag(m: nat) -> Seq<u8> {
    dec_digits(m / 1000000) + seq![46u8] + fixed_digits(m % 1000000, 6)
}

/// A coordinate, with a leading minus sign when negative.
pub open spec fn print_coord(v: int) -> Seq<u8> {
    if v < 0 {
        seq![45u8] + print_mag((-v) as nat)
    } else {
        print_mag(v as nat)
    }
}

/// One point: the two coordinates joined by a single space.
pub open spec fn print_pair(c: Coord) -> Seq<u8> {
    print_coord(c.x as int) + seq![32u8] + print_coord(c.y as int)
}

/// A point sequence: pairs joined by commas; empty for no points.
pub open spec fn print_pairs(cs: Seq<Coord>) -> Seq<u8>
    decreases cs.len(),
{
    if cs.len() == 0 {
        Seq::empty()
    } else if cs.len() == 1 {
        print_pair(cs[0])
    } else {
        print_pair(cs[0]) + seq![44u8] + print_pairs(cs.drop_first())
    }
}

// ---------------------------------------------------------------------------
// Executable printing.
// ---------------------------------------------------------------------------

fn push_dec(out: &mut Vec<u8>, n: u64)
    ensures
        final(out)@ == old(out)@ + dec_digits(n as nat),
    decreases n,
{
    if n < 10 {
        out.push((48 + n) as u8);
    } else {
        push_dec(out, n / 10);
        out.push((48 + n % 10) as u8);
    }
}

fn push_fixed(out: &mut Vec<u8>, n: u64, w: u64)
    ensures
        final(out)@ == old(out)@ + fixed_digits(n as nat, w as nat),
    decreases w,
{
    if w == 0 {
        assert(final(out)@ =~= old(out)@ + fixed_digits(n as nat, 0));
    } else {
        push_fixed(out, n / 10, w - 1);
        out.push((48 + n % 10) as u8);
    }
}

fn push_mag(out: &mut Vec<u8>, m: u64)
    requires
        m <= COORD_LIMIT,
    ensures
        final(out)@ == old(out)@ + print_mag(m as nat),
{
    push_dec(out, m / 1_000_000);
    out.push(46u8);
    push_fixed(out, m % 1_000_000, 6);
    assert(final(out)@ =~= old(out)@ + print_mag(m as nat));
}

fn push_coord(out: &mut Vec<u8>, v: i64)
    requires
        -COORD_LIMIT <= v <= COORD_LIMIT,
    ensures
        final(out)@ == old(out)@ + print_coord(v as int),
{
    if v < 0 {
        out.push(45u8);
        push_mag(out, (-v) as u64);
        assert(final(out)@ =~= old(out)@ + print_coord(v as int));
    } else {
        push_mag(out, v as u64);
    }
}

/// `print_pairs` of a sequence one point longer appends a comma (after
/// a non-empty prefix) and the new point's text.
proof fn lemma_print_pairs_snoc(cs: Seq<Coord>, c: Coord)
    ensures
        cs.len() == 0 ==> print_pairs(cs.push(c)) == print_pair(c),
        cs.len() > 0 ==> print_pairs(cs.push(c)) == print_pairs(cs) + seq![44u8] + print_pair(c),
    decreases cs.len(),
{
    if cs.len() == 0 {
        assert(cs.push(c)[0] == c);
        assert(print_pairs(cs.push(c)) == print_pair(c));
    } else {
        lemma_print_pairs_snoc(cs.drop_first(), c);
        assert(cs.push(c).drop_first() =~= cs.drop_first().push(c));
        assert(cs.push(c).len() >= 2);
        assert(cs.push(c)[0] == cs[0]);
        if cs.len() == 1 {
            assert(cs.drop_first().len() == 0);
            assert(print_pairs(cs.push(c)) =~= print_pairs(cs) + seq![44u8] + print_pair(c));
        } else {
            assert(print_pairs(cs.push(c)) =~= print_pairs(cs) + seq![44u8] + print_pair(c));
        }
    }
}

fn encode_bytes(pts: &Vec<Coord>) -> (out: Vec<u8>)
    requires
        all_in_range(pts@),
    ensures
        out@ == print_pairs(pts@),
{
    let mut out: Vec<u8> = Vec::new();
    let mut i: usize = 0;
    while i < pts.len()
        invariant
            0 <= i <= pts@.len(),
            all_in_range(pts@),
            out@ == print_pairs(pts@.take(i as int)),
        decreases pts@.len() - i,
    {
        if i > 0 {
            out.push(44u8);
        }
        let ghost prefix = pts@.take(i as int);
        push_coord(&mut out, pts[i].x);
        out.push(32u8);
        push_coord(&mut out, pts[i].y);
        proof {
            lemma_print_pairs_snoc(prefix, pts@[i as int]);
            assert(pts@.take(i + 1) =~= prefix.push(pts@[i as int]));
            if i == 0 {
                assert(out@ =~= print_pairs(pts@.take(i + 1)));
            } else {
                assert(out@ =~= print_pairs(pts@.take(i + 1)));
            }
        }
        i = i + 1;
    }
    assert(pts@.take(pts@.len() as int) =~= pts@);
    out
}

// ---------------------------------------------------------------------------
// Which bytes the printers emit.
// ---------------------------------------------------------------------------

/// A byte the number printers may emit: a digit, a dot or a minus.
pub open spec fn is_num_byte(b: u8) -> bool {
    48 <= b <= 57 || b == 46 || b == 45
}

proof fn lemma_dec_digits_bytes(n: nat)
    ensures
        forall|i: int| 0 <= i < dec_digits(n).len() ==> 48 <= #[trigger] dec_digits(n)[i] <= 57,
        dec_digits(n).len() >= 1,
    decreases n,
{
    if n >= 10 {
        lemma_dec_digits_bytes(n / 10);
    }
}

proof fn lemma_fixed_digits_bytes(n: nat, w: nat)
    ensures
        forall|i: int| 0 <= i < fixed_digits(n, w).len() ==> 48 <= #[trigger] fixed_digits(
            n,
            w,
        )[i] <= 57,
        fixed_digits(n, w).len() == w,
    decreases w,
{
    if w > 0 {
        lemma_fixed_digits_bytes(n / 10, (w - 1) as nat);
    }
}

proof fn lemma_print_coord_bytes(v: int)
    ensures
        forall|i: int| 0 <= i < print_coord(v).len() ==> is_num_byte(#[trigger] print_coord(v)[i]),
        print_coord(v).len() >= 1,
{
    if v < 0 {
        lemma_dec_digits_bytes(((-v) as nat) / 1000000);
        lemma_fixed_digits_bytes(((-v) as nat) % 1000000, 6);
    } else {
        lemma_dec_digits_bytes((v as nat) / 1000000);
        lemma_fixed_digits_bytes((v as nat) % 1000000, 6);
    }
}

/// A byte the pair printer may emit: a number byte or the space.
pub open spec fn is_pair_byte(b: u8) -> bool {
    is_num_byte(b) || b == 32
}

proof fn lemma_print_pair_bytes(c: Coord)
    ensures
        forall|i: int| 0 <= i < print_pair(c).len() ==> is_pair_byte(#[trigger] print_pair(c)[i]),
        print_pair(c).len() >= 1,
{
    lemma_print_coord_bytes(c.x as int);
    lemma_print_coord_bytes(c.y as int);
}

/// A byte the list printer may emit: a pair byte or the comma.
pub open spec fn is_list_byte(b: u8) -> bool {
    is_pair_byte(b) || b == 44
}

proof fn lemma_print_pairs_bytes(cs: Seq<Coord>)
    ensures
        forall|i: int| 0 <= i < print_pairs(cs).len() ==> is_list_byte(#[trigger] print_pairs(cs)[i]),
    decreases cs.len(),
{
    if cs.len() == 1 {
        lemma_print_pair_bytes(cs[0]);
    } else if cs.len() > 1 {
        lemma_print_pair_bytes(cs[0]);
        lemma_print_pairs_bytes(cs.drop_first());
        let head = print_pair(cs[0]);
        let tail = print_pairs(cs.drop_first());
        let whole = head + seq![44u8] + tail;
        assert forall|i: int| 0 <= i < whole.len() implies is_list_byte(#[trigger] whole[i]) by {
            if i < head.len() {
                assert(whole[i] == head[i]);
            } else if i == head.len() {
                assert(whole[i] == 44u8);
            } else {
                assert(whole[i] == tail[i - head.len() - 1]);
            }
        }
        assert(print_pairs(cs) == whole);
    }
}

// ---------------------------------------------------------------------------
// Strings from bytes.
// ---------------------------------------------------------------------------

/// UTF-8 encoding distributes over concatenation of character
/// sequences.
pub proof fn lemma_encode_utf8_concat(a: Seq<char>, b: Seq<char>)
    ensures
        encode_utf8(a + b) == encode_utf8(a) + encode_utf8(b),
    decreases a.len(),
{
    if a.len() == 0 {
        assert(a + b =~= b);
        assert(encode_utf8(a) =~= Seq::<u8>::empty());
        assert(encode_utf8(a) + encode_utf8(b) =~= encode_utf8(b));
    } else {
        lemma_encode_utf8_concat(a.drop_first(), b);
        assert((a + b)[0] == a[0]);
        assert((a + b).drop_first() =~= a.drop_first() + b);
        assert(encode_utf8(a + b) =~= encode_utf8(a) + encode_utf8(b));
    }
}

/// Relies on `String::from_utf8`: for valid UTF-8 input — and any
/// all-ASCII input is valid UTF-8 — it returns a string holding
/// exactly the given bytes.
#[verifier::external_body]
fn string_from_ascii(bytes: Vec<u8>) -> (r: String)
    requires
        forall|i: int| 0 <= i < bytes@.len() ==> #[trigger] bytes@[i] < 128,
    ensures
        encode_utf8(r@) == bytes@,
{
    String::from_utf8(bytes).unwrap_or_default()
}

// ---------------------------------------------------------------------------
// The parsed form: splitting on separators, digit values.
// ---------------------------------------------------------------------------

/// Splits a byte sequence at every occurrence of `sep`.  Always yields
/// at least one piece; `n` separators yield `n + 1` pieces.
pub open spec fn split_at(b: Seq<u8>, sep: u8) -> Seq<Seq<u8>>
    decreases b.len(),
{
    if b.len() == 0 {
        seq![Seq::<u8>::empty()]
    } else if b[0] == sep {
        seq![Seq::<u8>::empty()] + split_at(b.drop_first(), sep)
    } else {
        let rest = split_at(b.drop_first(), sep);
        seq![seq![b[0]] + rest[0]] + rest.drop_first()
    }
}

/// Joins pieces with `sep` between them; the inverse of `split_at`
/// when no piece contains `sep`.
pub open spec fn join_with(ps: Seq<Seq<u8>>, sep: u8) -> Seq<u8>
    decreases ps.len(),
{
    if ps.len() == 0 {
        Seq::empty()
    } else if ps.len() == 1 {
        ps[0]
    } else {
        ps[0] + seq![sep] + join_with(ps.drop_first(), sep)
    }
}

/// `sep` occurs nowhere in `b`.
pub open spec fn sep_free(b: Seq<u8>, sep: u8) -> bool {
    forall|i: int| 0 <= i < b.len() ==> #[trigger] b[i] != sep
}

proof fn lemma_split_at_len(b: Seq<u8>, sep: u8)
    ensures
        split_at(b, sep).len() >= 1,
    decreases b.len(),
{
    if b.len() > 0 {
        lemma_split_at_len(b.drop_first(), sep);
    }
}

/// A sequence free of the separator splits into just itself.
proof fn lemma_split_at_sep_free(b: Seq<u8>, sep: u8)
    requires
        sep_free(b, sep),
    ensures
        split_at(b, sep) == seq![b],
    decreases b.len(),
{
    if b.len() == 0 {
        assert(split_at(b, sep) =~~= seq![b]);
    } else {
        lemma_split_at_sep_free(b.drop_first(), sep);
        assert(seq![b[0]] + b.drop_first() =~= b);
        assert(split_at(b, sep) =~~= seq![b]);
    }
}

/// Splitting `head ++ sep ++ tail` with a separator-free head gives
/// the head and then the split of the tail.
proof fn lemma_split_at_append(head: Seq<u8>, tail: Seq<u8>, sep: u8)
    requires
        sep_free(head, sep),
    ensures
        split_at(head + seq![sep] + tail, sep) == seq![head] + split_at(tail, sep),
    decreases head.len(),
{
    let whole = head + seq![sep] + tail;
    if head.len() == 0 {
        assert(whole[0] == sep);
        assert(whole.drop_first() =~= tail);
        assert(split_at(whole, sep) =~~= seq![head] + split_at(tail, sep));
    } else {
        lemma_split_at_append(head.drop_first(), tail, sep);
        assert(whole[0] == head[0]);
        assert(whole.drop_first() =~= head.drop_first() + seq![sep] + tail);
        let rest = split_at(whole.drop_first(), sep);
        lemma_split_at_len(tail, sep);
        assert(rest == seq![head.drop_first()] + split_at(tail, sep));
        assert(rest[0] == head.drop_first());
        assert(seq![whole[0]] + rest[0] =~= head);
        assert(rest.drop_first() =~= split_at(tail, sep));
        assert(split_at(whole, sep) =~~= seq![head] + split_at(tail, sep));
    }
}

/// Splitting the join of separator-free pieces recovers the pieces.
proof fn lemma_split_join(ps: Seq<Seq<u8>>, sep: u8)
    requires
        ps.len() >= 1,
        forall|i: int| 0 <= i < ps.len() ==> sep_free(#[trigger] ps[i], sep),
    ensures
        split_at(join_with(ps, sep), sep) == ps,
    decreases ps.len(),
{
    if ps.len() == 1 {
        lemma_split_at_sep_free(ps[0], sep);
        assert(split_at(join_with(ps, sep), sep) =~~= ps);
    } else {
        lemma_split_join(ps.drop_first(), sep);
        lemma_split_at_append(ps[0], join_with(ps.drop_first(), sep), sep);
        assert(split_at(join_with(ps, sep), sep) =~~= ps);
    }
}

/// A decimal digit byte.
pub open spec fn is_digit(b: u8) -> bool {
    48 <= b <= 57
}

/// Every byte of `ds` is a digit.
pub open spec fn all_digits(ds: Seq<u8>) -> bool {
    forall|i: int| 0 <= i < ds.len() ==> is_digit(#[trigger] ds[i])
}

/// The numeric value of a digit string, most significant first.
pub open spec fn digits_val(ds: Seq<u8>) -> nat
    decreases ds.len(),
{
    if ds.len() == 0 {
        0
    } else {
        digits_val(ds.drop_last()) * 10 + (ds.last() - 48) as nat
    }
}

/// Ten to the `w`.
pub open spec fn pow10(w: nat) -> nat
    decreases w,
{
    if w == 0 {
        1
    } else {
        10 * pow10((w - 1) as nat)
    }
}

/// Printing a number and reading it back is the identity.
proof fn lemma_digits_val_dec(n: nat)
    ensures
        digits_val(dec_digits(n)) == n,
    decreases n,
{
    if n < 10 {
        assert(dec_digits(n).drop_last() =~= Seq::<u8>::empty());
        assert(dec_digits(n).last() == (48 + n) as u8);
        assert(((48 + n) as u8 - 48) as nat == n);
        assert(digits_val(Seq::<u8>::empty()) == 0);
        assert(digits_val(dec_digits(n)) == digits_val(dec_digits(n).drop_last()) * 10 + (
        dec_digits(n).last() - 48) as nat);
    } else {
        lemma_digits_val_dec(n / 10);
        assert(dec_digits(n).drop_last() =~= dec_digits(n / 10));
        assert(dec_digits(n).last() == (48 + n % 10) as u8);
        assert(((48 + n % 10) as u8 - 48) as nat == n % 10);
        lemma_fundamental_div_mod(n as int, 10);
    }
}

/// Reading back `w` fixed digits of `n` gives `n mod 10^w`.
proof fn lemma_digits_val_fixed(n: nat, w: nat)
    ensures
        digits_val(fixed_digits(n, w)) == n % pow10(w),
    decreases w,
{
    if w == 0 {
        assert(n % 1 == 0) by {
            lemma_fundamental_div_mod(n as int, 1);
        }
    } else {
        lemma_digits_val_fixed(n / 10, (w - 1) as nat);
        assert(fixed_digits(n, w).drop_last() =~= fixed_digits(n / 10, (w - 1) as nat));
        assert(fixed_digits(n, w).last() == (48 + n % 10) as u8);
        let p = pow10((w - 1) as nat);
        assert(pow10(w) == 10 * p);
        lemma_pow10_pos((w - 1) as nat);
        lemma_breakdown(n as int, 10, p as int);
        assert(digits_val(fixed_digits(n, w)) == ((n / 10) % p) * 10 + n % 10);
        assert(n % (10 * p) == 10 * ((n / 10) % p) + n % 10);
    }
}

proof fn lemma_pow10_pos(w: nat)
    ensures
        pow10(w) >= 1,
    decreases w,
{
    if w > 0 {
        lemma_pow10_pos((w - 1) as nat);
    }
}

/// A number below `10^k` prints in at most `k` digits (for `k >= 1`).
proof fn lemma_dec_digits_len(n: nat, k: nat)
    requires
        k >= 1,
        n < pow10(k),
    ensures
        dec_digits(n).len() <= k,
    decreases n,
{
    if n >= 10 {
        assert(k >= 2) by {
            if k == 1 {
                assert(pow10(0nat) == 1);
                assert(pow10(1nat) == 10);
            }
        }
        assert(n / 10 < pow10((k - 1) as nat)) by {
            lemma_pow10_pos((k - 1) as nat);
            assert(pow10(k) == 10 * pow10((k - 1) as nat));
        }
        lemma_dec_digits_len(n / 10, (k - 1) as nat);
    }
}

// ---------------------------------------------------------------------------
// The parser, at the specification level.
// ---------------------------------------------------------------------------

/// An acceptable integer part: one to nineteen digits.
pub open spec fn ok_int_part(ds: Seq<u8>) -> bool {
    1 <= ds.len() <= 19 && all_digits(ds)
}

/// Parses an unsigned coordinate: digits, optionally a dot and one to
/// six fractional digits.  Yields the value in millionths, or nothing
/// for a malformed or out-of-range text.
pub open spec fn parse_mag(t: Seq<u8>) -> Option<nat> {
    let ps = split_at(t, 46);
    if ps.len() == 1 && ok_int_part(ps[0]) {
        let v = digits_val(ps[0]) * 1000000;
        if v <= COORD_LIMIT {
            Some(v)
        } else {
            None
        }
    } else if ps.len() == 2 && ok_int_part(ps[0]) && 1 <= ps[1].len() <= 6 && all_digits(ps[1]) {
        let v = digits_val(ps[0]) * 1000000 + digits_val(ps[1]) * pow10((6 - ps[1].len()) as nat);
        if v <= COORD_LIMIT {
            Some(v)
        } else {
            None
        }
    } else {
        None
    }
}

/// Parses a coordinate, with an optional leading minus sign.
pub open spec fn parse_coord(t: Seq<u8>) -> Option<int> {
    if t.len() > 0 && t[0] == 45 {
        match parse_mag(t.drop_first()) {
            Some(m) => Some(-(m as int)),
            None => None,
        }
    } else {
        match parse_mag(t) {
            Some(m) => Some(m as int),
            None => None,
        }
    }
}

/// Parses one point: two coordinates joined by a single space.
pub open spec fn parse_pair(t: Seq<u8>) -> Option<Coord> {
    let ps = split_at(t, 32);
    if ps.len() == 2 {
        match (parse_coord(ps[0]), parse_coord(ps[1])) {
            (Some(x), Some(y)) => Some(Coord { x: x as i64, y: y as i64 }),
            _ => None,
        }
    } else {
        None
    }
}

/// Parses a comma-joined point list; the empty text is the empty
/// sequence of points.
pub open spec fn parse_pairs(t: Seq<u8>) -> Option<Seq<Coord>> {
    if t.len() == 0 {
        Some(Seq::empty())
    } else {
        let ps = split_at(t, 44);
        if forall|i: int| 0 <= i < ps.len() ==> parse_pair(#[trigger] ps[i]) is Some {
            Some(Seq::new(ps.len(), |i: int| parse_pair(ps[i]).unwrap()))
        } else {
            None
        }
    }
}

/// What remains after the first opening parenthesis, if any.
pub open spec fn after_open(t: Seq<u8>) -> Option<Seq<u8>>
    decreases t.len(),
{
    if t.len() == 0 {
        None
    } else if t[0] == 40 {
        Some(t.drop_first())
    } else {
        after_open(t.drop_first())
    }
}

/// The point list inside an optional `NAME(...)` wrapper: the text
/// after the first `(` with a trailing `)` dropped, or the whole text
/// when there is no parenthesis.
pub open spec fn core_text(t: Seq<u8>) -> Seq<u8> {
    match after_open(t) {
        None => t,
        Some(r) => if r.len() > 0 && r.last() == 41 {
            r.drop_last()
        } else {
            r
        },
    }
}

/// What decoding yields: the parsed point list, or the empty sequence
/// when the text does not parse.
pub open spec fn decoded(t: Seq<u8>) -> Seq<Coord> {
    match parse_pairs(core_text(t)) {
        Some(cs) => cs,
        None => Seq::empty(),
    }
}

// ---------------------------------------------------------------------------
// Round trip: parsing inverts printing.
// ---------------------------------------------------------------------------

proof fn lemma_pow10_values()
    ensures
        pow10(0) == 1,
        pow10(1) == 10,
        pow10(2) == 100,
        pow10(3) == 1000,
        pow10(4) == 10000,
        pow10(5) == 100000,
        pow10(6) == 1000000,
        pow10(10) == 10000000000,
{
    assert(pow10(0) == 1);
    assert(pow10(1) == 10);
    assert(pow10(2) == 100);
    assert(pow10(3) == 1000);
    assert(pow10(4) == 10000);
    assert(pow10(5) == 100000);
    assert(pow10(6) == 1000000);
    assert(pow10(7) == 10000000);
    assert(pow10(8) == 100000000);
    assert(pow10(9) == 1000000000);
    assert(pow10(10) == 10000000000);
}

proof fn lemma_parse_mag_print(m: nat)
    requires
        m <= COORD_LIMIT,
    ensures
        parse_mag(print_mag(m)) == Some(m),
{
    let ip = m / 1000000;
    let fr = m % 1000000;
    let ipd = dec_digits(ip);
    let frd = fixed_digits(fr, 6);
    lemma_dec_digits_bytes(ip);
    lemma_fixed_digits_bytes(fr, 6);
    lemma_pow10_values();
    let pieces = seq![ipd, frd];
    assert(join_with(pieces, 46u8) == print_mag(m)) by {
        assert(pieces.drop_first() =~= seq![frd]);
        assert(join_with(seq![frd], 46u8) == frd);
        assert(ipd + seq![46u8] + frd == print_mag(m));
    }
    lemma_split_join(pieces, 46u8);
    assert(split_at(print_mag(m), 46) == pieces);
    lemma_dec_digits_len(ip, 10);
    assert(ok_int_part(ipd));
    lemma_digits_val_dec(ip);
    lemma_digits_val_fixed(fr, 6);
    assert(fr % pow10(6) == fr) by {
        lemma_fundamental_div_mod(fr as int, 1000000);
        assert(fr < 1000000);
    }
    assert(digits_val(frd) == fr);
    assert((6 - frd.len()) as nat == 0);
    assert(digits_val(ipd) * 1000000 + digits_val(frd) * pow10(0) == ip * 1000000 + fr);
    lemma_fundamental_div_mod(m as int, 1000000);
    assert(ip * 1000000 + fr == m);
}

proof fn lemma_parse_coord_print(v: int)
    requires
        -COORD_LIMIT <= v <= COORD_LIMIT,
    ensures
        parse_coord(print_coord(v)) == Some(v),
{
    if v < 0 {
        let t = print_coord(v);
        assert(t[0] == 45);
        assert(t.drop_first() =~= print_mag((-v) as nat));
        lemma_parse_mag_print((-v) as nat);
    } else {
        let t = print_coord(v);
        lemma_dec_digits_bytes((v as nat) / 1000000);
        assert(t[0] == dec_digits((v as nat) / 1000000)[0]);
        assert(t[0] != 45);
        lemma_parse_mag_print(v as nat);
    }
}

proof fn lemma_parse_pair_print(c: Coord)
    requires
        coord_in_range(c),
    ensures
        parse_pair(print_pair(c)) == Some(c),
{
    let xt = print_coord(c.x as int);
    let yt = print_coord(c.y as int);
    lemma_print_coord_bytes(c.x as int);
    lemma_print_coord_bytes(c.y as int);
    let pieces = seq![xt, yt];
    assert(join_with(pieces, 32u8) == print_pair(c)) by {
        assert(pieces.drop_first() =~= seq![yt]);
        assert(join_with(seq![yt], 32u8) == yt);
        assert(xt + seq![32u8] + yt == print_pair(c));
    }
    lemma_split_join(pieces, 32u8);
    lemma_parse_coord_print(c.x as int);
    lemma_parse_coord_print(c.y as int);
    assert(parse_pair(print_pair(c)) == Some(Coord { x: c.x, y: c.y }));
    assert(Coord { x: c.x, y: c.y } == c);
}

proof fn lemma_print_pairs_join(cs: Seq<Coord>)
    requires
        cs.len() >= 1,
    ensures
        print_pairs(cs) == join_with(cs.map_values(|c: Coord| print_pair(c)), 44u8),
    decreases cs.len(),
{
    let ps = cs.map_values(|c: Coord| print_pair(c));
    if cs.len() == 1 {
        assert(print_pairs(cs) == print_pair(cs[0]));
        assert(ps[0] == print_pair(cs[0]));
    } else {
        lemma_print_pairs_join(cs.drop_first());
        assert(cs.drop_first().map_values(|c: Coord| print_pair(c)) =~= ps.drop_first());
    }
}

proof fn lemma_after_open_none(t: Seq<u8>)
    requires
        forall|i: int| 0 <= i < t.len() ==> #[trigger] t[i] != 40,
    ensures
        after_open(t) is None,
    decreases t.len(),
{
    if t.len() > 0 {
        lemma_after_open_none(t.drop_first());
    }
}

/// Decoding inverts encoding: any in-range point sequence survives a
/// round trip through its printed text unchanged.
pub proof fn lemma_decode_encode(cs: Seq<Coord>)
    requires
        all_in_range(cs),
    ensures
        decoded(print_pairs(cs)) == cs,
{
    let t = print_pairs(cs);
    lemma_print_pairs_bytes(cs);
    lemma_after_open_none(t);
    assert(core_text(t) == t);
    if cs.len() == 0 {
        assert(t.len() == 0);
        assert(decoded(t) =~= cs);
    } else {
        let ps = cs.map_values(|c: Coord| print_pair(c));
        lemma_print_pairs_join(cs);
        assert forall|i: int| 0 <= i < ps.len() implies sep_free(#[trigger] ps[i], 44u8) by {
            lemma_print_pair_bytes(cs[i]);
        }
        lemma_split_join(ps, 44u8);
        assert(split_at(t, 44) == ps);
        assert(t.len() > 0) by {
            lemma_print_pair_bytes(cs[0]);
            if cs.len() == 1 {
                assert(t == print_pair(cs[0]));
            } else {
                assert(t == print_pair(cs[0]) + seq![44u8] + print_pairs(cs.drop_first()));
            }
        }
        assert forall|i: int| 0 <= i < ps.len() implies parse_pair(#[trigger] ps[i]) == Some(
            cs[i],
        ) by {
            lemma_parse_pair_print(cs[i]);
        }
        assert(parse_pairs(t) == Some(Seq::new(ps.len(), |i: int| parse_pair(ps[i]).unwrap())));
        assert(Seq::new(ps.len(), |i: int| parse_pair(ps[i]).unwrap()) =~= cs);
    }
}

// ---------------------------------------------------------------------------
// Executable parsing.
// ---------------------------------------------------------------------------

fn split_bytes(b: &[u8], sep: u8) -> (r: Vec<Vec<u8>>)
    ensures
        r@.map_values(|p: Vec<u8>| p@) == split_at(b@, sep),
{
    let mut acc: Vec<Vec<u8>> = Vec::new();
    let mut cur: Vec<u8> = Vec::new();
    let mut i: usize = 0;
    proof {
        lemma_split_at_len(b@, sep);
        assert(b@.skip(0) =~= b@);
        let rest = split_at(b@, sep);
        assert(seq![cur@ + rest[0]] + rest.drop_first() =~~= rest);
    }
    while i < b.len()
        invariant
            0 <= i <= b@.len(),
            ({
                let rest = split_at(b@.skip(i as int), sep);
                split_at(b@, sep) =~~= acc@.map_values(|p: Vec<u8>| p@) + seq![cur@ + rest[0]]
                    + rest.drop_first()
            }),
        decreases b@.len() - i,
    {
        let ghost t = b@.skip(i as int);
        let ghost rest = split_at(t, sep);
        proof {
            assert(t[0] == b@[i as int]);
            assert(t.drop_first() =~= b@.skip(i + 1));
            lemma_split_at_len(b@.skip(i + 1), sep);
        }
        let byte = b[i];
        if byte == sep {
            let ghost accv = acc@.map_values(|p: Vec<u8>| p@);
            acc.push(cur);
            cur = Vec::new();
            proof {
                let rest2 = split_at(b@.skip(i + 1), sep);
                assert(rest == seq![Seq::<u8>::empty()] + rest2);
                assert(rest[0] =~= Seq::<u8>::empty());
                assert(rest.drop_first() =~= rest2);
                assert(acc@.map_values(|p: Vec<u8>| p@) + seq![cur@ + rest2[0]]
                    + rest2.drop_first() =~~= split_at(b@, sep));
            }
        } else {
            cur.push(byte);
            proof {
                let rest2 = split_at(b@.skip(i + 1), sep);
                assert(rest == seq![seq![t[0]] + rest2[0]] + rest2.drop_first());
                assert(rest[0] == seq![t[0]] + rest2[0]);
                assert(rest.drop_first() =~= rest2.drop_first());
                assert(cur@ + rest2[0] =~= cur@.drop_last() + rest[0]);
                assert(acc@.map_values(|p: Vec<u8>| p@) + seq![cur@ + rest2[0]]
                    + rest2.drop_first() =~~= split_at(b@, sep));
            }
        }
        i = i + 1;
    }
    proof {
        assert(b@.skip(b@.len() as int) =~= Seq::<u8>::empty());
        let rest = split_at(b@.skip(b@.len() as int), sep);
        assert(rest == seq![Seq::<u8>::empty()]);
        assert(rest.drop_first() =~= Seq::<Seq<u8>>::empty());
    }
    let ghost accv = acc@.map_values(|p: Vec<u8>| p@);
    acc.push(cur);
    proof {
        assert(acc@.map_values(|p: Vec<u8>| p@) =~~= split_at(b@, sep));
    }
    acc
}

/// Digit strings of bounded length are strictly below the matching
/// power of ten.
pub(crate) proof fn lemma_digits_val_bound(ds: Seq<u8>)
    requires
        all_digits(ds),
    ensures
        digits_val(ds) < pow10(ds.len()),
    decreases ds.len(),
{
    if ds.len() > 0 {
        assert(all_digits(ds.drop_last())) by {
            assert(forall|i: int|
                0 <= i < ds.len() - 1 ==> #[trigger] ds.drop_last()[i] == ds[i]);
        }
        lemma_digits_val_bound(ds.drop_last());
    }
}

pub(crate) proof fn lemma_pow10_19()
    ensures
        pow10(18) == 1000000000000000000,
        pow10(19) == 10000000000000000000,
{
    lemma_pow10_values();
    assert(pow10(11) == 100000000000);
    assert(pow10(12) == 1000000000000);
    assert(pow10(13) == 10000000000000);
    assert(pow10(14) == 100000000000000);
    assert(pow10(15) == 1000000000000000);
    assert(pow10(16) == 10000000000000000);
    assert(pow10(17) == 100000000000000000);
    assert(pow10(18) == 1000000000000000000);
    assert(pow10(19) == 10000000000000000000);
}

pub(crate) fn digits_value(ds: &[u8]) -> (r: u64)
    requires
        all_digits(ds@),
        ds@.len() <= 19,
    ensures
        r == digits_val(ds@),
{
    proof {
        lemma_pow10_19();
    }
    let mut acc: u64 = 0;
    let mut j: usize = 0;
    while j < ds.len()
        invariant
            0 <= j <= ds@.len() <= 19,
            all_digits(ds@),
            acc == digits_val(ds@.take(j as int)),
            acc < pow10(j as nat),
            pow10(19) == 10000000000000000000,
        decreases ds@.len() - j,
    {
        proof {
            lemma_pow10_mono(j as nat, 18);
            assert(ds@.take(j + 1).drop_last() =~= ds@.take(j as int));
            assert(ds@.take(j + 1).last() == ds@[j as int]);
        }
        let d = ds[j];
        acc = acc * 10 + (d - 48) as u64;
        j = j + 1;
    }
    assert(ds@.take(ds@.len() as int) =~= ds@);
    acc
}

proof fn lemma_pow10_mono(a: nat, b: nat)
    requires
        a <= b,
    ensures
        pow10(a) <= pow10(b),
    decreases b,
{
    if a < b {
        lemma_pow10_mono(a, (b - 1) as nat);
        lemma_pow10_pos((b - 1) as nat);
    }
}

fn check_digits(ds: &[u8]) -> (r: bool)
    ensures
        r == all_digits(ds@),
{
    let mut j: usize = 0;
    while j < ds.len()
        invariant
            0 <= j <= ds@.len(),
            forall|i: int| 0 <= i < j ==> is_digit(#[trigger] ds@[i]),
        decreases ds@.len() - j,
    {
        let d = ds[j];
        if d < 48 || d > 57 {
            return false;
        }
        j = j + 1;
    }
    true
}

fn pow10_exec(w: usize) -> (r: u64)
    requires
        w <= 6,
    ensures
        r == pow10(w as nat),
{
    proof {
        lemma_pow10_values();
    }
    if w == 0 {
        1
    } else if w == 1 {
        10
    } else if w == 2 {
        100
    } else if w == 3 {
        1000
    } else if w == 4 {
        10000
    } else if w == 5 {
        100000
    } else {
        assert(pow10(w as nat) == 1000000);
        1000000
    }
}

proof fn lemma_pow10_mul(a: nat, b: nat)
    ensures
        pow10(a) * pow10(b) == pow10(a + b),
    decreases a,
{
    if a == 0 {
        assert(pow10(0) == 1);
    } else {
        lemma_pow10_mul((a - 1) as nat, b);
        assert(pow10(a) == 10 * pow10((a - 1) as nat));
        assert(pow10((a + b - 1) as nat) == pow10((a - 1) as nat) * pow10(b));
        assert(pow10(a + b) == 10 * pow10((a + b - 1) as nat));
        assert(10 * pow10((a - 1) as nat) * pow10(b) == 10 * (pow10((a - 1) as nat) * pow10(b)))
            by (nonlinear_arith);
    }
}

fn parse_mag_exec(t: &[u8]) -> (r: Option<u64>)
    ensures
        r is Some <==> parse_mag(t@) is Some,
        r is Some ==> r.unwrap() == parse_mag(t@).unwrap() && r.unwrap() <= COORD_LIMIT,
{
    let pieces = split_bytes(t, 46);
    proof {
        lemma_split_at_len(t@, 46);
    }
    if pieces.len() == 1 || pieces.len() == 2 {
        let ipd = &pieces[0];
        if ipd.len() < 1 || ipd.len() > 19 || !check_digits(ipd.as_slice()) {
            return None;
        }
        let ip = digits_value(ipd.as_slice());
        proof {
            lemma_digits_val_bound(ipd@);
        }
        if ip > 1_000_000_000 {
            proof {
                assert(ip * 1000000 > COORD_LIMIT);
                if pieces@.len() == 2 {
                    assert(digits_val(split_at(t@, 46)[0]) * 1000000 + digits_val(
                        split_at(t@, 46)[1],
                    ) * pow10((6 - split_at(t@, 46)[1].len()) as nat) > COORD_LIMIT);
                }
            }
            return None;
        }
        if pieces.len() == 1 {
            let v = ip * 1_000_000;
            if v > COORD_LIMIT as u64 {
                return None;
            }
            return Some(v);
        }
        let frd = &pieces[1];
        if frd.len() < 1 || frd.len() > 6 || !check_digits(frd.as_slice()) {
            return None;
        }
        let fr = digits_value(frd.as_slice());
        let scale = pow10_exec(6 - frd.len());
        proof {
            lemma_digits_val_bound(frd@);
            lemma_pow10_mul(frd@.len() as nat, (6 - frd@.len()) as nat);
            lemma_pow10_values();
            lemma_pow10_pos((6 - frd@.len()) as nat);
            assert(digits_val(frd@) * pow10((6 - frd@.len()) as nat) < pow10(frd@.len() as nat)
                * pow10((6 - frd@.len()) as nat)) by (nonlinear_arith)
                requires
                    digits_val(frd@) < pow10(frd@.len() as nat),
                    pow10((6 - frd@.len()) as nat) >= 1,
            ;
        }
        let v = ip * 1_000_000 + fr * scale;
        if v > COORD_LIMIT as u64 {
            return None;
        }
        Some(v)
    } else {
        None
    }
}

fn parse_coord_exec(t: &[u8]) -> (r: Option<i64>)
    ensures
        r is Some <==> parse_coord(t@) is Some,
        r is Some ==> r.unwrap() as int == parse_coord(t@).unwrap() && -COORD_LIMIT <= r.unwrap()
            <= COORD_LIMIT,
{
    if t.len() > 0 && t[0] == 45 {
        let rest = &t[1..t.len()];
        proof {
            assert(rest@ =~= t@.drop_first());
        }
        match parse_mag_exec(rest) {
            Some(m) => Some(-(m as i64)),
            None => None,
        }
    } else {
        match parse_mag_exec(t) {
            Some(m) => Some(m as i64),
            None => None,
        }
    }
}

fn parse_pair_exec(t: &[u8]) -> (r: Option<Coord>)
    ensures
        r is Some <==> parse_pair(t@) is Some,
        r is Some ==> r.unwrap() == parse_pair(t@).unwrap(),
{
    let pieces = split_bytes(t, 32);
    if pieces.len() != 2 {
        return None;
    }
    let x = match parse_coord_exec(pieces[0].as_slice()) {
        Some(x) => x,
        None => {
            return None;
        },
    };
    let y = match parse_coord_exec(pieces[1].as_slice()) {
        Some(y) => y,
        None => {
            return None;
        },
    };
    Some(Coord { x, y })
}

proof fn lemma_after_open_at(t: Seq<u8>, k: int)
    requires
        0 <= k < t.len(),
        t[k] == 40,
        forall|j: int| 0 <= j < k ==> #[trigger] t[j] != 40,
    ensures
        after_open(t) == Some(t.skip(k + 1)),
    decreases k,
{
    if k == 0 {
        assert(t.drop_first() =~= t.skip(1));
    } else {
        lemma_after_open_at(t.drop_first(), k - 1);
        assert(t.drop_first().skip(k) =~= t.skip(k + 1));
    }
}

/// Extracts the point list from a geometry text: the decoded points,
/// or the empty sequence when the text does not parse.
fn decode_bytes(b: &[u8]) -> (r: Vec<Coord>)
    ensures
        r@ == decoded(b@),
{
    // Find the first opening parenthesis, if any.
    let mut open_at: usize = 0;
    let mut found = false;
    let mut i: usize = 0;
    while i < b.len() && !found
        invariant
            0 <= i <= b@.len(),
            !found ==> forall|j: int| 0 <= j < i ==> #[trigger] b@[j] != 40,
            found ==> 0 <= open_at < b@.len() && b@[open_at as int] == 40 && (forall|j: int|
                0 <= j < open_at ==> #[trigger] b@[j] != 40),
        decreases b@.len() - i + (if found {
            0int
        } else {
            1int
        }),
    {
        if b[i] == 40 {
            found = true;
            open_at = i;
        } else {
            i = i + 1;
        }
    }
    let core: &[u8] = if found {
        proof {
            lemma_after_open_at(b@, open_at as int);
        }
        let rest = &b[open_at + 1..b.len()];
        proof {
            assert(rest@ =~= b@.skip(open_at + 1));
        }
        if rest.len() > 0 && rest[rest.len() - 1] == 41 {
            let trimmed = &b[open_at + 1..b.len() - 1];
            proof {
                assert(trimmed@ =~= b@.skip(open_at + 1).drop_last());
                assert(core_text(b@) == trimmed@);
            }
            trimmed
        } else {
            proof {
                assert(core_text(b@) == rest@);
            }
            rest
        }
    } else {
        proof {
            lemma_after_open_none(b@);
            assert(core_text(b@) == b@);
        }
        b
    };
    // Parse the comma-joined pairs.
    if core.len() == 0 {
        let r: Vec<Coord> = Vec::new();
        assert(r@ =~= decoded(b@));
        return r;
    }
    let pieces = split_bytes(core, 44);
    let ghost ps = split_at(core@, 44);
    let mut out: Vec<Coord> = Vec::new();
    let mut k: usize = 0;
    while k < pieces.len()
        invariant
            0 <= k <= pieces@.len(),
            pieces@.map_values(|p: Vec<u8>| p@) == ps,
            core_text(b@) == core@,
            core@.len() > 0,
            ps == split_at(core@, 44),
            out@.len() == k,
            forall|i: int|
                0 <= i < k ==> parse_pair(#[trigger] ps[i]) is Some && out@[i] == parse_pair(
                    ps[i],
                ).unwrap(),
        decreases pieces@.len() - k,
    {
        match parse_pair_exec(pieces[k].as_slice()) {
            Some(c) => {
                out.push(c);
            },
            None => {
                proof {
                    assert(parse_pair(ps[k as int]) is None);
                    assert(!(forall|i: int|
                        0 <= i < ps.len() ==> parse_pair(#[trigger] ps[i]) is Some));
                    assert(parse_pairs(core@) is None);
                }
                let r: Vec<Coord> = Vec::new();
                assert(r@ =~= decoded(b@));
                return r;
            },
        }
        k = k + 1;
    }
    proof {
        assert(parse_pairs(core@) == Some(Seq::new(ps.len(), |i: int| parse_pair(ps[i]).unwrap())));
        assert(out@ =~= Seq::new(ps.len(), |i: int| parse_pair(ps[i]).unwrap()));
    }
    out
}

/// Extracts the coordinate pairs from a textual point-sequence
/// representation.  An absent input or a malformed text yields the
/// empty sequence, never an error.
pub fn decode(text: Option<&str>) -> (r: Vec<Coord>)
    ensures
        match text {
            Some(t) => r@ == decoded(t.spec_bytes()),
            None => r@ == Seq::<Coord>::empty(),
        },
{
    match text {
        Some(t) => decode_bytes(t.as_bytes()),
        None => Vec::new(),
    }
}

/// Serializes a point sequence to the codec's text form.  A sequence
/// with a point outside the representable range degrades to the empty
/// text rather than failing the request.
pub fn encode(pts: &Vec<Coord>) -> (r: String)
    ensures
        all_in_range(pts@) ==> encode_utf8(r@) == print_pairs(pts@),
        !all_in_range(pts@) ==> encode_utf8(r@) == Seq::<u8>::empty(),
{
    let mut i: usize = 0;
    while i < pts.len()
        invariant
            0 <= i <= pts@.len(),
            forall|j: int| 0 <= j < i ==> coord_in_range(#[trigger] pts@[j]),
        decreases pts@.len() - i,
    {
        let c = pts[i];
        if !(-COORD_LIMIT <= c.x && c.x <= COORD_LIMIT && -COORD_LIMIT <= c.y && c.y
            <= COORD_LIMIT) {
            let r = string_from_ascii(Vec::new());
            return r;
        }
        i = i + 1;
    }
    let out = encode_bytes(pts);
    proof {
        lemma_print_pairs_bytes(pts@);
    }
    string_from_ascii(out)
}

// ---------------------------------------------------------------------------
// The JSON form consumed by the map client.
// ---------------------------------------------------------------------------

/// One point as a JSON array of two numbers.
pub open spec fn print_json_pair(c: Coord) -> Seq<u8> {
    seq![91u8] + print_coord(c.x as int) + seq![44u8] + print_coord(c.y as int) + seq![93u8]
}

/// The comma-joined point arrays, without the outer brackets.
pub open spec fn print_json_list(cs: Seq<Coord>) -> Seq<u8>
    decreases cs.len(),
{
    if cs.len() == 0 {
        Seq::empty()
    } else if cs.len() == 1 {
        print_json_pair(cs[0])
    } else {
        print_json_pair(cs[0]) + seq![44u8] + print_json_list(cs.drop_first())
    }
}

/// A point sequence as a JSON array of two-number arrays.
pub open spec fn print_json(cs: Seq<Coord>) -> Seq<u8> {
    seq![91u8] + print_json_list(cs) + seq![93u8]
}

proof fn lemma_print_json_list_snoc(cs: Seq<Coord>, c: Coord)
    ensures
        cs.len() == 0 ==> print_json_list(cs.push(c)) == print_json_pair(c),
        cs.len() > 0 ==> print_json_list(cs.push(c)) == print_json_list(cs) + seq![44u8]
            + print_json_pair(c),
    decreases cs.len(),
{
    if cs.len() == 0 {
        assert(cs.push(c)[0] == c);
    } else {
        lemma_print_json_list_snoc(cs.drop_first(), c);
        assert(cs.push(c).drop_first() =~= cs.drop_first().push(c));
        assert(cs.push(c)[0] == cs[0]);
        if cs.len() == 1 {
            assert(print_json_list(cs.push(c)) =~= print_json_list(cs) + seq![44u8]
                + print_json_pair(c));
        } else {
            assert(print_json_list(cs.push(c)) =~= print_json_list(cs) + seq![44u8]
                + print_json_pair(c));
        }
    }
}

proof fn lemma_print_json_pair_bytes(c: Coord)
    ensures
        forall|i: int|
            0 <= i < print_json_pair(c).len() ==> #[trigger] print_json_pair(c)[i] < 128,
{
    lemma_print_coord_bytes(c.x as int);
    lemma_print_coord_bytes(c.y as int);
    let xs = print_coord(c.x as int);
    let ys = print_coord(c.y as int);
    let whole = seq![91u8] + xs + seq![44u8] + ys + seq![93u8];
    assert forall|i: int| 0 <= i < whole.len() implies #[trigger] whole[i] < 128 by {
        if 1 <= i < 1 + xs.len() {
            assert(whole[i] == xs[i - 1]);
        } else if 2 + xs.len() <= i < 2 + xs.len() + ys.len() {
            assert(whole[i] == ys[i - 2 - xs.len()]);
        }
    }
}

proof fn lemma_print_json_list_bytes(cs: Seq<Coord>)
    ensures
        forall|i: int|
            0 <= i < print_json_list(cs).len() ==> #[trigger] print_json_list(cs)[i] < 128,
    decreases cs.len(),
{
    if cs.len() == 1 {
        lemma_print_json_pair_bytes(cs[0]);
    } else if cs.len() > 1 {
        lemma_print_json_pair_bytes(cs[0]);
        lemma_print_json_list_bytes(cs.drop_first());
        let head = print_json_pair(cs[0]);
        let tail = print_json_list(cs.drop_first());
        let whole = head + seq![44u8] + tail;
        assert forall|i: int| 0 <= i < whole.len() implies #[trigger] whole[i] < 128 by {
            if i < head.len() {
                assert(whole[i] == head[i]);
            } else if i > head.len() {
                assert(whole[i] == tail[i - head.len() - 1]);
            }
        }
        assert(print_json_list(cs) == whole);
    }
}

fn push_json_pair(out: &mut Vec<u8>, c: Coord)
    requires
        coord_in_range(c),
    ensures
        final(out)@ == old(out)@ + print_json_pair(c),
{
    out.push(91u8);
    push_coord(out, c.x);
    out.push(44u8);
    push_coord(out, c.y);
    out.push(93u8);
    assert(final(out)@ =~= old(out)@ + print_json_pair(c));
}

/// Serializes a point sequence to the JSON array form the map client
/// draws.  A sequence with a point outside the representable range
/// degrades to the empty array `[]` rather than failing the request.
pub fn encode_json(pts: &Vec<Coord>) -> (r: String)
    ensures
        all_in_range(pts@) ==> encode_utf8(r@) == print_json(pts@),
        !all_in_range(pts@) ==> encode_utf8(r@) == print_json(Seq::<Coord>::empty()),
{
    let mut ok = true;
    let mut i: usize = 0;
    while i < pts.len()
        invariant
            0 <= i <= pts@.len(),
            ok == forall|j: int| 0 <= j < i ==> coord_in_range(#[trigger] pts@[j]),
        decreases pts@.len() - i,
    {
        let c = pts[i];
        if !(-COORD_LIMIT <= c.x && c.x <= COORD_LIMIT && -COORD_LIMIT <= c.y && c.y
            <= COORD_LIMIT) {
            ok = false;
        }
        i = i + 1;
    }
    let mut out: Vec<u8> = Vec::new();
    out.push(91u8);
    if ok {
        let mut k: usize = 0;
        while k < pts.len()
            invariant
                0 <= k <= pts@.len(),
                all_in_range(pts@),
                out@ == seq![91u8] + print_json_list(pts@.take(k as int)),
            decreases pts@.len() - k,
        {
            if k > 0 {
                out.push(44u8);
            }
            let ghost prefix = pts@.take(k as int);
            push_json_pair(&mut out, pts[k]);
            proof {
                lemma_print_json_list_snoc(prefix, pts@[k as int]);
                assert(pts@.take(k + 1) =~= prefix.push(pts@[k as int]));
                assert(out@ =~= seq![91u8] + print_json_list(pts@.take(k + 1)));
            }
            k = k + 1;
        }
        assert(pts@.take(pts@.len() as int) =~= pts@);
    }
    out.push(93u8);
    proof {
        if all_in_range(pts@) {
            lemma_print_json_list_bytes(pts@);
            assert(out@ =~= print_json(pts@));
        } else {
            assert(out@ =~= print_json(Seq::<Coord>::empty()));
        }
    }
    string_from_ascii(out)
}

} // verus!
