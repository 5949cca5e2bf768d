//! Ways: the immutable pieces of the physical network, and the text
//! form their identifier lists travel in.
//!
//! A selection of several contiguous ways is passed around as free
//! text holding decimal identifiers; the parser here extracts every
//! maximal digit run, as the panels expect.  A way lookup that fails
//! is answered with the sentinel way, never a panic, so the panels
//! can render an "unknown segment".

use vstd::prelude::*;

verus! {

use vstd::string::StringSliceAdditionalSpecFns;
use crate::codec::{Coord, digits_val, digits_value, is_digit, lemma_digits_val_bound,
    lemma_pow10_19, pow10};
use crate::cost::Tags;

/// One way: an immutable piece of the physical network.
#[derive(Clone, Debug)]
pub struct Way {
    /// The way's identifier.
    pub way_id: i64,
    /// The way's display name, if it has one.
    pub name: Option<String>,
    /// The way's geometry, in fixed-point millionths.
    pub geom: Vec<Coord>,
    /// The node the way starts at.
    pub source: i64,
    /// The node the way ends at.
    pub target: i64,
    /// The way's infrastructure tags.
    pub tags: Tags,
}

impl Way {
    /// The sentinel a caller substitutes when a way lookup fails:
    /// way zero, empty geometry, no tags.
    pub fn sentinel() -> (r: Way)
        ensures
            r.way_id == 0,
            r.name is None,
            r.geom@ == Seq::<Coord>::empty(),
            r.source == 0,
            r.target == 0,
            r.tags == Tags::spec_untagged(),
    {
        Way {
            way_id: 0,
            name: None,
            geom: Vec::new(),
            source: 0,
            target: 0,
            tags: Tags::untagged(),
        }
    }
}

/// The geometries of the ways, concatenated in order.
pub open spec fn spec_concat_geoms(ways: Seq<Way>) -> Seq<Coord>
    decreases ways.len(),
{
    if ways.len() == 0 {
        Seq::empty()
    } else {
        spec_concat_geoms(ways.drop_last()) + ways.last().geom@
    }
}

fn push_coords(out: &mut Vec<Coord>, src: &Vec<Coord>)
    ensures
        final(out)@ == old(out)@ + src@,
{
    let mut i: usize = 0;
    while i < src.len()
        invariant
            0 <= i <= src@.len(),
            out@ == old(out)@ + src@.take(i as int),
        decreases src@.len() - i,
    {
        out.push(src[i]);
        proof {
            assert(old(out)@ + src@.take(i + 1) =~= (old(out)@ + src@.take(i as int)).push(
                src@[i as int]));
        }
        i = i + 1;
    }
    assert(old(out)@ + src@.take(src@.len() as int) =~= old(out)@ + src@);
}

/// Concatenates the geometries of a selection of ways, in order:
/// what a multi-way segment panel draws.
pub fn concat_geometries(ways: &Vec<Way>) -> (r: Vec<Coord>)
    ensures
        r@ == spec_concat_geoms(ways@),
{
    let mut out: Vec<Coord> = Vec::new();
    let mut i: usize = 0;
    while i < ways.len()
        invariant
            0 <= i <= ways@.len(),
            out@ == spec_concat_geoms(ways@.take(i as int)),
        decreases ways@.len() - i,
    {
        proof {
            assert(ways@.take(i + 1).drop_last() =~= ways@.take(i as int));
            assert(ways@.take(i + 1).last() == ways@[i as int]);
        }
        push_coords(&mut out, &ways[i].geom);
        i = i + 1;
    }
    assert(ways@.take(ways@.len() as int) =~= ways@);
    out
}

// ---------------------------------------------------------------------------
// Way identifier lists in free text.
// ---------------------------------------------------------------------------

/// The maximal digit runs of a byte sequence, in order.
pub open spec fn spec_digit_runs(b: Seq<u8>) -> Seq<Seq<u8>>
    decreases b.len(),
{
    if b.len() == 0 {
        Seq::empty()
    } else if !is_digit(b[0]) {
        spec_digit_runs(b.drop_first())
    } else {
        let r = spec_digit_runs(b.drop_first());
        if b.len() > 1 && is_digit(b[1]) {
            seq![seq![b[0]] + r[0]] + r.drop_first()
        } else {
            seq![seq![b[0]]] + r
        }
    }
}

proof fn lemma_digit_runs_head(b: Seq<u8>)
    requires
        b.len() > 0,
        is_digit(b[0]),
    ensures
        spec_digit_runs(b).len() >= 1,
    decreases b.len(),
{
    if b.len() > 1 && is_digit(b[1]) {
        lemma_digit_runs_head(b.drop_first());
    }
}

/// Every digit run is non-empty and all digits.
proof fn lemma_digit_runs_digits(b: Seq<u8>)
    ensures
        forall|k: int|
            0 <= k < spec_digit_runs(b).len() ==> 1 <= (#[trigger] spec_digit_runs(b)[k]).len()
                && forall|t: int|
                0 <= t < spec_digit_runs(b)[k].len() ==> is_digit(
                    #[trigger] spec_digit_runs(b)[k][t],
                ),
    decreases b.len(),
{
    if b.len() == 0 {
    } else if !is_digit(b[0]) {
        lemma_digit_runs_digits(b.drop_first());
    } else {
        lemma_digit_runs_digits(b.drop_first());
        let r = spec_digit_runs(b.drop_first());
        let whole = spec_digit_runs(b);
        if b.len() > 1 && is_digit(b[1]) {
            lemma_digit_runs_head(b.drop_first());
            assert(whole[0] == seq![b[0]] + r[0]);
            assert forall|k: int| 0 <= k < whole.len() implies 1 <= (#[trigger] whole[k]).len()
                && forall|t: int|
                0 <= t < whole[k].len() ==> is_digit(#[trigger] whole[k][t]) by {
                if k == 0 {
                    assert forall|t: int| 0 <= t < whole[0].len() implies is_digit(
                        #[trigger] whole[0][t],
                    ) by {
                        if t == 0 {
                            assert(whole[0][t] == b[0]);
                        } else {
                            assert(whole[0][t] == r[0][t - 1]);
                        }
                    }
                } else {
                    assert(whole[k] == r[k]);
                }
            }
        } else {
            assert(whole[0] == seq![b[0]]);
            assert forall|k: int| 0 <= k < whole.len() implies 1 <= (#[trigger] whole[k]).len()
                && forall|t: int|
                0 <= t < whole[k].len() ==> is_digit(#[trigger] whole[k][t]) by {
                if k > 0 {
                    assert(whole[k] == r[k - 1]);
                }
            }
        }
    }
}

fn digit_runs(b: &[u8]) -> (r: Vec<Vec<u8>>)
    ensures
        r@.map_values(|p: Vec<u8>| p@) == spec_digit_runs(b@),
{
    let mut acc: Vec<Vec<u8>> = Vec::new();
    let mut cur: Vec<u8> = Vec::new();
    let mut i: usize = 0;
    proof {
        assert(b@.skip(0) =~= b@);
    }
    while i < b.len()
        invariant
            0 <= i <= b@.len(),
            ({
                let accv = acc@.map_values(|p: Vec<u8>| p@);
                let rest = spec_digit_runs(b@.skip(i as int));
                if cur@.len() == 0 {
                    spec_digit_runs(b@) =~~= accv + rest
                } else if i < b@.len() && is_digit(b@[i as int]) {
                    rest.len() >= 1 && (spec_digit_runs(b@) =~~= accv + seq![cur@ + rest[0]]
                        + rest.drop_first())
                } else {
                    spec_digit_runs(b@) =~~= accv + seq![cur@] + rest
                }
            }),
        decreases b@.len() - i,
    {
        let ghost t = b@.skip(i as int);
        let ghost rest = spec_digit_runs(t);
        let ghost rest2 = spec_digit_runs(b@.skip(i + 1));
        proof {
            assert(t[0] == b@[i as int]);
            assert(t.drop_first() =~= b@.skip(i + 1));
        }
        let c = b[i];
        if c >= 48 && c <= 57 {
            proof {
                if t.len() > 1 && is_digit(t[1]) {
                    lemma_digit_runs_head(t.drop_first());
                    assert(rest == seq![seq![t[0]] + rest2[0]] + rest2.drop_first());
                } else {
                    assert(rest == seq![seq![t[0]]] + rest2);
                }
            }
            let ghost old_cur = cur@;
            cur.push(c);
            proof {
                let accv = acc@.map_values(|p: Vec<u8>| p@);
                if i + 1 < b@.len() && is_digit(b@[i + 1]) {
                    assert(rest[0] == seq![t[0]] + rest2[0]);
                    assert(rest.drop_first() =~= rest2.drop_first());
                    assert(cur@ + rest2[0] =~= old_cur + rest[0]);
                    assert(spec_digit_runs(b@) =~~= accv + seq![cur@ + rest2[0]]
                        + rest2.drop_first());
                } else {
                    assert(rest[0] == seq![t[0]]);
                    assert(rest.drop_first() =~= rest2);
                    assert(cur@ =~= old_cur + rest[0]);
                    assert(spec_digit_runs(b@) =~~= accv + seq![cur@] + rest2);
                }
            }
        } else {
            proof {
                assert(rest =~~= rest2);
            }
            if cur.len() > 0 {
                let ghost accv = acc@.map_values(|p: Vec<u8>| p@);
                let ghost old_cur = cur@;
                acc.push(cur);
                cur = Vec::new();
                proof {
                    assert(acc@.map_values(|p: Vec<u8>| p@) =~= accv.push(old_cur));
                    assert(spec_digit_runs(b@) =~~= acc@.map_values(|p: Vec<u8>| p@) + rest2);
                }
            }
        }
        i = i + 1;
    }
    proof {
        assert(b@.skip(b@.len() as int) =~= Seq::<u8>::empty());
    }
    if cur.len() > 0 {
        let ghost accv = acc@.map_values(|p: Vec<u8>| p@);
        let ghost old_cur = cur@;
        acc.push(cur);
        proof {
            assert(acc@.map_values(|p: Vec<u8>| p@) =~= accv.push(old_cur));
            assert(acc@.map_values(|p: Vec<u8>| p@) =~~= spec_digit_runs(b@));
        }
    }
    acc
}

/// Longest digit run accepted as a way identifier: eighteen digits
/// always fit the identifier type.
pub const MAX_ID_DIGITS: usize = 18;

/// The identifier values of the digit runs, in order; a run too long
/// for the identifier type is passed over.
pub open spec fn spec_run_ids(runs: Seq<Seq<u8>>) -> Seq<i64>
    decreases runs.len(),
{
    if runs.len() == 0 {
        Seq::empty()
    } else {
        spec_run_ids(runs.drop_last()) + if 1 <= runs.last().len() <= MAX_ID_DIGITS {
            seq![digits_val(runs.last()) as i64]
        } else {
            Seq::empty()
        }
    }
}

/// The way identifiers named in a free text: the value of each
/// maximal digit run, in order.
pub open spec fn spec_way_ids(b: Seq<u8>) -> Seq<i64> {
    spec_run_ids(spec_digit_runs(b))
}

/// Extracts every way identifier named in a free text: each maximal
/// decimal digit run becomes one identifier, in order of appearance.
pub fn parse_way_ids(text: &str) -> (r: Vec<i64>)
    ensures
        r@ == spec_way_ids(text.spec_bytes()),
{
    let b = text.as_bytes();
    let runs = digit_runs(b);
    let ghost runsv = runs@.map_values(|p: Vec<u8>| p@);
    proof {
        lemma_digit_runs_digits(b@);
    }
    let mut out: Vec<i64> = Vec::new();
    let mut k: usize = 0;
    while k < runs.len()
        invariant
            0 <= k <= runs@.len(),
            runsv == runs@.map_values(|p: Vec<u8>| p@),
            runsv == spec_digit_runs(b@),
            forall|k2: int|
                0 <= k2 < runsv.len() ==> 1 <= (#[trigger] runsv[k2]).len() && forall|t: int|
                    0 <= t < runsv[k2].len() ==> is_digit(#[trigger] runsv[k2][t]),
            out@ == spec_run_ids(runsv.take(k as int)),
        decreases runs@.len() - k,
    {
        proof {
            assert(runsv.take(k + 1).drop_last() =~= runsv.take(k as int));
            assert(runsv.take(k + 1).last() == runsv[k as int]);
            assert(runsv[k as int] == runs@[k as int]@);
        }
        if runs[k].len() <= MAX_ID_DIGITS {
            proof {
                lemma_digits_val_bound(runsv[k as int]);
                lemma_pow10_19();
                lemma_pow10_le(runsv[k as int].len() as nat, 18);
            }
            let v = digits_value(runs[k].as_slice());
            out.push(v as i64);
            proof {
                assert(out@ =~= spec_run_ids(runsv.take(k + 1)));
            }
        } else {
            proof {
                assert(out@ =~= spec_run_ids(runsv.take(k + 1)));
            }
        }
        k = k + 1;
    }
    proof {
        assert(runsv.take(runsv.len() as int) =~= runsv);
    }
    out
}

// ---------------------------------------------------------------------------
// Joining way names for display.
// ---------------------------------------------------------------------------

/// The needle occurs somewhere in the haystack; an empty needle
/// always does.
pub open spec fn spec_contains_chars(hay: Seq<char>, needle: Seq<char>) -> bool {
    exists|i: int|
        0 <= i <= hay.len() - needle.len() && #[trigger] hay.subrange(i, i + needle.len())
            == needle
}

/// The joined label after the first `k` names: each present name is
/// appended once after a space, skipped when it already occurs in
/// the accumulated label, and absent names contribute nothing.
pub open spec fn spec_joined_names(names: Seq<Option<String>>, k: int) -> Seq<char>
    decreases k,
{
    if k <= 0 {
        Seq::empty()
    } else {
        let p = spec_joined_names(names, k - 1);
        match names[k - 1] {
            Option::None => p,
            Option::Some(n) => if spec_contains_chars(p, n@) {
                p
            } else {
                p + seq![' '] + n@
            },
        }
    }
}

fn contains_chars(hay: &str, needle: &str) -> (b: bool)
    ensures
        b == spec_contains_chars(hay@, needle@),
{
    let hl = hay.unicode_len();
    let nl = needle.unicode_len();
    if nl > hl {
        return false;
    }
    if nl == 0 {
        proof {
            assert(hay@.subrange(0, 0 + needle@.len() as int) =~= needle@);
            assert(spec_contains_chars(hay@, needle@));
        }
        return true;
    }
    let mut i: usize = 0;
    while i <= hl - nl
        invariant
            hl == hay@.len(),
            nl == needle@.len(),
            1 <= nl <= hl,
            0 <= i <= hl - nl + 1,
            forall|i2: int|
                0 <= i2 < i ==> #[trigger] hay@.subrange(i2, i2 + needle@.len()) != needle@,
        decreases hl - nl - i + 1,
    {
        let mut j: usize = 0;
        let mut matches = true;
        while j < nl && matches
            invariant
                hl == hay@.len(),
                nl == needle@.len(),
                0 <= i <= hl - nl,
                0 <= j <= nl,
                matches ==> forall|t: int| 0 <= t < j ==> hay@[i + t] == needle@[t],
                !matches ==> hay@.subrange(i as int, i + needle@.len()) != needle@,
            decreases nl - j + (if matches {
                1int
            } else {
                0int
            }),
        {
            if hay.get_char(i + j) != needle.get_char(j) {
                proof {
                    assert(hay@.subrange(i as int, i + needle@.len())[j as int] == hay@[i + j]);
                }
                matches = false;
            } else {
                j = j + 1;
            }
        }
        if matches {
            proof {
                assert(hay@.subrange(i as int, i + needle@.len()) =~= needle@);
            }
            return true;
        }
        i = i + 1;
    }
    proof {
        assert forall|i2: int|
            0 <= i2 <= hay@.len() - needle@.len() implies #[trigger] hay@.subrange(
            i2,
            i2 + needle@.len(),
        ) != needle@ by {
            assert(i2 < i);
        }
    }
    false
}

/// Joins the display names of a selection: each name once, in order,
/// separated by spaces, skipping a name already present in the
/// accumulated label and skipping ways with no name at all.
pub fn join_names(names: &Vec<Option<String>>) -> (r: String)
    ensures
        r@ == spec_joined_names(names@, names@.len() as int),
{
    let mut acc = String::new();
    let mut k: usize = 0;
    while k < names.len()
        invariant
            0 <= k <= names@.len(),
            acc@ == spec_joined_names(names@, k as int),
        decreases names@.len() - k,
    {
        match &names[k] {
            Option::Some(n) => {
                if !contains_chars(acc.as_str(), n.as_str()) {
                    acc.append(" ");
                    proof {
                        reveal_strlit(" ");
                        assert(" "@ =~= seq![' ']);
                    }
                    acc.append(n.as_str());
                }
            },
            Option::None => {},
        }
        k = k + 1;
    }
    acc
}

proof fn lemma_pow10_le(a: nat, b: nat)
    requires
        a <= b,
    ensures
        pow10(a) <= pow10(b),
    decreases b,
{
    if a < b {
        lemma_pow10_le(a, (b - 1) as nat);
        lemma_pow10_pos_local((b - 1) as nat);
    }
}

proof fn lemma_pow10_pos_local(w: nat)
    ensures
        pow10(w) >= 1,
    decreases w,
{
    if w > 0 {
        lemma_pow10_pos_local((w - 1) as nat);
    }
}

} // verus!
