//! Parsers for the collaborators' text: simulator position frames and the
//! two bundled CSV datasets, plus the reference-trajectory trimming rule.
//!
//! Numbers are read as fixed-point decimals with `POS_SCALE` sub-units per
//! whole unit; fraction digits beyond the third are dropped.

use vstd::prelude::*;
use crate::{snapshot_ok, snaps_of, trajectory_ok, AgentPos, COORD_LIMIT, SWARM_SIZE};

verus! {

/// Fixed-point sub-units per whole coordinate unit: three decimal places.
pub const POS_SCALE: i64 = 1000;

/// Largest magnitude any parsed number may take.
pub const NUM_LIMIT: i64 = 1_000_000_000_000_000_000;

/// A malformed piece of collaborator text.
#[derive(Clone, Copy, PartialEq, Eq, Structural, Debug)]
pub enum ParseError {
    /// A number is not a plain decimal, or lies outside its allowed range.
    BadNumber,
    /// A frame line does not have the `%! i:_ x:_ y:_` shape, or its agent
    /// index is out of range.
    BadFrame,
    /// A dataset row does not have the expected number of fields.
    BadRow,
    /// The dataset has fewer rows than the configured experiment length.
    TooFewRows,
}

pub open spec fn is_digit(c: u8) -> bool {
    48 <= c <= 57
}

pub open spec fn all_digits(s: Seq<u8>) -> bool {
    forall|j: int| 0 <= j < s.len() ==> is_digit(#[trigger] s[j])
}

/// Value of a digit string, most significant digit first.
pub open spec fn digits_val(s: Seq<u8>) -> int
    decreases s.len(),
{
    if s.len() == 0 {
        0
    } else {
        digits_val(s.drop_last()) * 10 + (s.last() - 48)
    }
}

/// Slot of the first occurrence of `b`, or the length when absent.
pub open spec fn find_byte(s: Seq<u8>, b: u8) -> int
    decreases s.len(),
{
    if s.len() == 0 {
        0
    } else if s[0] == b {
        0
    } else {
        1 + find_byte(s.skip(1), b)
    }
}

pub proof fn lemma_find_byte_char(s: Seq<u8>, b: u8)
    ensures
        0 <= find_byte(s, b) <= s.len(),
        forall|j: int| 0 <= j < find_byte(s, b) ==> s[j] != b,
        find_byte(s, b) < s.len() ==> s[find_byte(s, b)] == b,
    decreases s.len(),
{
    if s.len() > 0 && s[0] != b {
        lemma_find_byte_char(s.skip(1), b);
        assert forall|j: int| 0 <= j < find_byte(s, b) implies s[j] != b by {
            if j > 0 {
                assert(s.skip(1)[j - 1] == s[j]);
            }
        }
    }
}

pub proof fn lemma_find_byte_unique(s: Seq<u8>, b: u8, f: int)
    requires
        0 <= f <= s.len(),
        forall|j: int| 0 <= j < f ==> s[j] != b,
        f < s.len() ==> s[f] == b,
    ensures
        f == find_byte(s, b),
{
    lemma_find_byte_char(s, b);
}

/// Value of the first three fraction digits, padded to thousandths.
pub open spec fn frac3(f: Seq<u8>) -> int {
    if f.len() == 0 {
        0
    } else if f.len() == 1 {
        (f[0] - 48) * 100
    } else if f.len() == 2 {
        digits_val(f.take(2)) * 10
    } else {
        digits_val(f.take(3))
    }
}

/// Shape of an unsigned decimal: digits, optionally a dot and more digits.
pub open spec fn lit_core_ok(s: Seq<u8>) -> bool {
    let d = find_byte(s, 46);
    &&& d >= 1
    &&& all_digits(s.take(d))
    &&& (d == s.len() || (d < s.len() && s.len() - d - 1 >= 1 && all_digits(s.skip(d + 1))))
}

/// Value of an unsigned decimal in `POS_SCALE` sub-units, extra fraction
/// digits dropped.
pub open spec fn lit_core_val(s: Seq<u8>) -> int {
    let d = find_byte(s, 46);
    digits_val(s.take(d)) * 1000 + if d < s.len() {
        frac3(s.skip(d + 1))
    } else {
        0
    }
}

pub proof fn lemma_digits_val_nonneg(s: Seq<u8>)
    requires
        all_digits(s),
    ensures
        digits_val(s) >= 0,
    decreases s.len(),
{
    if s.len() > 0 {
        assert(all_digits(s.drop_last()));
        lemma_digits_val_nonneg(s.drop_last());
    }
}

/// A digit string is worth at least any of its prefixes.
pub proof fn lemma_digits_prefix_le(s: Seq<u8>, m: int)
    requires
        all_digits(s),
        0 <= m <= s.len(),
    ensures
        digits_val(s.take(m)) <= digits_val(s),
    decreases s.len(),
{
    lemma_digits_val_nonneg(s);
    if m < s.len() {
        assert(all_digits(s.drop_last()));
        lemma_digits_val_nonneg(s.drop_last());
        lemma_digits_prefix_le(s.drop_last(), m);
        assert(s.drop_last().take(m) =~= s.take(m));
    } else {
        assert(s.take(m) =~= s);
    }
}

/// Shape of a signed decimal literal.
pub open spec fn is_fixed_lit(s: Seq<u8>) -> bool {
    s.len() >= 1 && if s[0] == 45 {
        lit_core_ok(s.skip(1))
    } else {
        lit_core_ok(s)
    }
}

/// Whether the literal's whole part fits the parser's accumulator.
pub open spec fn lit_small(s: Seq<u8>) -> bool {
    let c = if s.len() >= 1 && s[0] == 45 {
        s.skip(1)
    } else {
        s
    };
    digits_val(c.take(find_byte(c, 46))) <= 999_999_999_999_999
}

/// Value of a signed decimal literal in `POS_SCALE` sub-units; the
/// magnitude is truncated, so the sign applies to the dropped digits too.
pub open spec fn lit_val(s: Seq<u8>) -> int {
    if s.len() >= 1 && s[0] == 45 {
        -lit_core_val(s.skip(1))
    } else {
        lit_core_val(s)
    }
}

/// Under a well-shaped core, the dot cannot sit inside a scanned run of
/// digits, so the whole part is worth at least that run.
pub proof fn lemma_whole_part_at_least(c: Seq<u8>, m: int)
    requires
        lit_core_ok(c),
        0 <= m <= c.len(),
        all_digits(c.take(m)),
    ensures
        m <= find_byte(c, 46),
        digits_val(c.take(find_byte(c, 46))) >= digits_val(c.take(m)),
{
    lemma_find_byte_char(c, 46);
    let d = find_byte(c, 46);
    if d < m {
        assert(is_digit(c.take(m)[d]));
        assert(c[d] == 46);
    }
    assert(c.take(d).take(m) =~= c.take(m));
    lemma_digits_prefix_le(c.take(d), m);
}

/// A literal the fixed-point reader accepts at the given magnitude limit:
/// well-shaped, whole part within the accumulator, value in range.
pub open spec fn fixed_ok(s: Seq<u8>, limit: int) -> bool {
    &&& is_fixed_lit(s)
    &&& lit_small(s)
    &&& -limit <= lit_val(s) <= limit
}

/// A run of digits cannot contain the space that ends a token, so the
/// token is worth at least the run.
pub proof fn lemma_digit_run_le(c: Seq<u8>, m: int)
    requires
        0 <= m <= c.len(),
        all_digits(c.take(m)),
        all_digits(c.take(find_byte(c, 32))),
    ensures
        m <= find_byte(c, 32),
        digits_val(c.take(find_byte(c, 32))) >= digits_val(c.take(m)),
{
    lemma_find_byte_char(c, 32);
    let d = find_byte(c, 32);
    if d < m {
        assert(is_digit(c.take(m)[d]));
        assert(c[d] == 32);
    }
    assert(c.take(d).take(m) =~= c.take(m));
    lemma_digits_prefix_le(c.take(d), m);
}

/// Reads the decimal literal in `v[lo..hi]` as a fixed-point value of at
/// most `limit` magnitude. What is returned is exactly the literal's value,
/// and exactly the well-shaped, in-range literals are accepted.
pub fn parse_fixed(v: &Vec<u8>, lo: usize, hi: usize, limit: i64) -> (r: Result<i64, ParseError>)
    requires
        lo <= hi <= v@.len(),
        0 < limit <= NUM_LIMIT,
    ensures
        r matches Ok(x) ==> {
            &&& is_fixed_lit(v@.subrange(lo as int, hi as int))
            &&& x == lit_val(v@.subrange(lo as int, hi as int))
            &&& -limit <= x <= limit
        },
        r is Ok <==> fixed_ok(v@.subrange(lo as int, hi as int), limit as int),
        r is Err ==> r == Result::<i64, ParseError>::Err(ParseError::BadNumber),
{
    let ghost whole = v@.subrange(lo as int, hi as int);
    if lo >= hi {
        return Err(ParseError::BadNumber);
    }
    let neg = v[lo] == 45;
    let j0 = if neg { lo + 1 } else { lo };
    let ghost core = v@.subrange(j0 as int, hi as int);
    proof {
        if neg {
            assert(whole[0] == 45);
            assert(whole.skip(1) =~= core);
        } else {
            assert(whole[0] == v@[lo as int] && whole[0] != 45);
            assert(whole =~= core);
        }
    }
    let mut j = j0;
    let mut acc: i64 = 0;
    while j < hi && 48 <= v[j] && v[j] <= 57
        invariant
            lo <= j0 <= j <= hi <= v@.len(),
            core == v@.subrange(j0 as int, hi as int),
            whole == v@.subrange(lo as int, hi as int),
            whole.len() >= 1,
            neg ==> whole[0] == 45 && whole.skip(1) == core,
            !neg ==> whole[0] != 45 && whole == core,
            all_digits(core.take(j - j0)),
            acc == digits_val(core.take(j - j0)),
            0 <= acc <= 9_999_999_999_999_999,
        decreases hi - j,
    {
        if acc > 999_999_999_999_999 {
            proof {
                if lit_core_ok(core) {
                    lemma_whole_part_at_least(core, j - j0);
                }
            }
            return Err(ParseError::BadNumber);
        }
        let d = (v[j] - 48) as i64;
        proof {
            assert(core.take(j - j0 + 1).drop_last() =~= core.take(j - j0));
            assert(core.take(j - j0 + 1).last() == v@[j as int]);
        }
        acc = acc * 10 + d;
        j = j + 1;
    }
    if j == j0 {
        // no digits at all
        proof {
            if lit_core_ok(core) {
                lemma_find_byte_char(core, 46);
                assert(core.len() > 0);
                assert(is_digit(core.take(find_byte(core, 46))[0]));
            }
        }
        return Err(ParseError::BadNumber);
    }
    if acc > 999_999_999_999_999 {
        proof {
            if lit_core_ok(core) {
                lemma_whole_part_at_least(core, j - j0);
            }
        }
        return Err(ParseError::BadNumber);
    }
    let ghost dpos = (j - j0) as int;
    let mut value: i64 = 0;
    proof {
        assert forall|t: int| 0 <= t < dpos implies core[t] != 46 by {
            assert(core.take(dpos)[t] == core[t]);
            assert(is_digit(core.take(dpos)[t]));
        }
    }
    if j == hi {
        proof {
            lemma_find_byte_unique(core, 46, dpos);
            assert(core.take(dpos) =~= core);
        }
        value = acc * 1000;
    } else {
        if v[j] != 46 {
            proof {
                if lit_core_ok(core) {
                    lemma_whole_part_at_least(core, dpos);
                    lemma_find_byte_char(core, 46);
                    let d = find_byte(core, 46);
                    if d > dpos {
                        assert(is_digit(core.take(d)[dpos]));
                    }
                }
            }
            return Err(ParseError::BadNumber);
        }
        proof {
            assert(core[dpos] == v@[j as int]);
            lemma_find_byte_unique(core, 46, dpos);
        }
        // fraction digits
        let fs = j + 1;
        let ghost fseq = core.skip(dpos + 1);
        proof {
            assert(fseq =~= v@.subrange(fs as int, hi as int));
            assert(fseq == core.skip(dpos + 1));
        }
        if fs >= hi {
            // a dot with nothing after it
            return Err(ParseError::BadNumber);
        }
        let mut k = fs;
        let mut f: i64 = 0;
        let mut cnt: usize = 0;
        while k < hi
            invariant
                lo <= j0 <= fs <= k <= hi <= v@.len(),
                fseq == v@.subrange(fs as int, hi as int),
                core == v@.subrange(j0 as int, hi as int),
                whole == v@.subrange(lo as int, hi as int),
                whole.len() >= 1,
                neg ==> whole[0] == 45 && whole.skip(1) == core,
                !neg ==> whole[0] != 45 && whole == core,
                dpos == find_byte(core, 46),
                fs == j0 + dpos + 1,
                fseq == core.skip(dpos + 1),
                all_digits(fseq.take(k - fs)),
                cnt == if k - fs < 3 {
                    k - fs
                } else {
                    3
                },
                f == digits_val(fseq.take(cnt as int)),
                cnt == 0 ==> f == 0,
                cnt == 1 ==> 0 <= f <= 9,
                cnt == 2 ==> 0 <= f <= 99,
                cnt == 3 ==> 0 <= f <= 999,
                0 <= f <= 999,
            decreases hi - k,
        {
            let c = v[k];
            if !(48 <= c && c <= 57) {
                proof {
                    assert(fseq[k - fs] == v@[k as int]);
                }
                return Err(ParseError::BadNumber);
            }
            proof {
                assert(fseq.take(k - fs + 1).drop_last() =~= fseq.take(k - fs));
                assert(fseq.take(k - fs + 1).last() == v@[k as int]);
            }
            if cnt < 3 {
                proof {
                    assert(fseq.take(cnt + 1 as int).drop_last() =~= fseq.take(cnt as int));
                    assert(fseq.take(cnt + 1 as int).last() == v@[k as int]);
                }
                f = f * 10 + ((c - 48) as i64);
                cnt = cnt + 1;
            }
            k = k + 1;
        }
        proof {
            assert(fseq.take(hi - fs as int) =~= fseq);
        }
        let f3 = if cnt == 1 {
            f * 100
        } else if cnt == 2 {
            f * 10
        } else {
            f
        };
        proof {
            assert(fseq.len() >= 1);
            if fseq.len() == 1 {
                assert(fseq.take(1).drop_last() =~= Seq::<u8>::empty());
                assert(fseq.take(1).last() == fseq[0]);
                assert(digits_val(fseq.take(1)) == fseq[0] - 48);
            }
            assert(f3 == frac3(fseq));
        }
        value = acc * 1000 + f3;
    }
    let signed = if neg { -value } else { value };
    proof {
        if neg {
            assert(whole[0] == 45);
            assert(whole.skip(1) =~= core);
        } else {
            assert(whole =~= core);
            assert(whole[0] != 45) by {
                assert(core.take(dpos).len() > 0);
                assert(is_digit(core.take(dpos)[0]));
                assert(core[0] == whole[0]);
            }
        }
        assert(lit_small(whole));
    }
    if signed < -limit || signed > limit {
        return Err(ParseError::BadNumber);
    }
    Ok(signed)
}


/// A fresh snapshot with every agent at the origin.
pub fn empty_snapshot() -> (r: Vec<AgentPos>)
    ensures
        snapshot_ok(r@),
        r@ == Seq::new(SWARM_SIZE as nat, |k: int| AgentPos { x: 0, y: 0 }),
{
    let mut r: Vec<AgentPos> = Vec::new();
    let mut j: usize = 0;
    while j < SWARM_SIZE
        invariant
            0 <= j <= SWARM_SIZE,
            r@.len() == j,
            forall|k: int| 0 <= k < j ==> #[trigger] r@[k] == (AgentPos { x: 0, y: 0 }),
        decreases SWARM_SIZE - j,
    {
        r.push(AgentPos { x: 0, y: 0 });
        j = j + 1;
    }
    proof {
        assert(r@ =~= Seq::new(SWARM_SIZE as nat, |k: int| AgentPos { x: 0, y: 0 }));
    }
    r
}

/// A copy of a snapshot, slot by slot.
pub fn copy_snapshot(s: &Vec<AgentPos>) -> (r: Vec<AgentPos>)
    ensures
        r@ == s@,
{
    let mut r: Vec<AgentPos> = Vec::new();
    let mut j: usize = 0;
    while j < s.len()
        invariant
            0 <= j <= s@.len(),
            r@.len() == j,
            forall|k: int| 0 <= k < j ==> r@[k] == s@[k],
        decreases s@.len() - j,
    {
        r.push(s[j]);
        j = j + 1;
    }
    proof {
        assert(r@ =~= s@);
    }
    r
}

/// The snapshot with slot `i` replaced by `p`.
pub fn snapshot_update(s: &Vec<AgentPos>, i: usize, p: AgentPos) -> (r: Vec<AgentPos>)
    requires
        i < s@.len(),
    ensures
        r@ == s@.update(i as int, p),
{
    let mut r: Vec<AgentPos> = Vec::new();
    let mut j: usize = 0;
    while j < s.len()
        invariant
            i < s@.len(),
            0 <= j <= s@.len(),
            r@.len() == j,
            forall|k: int| 0 <= k < j ==> r@[k] == s@.update(i as int, p)[k],
        decreases s@.len() - j,
    {
        if j == i {
            r.push(p);
        } else {
            r.push(s[j]);
        }
        j = j + 1;
    }
    proof {
        assert(r@ =~= s@.update(i as int, p));
    }
    r
}

/// Deterministic decode of one frame line `%! i:<index> x:<number>
/// y:<number>`: the agent slot and the two coordinate literals, or nothing
/// when the line does not have that shape. Anything after the fourth field
/// is ignored.
pub open spec fn frame_val(l: Seq<u8>) -> Option<(int, int, int)> {
    if l.len() < 5 || !(l[0] == 37 && l[1] == 33 && l[2] == 32 && l[3] == 105 && l[4] == 58) {
        None
    } else {
        let rest = l.skip(5);
        let ie = find_byte(rest, 32);
        let itok = rest.take(ie);
        if !(itok.len() >= 1 && all_digits(itok) && digits_val(itok) < 15) || ie >= rest.len() {
            None
        } else {
            let rest2 = rest.skip(ie + 1);
            if !(rest2.len() >= 3 && rest2[0] == 120 && rest2[1] == 58) {
                None
            } else {
                let xe = 2 + find_byte(rest2.skip(2), 32);
                let xtok = rest2.subrange(2, xe);
                if !fixed_ok(xtok, COORD_LIMIT as int) || xe >= rest2.len() {
                    None
                } else {
                    let rest3 = rest2.skip(xe + 1);
                    if !(rest3.len() >= 3 && rest3[0] == 121 && rest3[1] == 58) {
                        None
                    } else {
                        let ye = 2 + find_byte(rest3.skip(2), 32);
                        let ytok = rest3.subrange(2, ye);
                        if !fixed_ok(ytok, COORD_LIMIT as int) {
                            None
                        } else {
                            Some((digits_val(itok), lit_val(xtok), lit_val(ytok)))
                        }
                    }
                }
            }
        }
    }
}

/// Reads one simulator frame line: the agent slot it addresses and the two
/// coordinates, which are bounded so that every assembled snapshot is
/// well-formed. Exactly the lines `frame_val` decodes are accepted, with
/// exactly the decoded values.
#[verifier::rlimit(100)]
pub fn parse_frame(v: &Vec<u8>, lo: usize, hi: usize) -> (r: Result<
    (usize, i64, i64),
    ParseError,
>)
    requires
        lo <= hi <= v@.len(),
    ensures
        r matches Ok(f) ==> {
            &&& frame_val(v@.subrange(lo as int, hi as int)) == Some(
                (f.0 as int, f.1 as int, f.2 as int),
            )
            &&& f.0 < SWARM_SIZE
            &&& -COORD_LIMIT <= f.1 <= COORD_LIMIT
            &&& -COORD_LIMIT <= f.2 <= COORD_LIMIT
        },
        r is Ok <==> frame_val(v@.subrange(lo as int, hi as int)) is Some,
{
    let ghost l = v@.subrange(lo as int, hi as int);
    if hi - lo < 5 {
        return Err(ParseError::BadFrame);
    }
    if !(v[lo] == 37 && v[lo + 1] == 33 && v[lo + 2] == 32 && v[lo + 3] == 105 && v[lo + 4]
        == 58) {
        proof {
            assert(l[0] == v@[lo as int] && l[1] == v@[lo + 1] && l[2] == v@[lo + 2] && l[3]
                == v@[lo + 3] && l[4] == v@[lo + 4]);
        }
        return Err(ParseError::BadFrame);
    }
    let ghost rest = l.skip(5);
    proof {
        assert(rest =~= v@.subrange(lo + 5 as int, hi as int));
        assert(l[0] == v@[lo as int] && l[1] == v@[lo + 1] && l[2] == v@[lo + 2] && l[3] == v@[lo
            + 3] && l[4] == v@[lo + 4]);
    }
    // agent index digits
    let mut j = lo + 5;
    let mut idx: u64 = 0;
    let mut ndig: usize = 0;
    while j < hi && 48 <= v[j] && v[j] <= 57
        invariant
            lo + 5 <= j <= hi <= v@.len(),
            l == v@.subrange(lo as int, hi as int),
            rest == l.skip(5),
            rest == v@.subrange(lo + 5 as int, hi as int),
            all_digits(rest.take(j - lo - 5)),
            idx == digits_val(rest.take(j - lo - 5)),
            0 <= idx <= 1000,
            ndig == j - lo - 5,
        decreases hi - j,
    {
        if idx >= 100 {
            proof {
                if frame_val(l) is Some {
                    lemma_digit_run_le(rest, j - lo - 5);
                }
            }
            return Err(ParseError::BadFrame);
        }
        proof {
            assert(rest.take(j - lo - 5 + 1).drop_last() =~= rest.take(j - lo - 5));
            assert(rest.take(j - lo - 5 + 1).last() == v@[j as int]);
        }
        idx = idx * 10 + ((v[j] - 48) as u64);
        ndig = ndig + 1;
        j = j + 1;
    }
    if ndig == 0 || idx >= SWARM_SIZE as u64 {
        proof {
            if frame_val(l) is Some {
                lemma_find_byte_char(rest, 32);
                let e = find_byte(rest, 32);
                let m = j - lo - 5;
                lemma_digit_run_le(rest, m);
                if ndig == 0 {
                    // no digit at the front: the token is empty or starts
                    // with a non-digit
                    if e >= 1 {
                        assert(is_digit(rest.take(e)[0]));
                        assert(rest.take(e)[0] == rest[0]);
                        assert(rest[0] == v@[lo + 5]);
                    }
                } else {
                    // the scanned run is the whole token, whose value is
                    // the swarm size or more
                    if e > m {
                        assert(is_digit(rest.take(e)[m]));
                        assert(rest.take(e)[m] == rest[m]);
                        assert(rest[m] == v@[j as int]);
                    }
                    assert(e == m);
                    assert(rest.take(e) =~= rest.take(m));
                }
            }
        }
        return Err(ParseError::BadFrame);
    }
    if j >= hi || v[j] != 32 {
        proof {
            if frame_val(l) is Some {
                lemma_find_byte_char(rest, 32);
                let e = find_byte(rest, 32);
                let m = j - lo - 5;
                lemma_digit_run_le(rest, m);
                if j >= hi {
                    assert(e >= m && m == rest.len());
                } else {
                    if e > m {
                        assert(is_digit(rest.take(e)[m]));
                        assert(rest.take(e)[m] == rest[m]);
                        assert(rest[m] == v@[j as int]);
                    }
                    assert(e == m);
                    assert(rest[e] == v@[j as int]);
                }
            }
        }
        return Err(ParseError::BadFrame);
    }
    let ghost ie = (j - lo - 5) as int;
    proof {
        assert(rest[ie] == v@[j as int]);
        assert forall|t: int| 0 <= t < ie implies rest[t] != 32 by {
            assert(is_digit(rest.take(ie)[t]));
        }
        lemma_find_byte_unique(rest, 32, ie);
    }
    // x token
    let xs = j + 1;
    let ghost rest2 = rest.skip(ie + 1);
    proof {
        assert(rest2 =~= v@.subrange(xs as int, hi as int));
    }
    if hi - xs < 3 || !(v[xs] == 120 && v[xs + 1] == 58) {
        proof {
            if hi - xs >= 2 {
                assert(rest2[0] == v@[xs as int]);
                assert(rest2[1] == v@[xs + 1]);
            }
        }
        return Err(ParseError::BadFrame);
    }
    let mut xe = xs + 2;
    while xe < hi && v[xe] != 32
        invariant
            xs + 2 <= xe <= hi <= v@.len(),
            rest2 == v@.subrange(xs as int, hi as int),
            forall|t: int| xs + 2 <= t < xe ==> v@[t] != 32,
        decreases hi - xe,
    {
        xe = xe + 1;
    }
    proof {
        assert forall|t: int| 0 <= t < xe - xs - 2 implies rest2.skip(2)[t] != 32 by {
            assert(rest2.skip(2)[t] == v@[xs + 2 + t]);
        }
        if xe < hi {
            assert(rest2.skip(2)[xe - xs - 2] == v@[xe as int]);
        }
        lemma_find_byte_unique(rest2.skip(2), 32, xe - xs - 2);
        assert(rest2.subrange(2, xe - xs as int) =~= v@.subrange(xs + 2 as int, xe as int));
    }
    let x = match parse_fixed(v, xs + 2, xe, COORD_LIMIT) {
        Ok(x) => x,
        Err(e) => {
            return Err(e);
        },
    };
    if xe >= hi {
        return Err(ParseError::BadFrame);
    }
    // y token
    let ys = xe + 1;
    let ghost rest3 = rest2.skip(xe - xs as int + 1);
    proof {
        assert(rest3 =~= v@.subrange(ys as int, hi as int));
    }
    if hi - ys < 3 || !(v[ys] == 121 && v[ys + 1] == 58) {
        proof {
            if hi - ys >= 2 {
                assert(rest3[0] == v@[ys as int]);
                assert(rest3[1] == v@[ys + 1]);
            }
        }
        return Err(ParseError::BadFrame);
    }
    let mut ye = ys + 2;
    while ye < hi && v[ye] != 32
        invariant
            ys + 2 <= ye <= hi <= v@.len(),
            rest3 == v@.subrange(ys as int, hi as int),
            forall|t: int| ys + 2 <= t < ye ==> v@[t] != 32,
        decreases hi - ye,
    {
        ye = ye + 1;
    }
    proof {
        assert forall|t: int| 0 <= t < ye - ys - 2 implies rest3.skip(2)[t] != 32 by {
            assert(rest3.skip(2)[t] == v@[ys + 2 + t]);
        }
        if ye < hi {
            assert(rest3.skip(2)[ye - ys - 2] == v@[ye as int]);
        }
        lemma_find_byte_unique(rest3.skip(2), 32, ye - ys - 2);
        assert(rest3.subrange(2, ye - ys as int) =~= v@.subrange(ys + 2 as int, ye as int));
    }
    let y = match parse_fixed(v, ys + 2, ye, COORD_LIMIT) {
        Ok(y) => y,
        Err(e) => {
            return Err(e);
        },
    };
    proof {
        assert(rest.take(ie) =~= v@.subrange(lo + 5 as int, j as int));
        assert(l[0] == v@[lo as int] && l[1] == v@[lo + 1] && l[2] == v@[lo + 2] && l[3] == v@[lo
            + 3] && l[4] == v@[lo + 4]);
    }
    Ok((idx as usize, x, y))
}

/// What one line does to the running snapshot and the collected
/// trajectory: a frame line writes its agent slot and, when that slot is
/// the last one, appends the snapshot; a line without the `%!` marker is
/// ignored; a marker line that does not decode (or whose values are out of
/// range) fails the run.
pub open spec fn line_step(line: Seq<u8>, cur: Seq<AgentPos>, acc: Seq<Seq<AgentPos>>) -> Option<
    (Seq<AgentPos>, Seq<Seq<AgentPos>>),
> {
    if line.len() >= 2 && line[0] == 37 && line[1] == 33 {
        match frame_val(line) {
            Some(f) => {
                if 0 <= f.0 < SWARM_SIZE && -COORD_LIMIT <= f.1 <= COORD_LIMIT && -COORD_LIMIT
                    <= f.2 <= COORD_LIMIT {
                    let cur2 = cur.update(f.0, AgentPos { x: f.1 as i64, y: f.2 as i64 });
                    Some(
                        (
                            cur2,
                            if f.0 == SWARM_SIZE - 1 {
                                acc.push(cur2)
                            } else {
                                acc
                            },
                        ),
                    )
                } else {
                    None
                }
            },
            None => None,
        }
    } else {
        Some((cur, acc))
    }
}

/// Line-by-line assembly of a trajectory from simulator output.
pub open spec fn spec_parse_at(
    b: Seq<u8>,
    cur: Seq<AgentPos>,
    acc: Seq<Seq<AgentPos>>,
) -> Option<Seq<Seq<AgentPos>>>
    decreases b.len(),
{
    let e = find_byte(b, 10);
    match line_step(b.take(e), cur, acc) {
        None => None,
        Some(st) => {
            if 0 <= e < b.len() {
                spec_parse_at(b.skip(e + 1), st.0, st.1)
            } else {
                Some(st.1)
            }
        },
    }
}

/// The trajectory that a simulator output denotes, starting from a
/// snapshot with every agent at the origin.
pub open spec fn spec_parse(b: Seq<u8>) -> Option<Seq<Seq<AgentPos>>> {
    spec_parse_at(
        b,
        Seq::new(SWARM_SIZE as nat, |k: int| AgentPos { x: 0, y: 0 }),
        Seq::empty(),
    )
}

/// Assembles a trajectory from the simulator's standard output: frame
/// lines update a running snapshot in place, and the snapshot is appended
/// the moment its last agent slot is written; other lines are ignored, and
/// one malformed frame line fails the whole run. Exactly the outputs
/// `spec_parse` assembles are accepted, with exactly that assembly, and
/// every snapshot of it is well-formed.
#[verifier::rlimit(60)]
pub fn parse_trajectory(out: &Vec<u8>) -> (r: Result<Vec<Vec<AgentPos>>, ParseError>)
    requires
        out@.len() < usize::MAX,
    ensures
        r matches Ok(t) ==> {
            &&& trajectory_ok(snaps_of(t@))
            &&& spec_parse(out@) == Some(snaps_of(t@))
        },
        r is Ok <==> spec_parse(out@) is Some,
{
    let n = out.len();
    let mut cur = empty_snapshot();
    let mut res: Vec<Vec<AgentPos>> = Vec::new();
    let mut ls: usize = 0;
    let ghost total = spec_parse(out@);
    proof {
        assert(out@.subrange(0, n as int) =~= out@);
        assert(snaps_of(res@) =~= Seq::<Seq<AgentPos>>::empty());
    }
    while ls <= n
        invariant
            n == out@.len(),
            n < usize::MAX,
            0 <= ls <= n + 1,
            snapshot_ok(cur@),
            forall|k: int| 0 <= k < res@.len() ==> snapshot_ok(#[trigger] res@[k]@),
            total == spec_parse(out@),
            ls <= n ==> spec_parse_at(out@.subrange(ls as int, n as int), cur@, snaps_of(res@))
                == total,
            ls == n + 1 ==> Some(snaps_of(res@)) == total,
        decreases n + 1 - ls,
    {
        let ghost suffix = out@.subrange(ls as int, n as int);
        let mut le = ls;
        while le < n && out[le] != 10
            invariant
                ls <= le <= n,
                n == out@.len(),
                forall|t: int| ls <= t < le ==> out@[t] != 10,
            decreases n - le,
        {
            le = le + 1;
        }
        proof {
            assert forall|t: int| 0 <= t < le - ls implies suffix[t] != 10 by {
                assert(suffix[t] == out@[ls + t]);
            }
            if le < n {
                assert(suffix[le - ls] == out@[le as int]);
            }
            lemma_find_byte_unique(suffix, 10, le - ls);
            assert(suffix.take(le - ls) =~= out@.subrange(ls as int, le as int));
        }
        let ghost old_cur = cur@;
        let ghost old_acc = snaps_of(res@);
        if le - ls >= 2 && out[ls] == 37 && out[ls + 1] == 33 {
            proof {
                assert(suffix.take(le - ls)[0] == out@[ls as int]);
                assert(suffix.take(le - ls)[1] == out@[ls + 1]);
            }
            let (i, x, y) = match parse_frame(out, ls, le) {
                Ok(f) => f,
                Err(e) => {
                    proof {
                        assert(line_step(suffix.take(le - ls), cur@, snaps_of(res@)) is None);
                        assert(spec_parse_at(suffix, cur@, snaps_of(res@)) is None);
                    }
                    return Err(e);
                },
            };
            cur = snapshot_update(&cur, i, AgentPos { x, y });
            if i == SWARM_SIZE - 1 {
                let snap = copy_snapshot(&cur);
                res.push(snap);
            }
            proof {
                assert(snaps_of(res@) =~= if i == SWARM_SIZE - 1 {
                    old_acc.push(cur@)
                } else {
                    old_acc
                });
                assert(line_step(suffix.take(le - ls), old_cur, old_acc) == Some(
                    (cur@, snaps_of(res@)),
                ));
            }
        } else {
            proof {
                if le - ls >= 2 {
                    assert(suffix.take(le - ls)[0] == out@[ls as int]);
                    assert(suffix.take(le - ls)[1] == out@[ls + 1]);
                }
                assert(line_step(suffix.take(le - ls), old_cur, old_acc) == Some(
                    (cur@, snaps_of(res@)),
                ));
            }
        }
        proof {
            if le < n {
                assert(suffix.skip(le - ls + 1) =~= out@.subrange(le + 1 as int, n as int));
            }
        }
        ls = le + 1;
    }
    proof {
        assert forall|k: int| 0 <= k < snaps_of(res@).len() implies snapshot_ok(
            #[trigger] snaps_of(res@)[k],
        ) by {
            assert(snaps_of(res@)[k] == res@[k]@);
        }
    }
    Ok(res)
}


pub open spec fn is_blank_byte(c: u8) -> bool {
    c == 32 || c == 9 || c == 13
}

/// The sequence without its leading blanks.
pub open spec fn lstrip(s: Seq<u8>) -> Seq<u8>
    decreases s.len(),
{
    if s.len() > 0 && is_blank_byte(s[0]) {
        lstrip(s.skip(1))
    } else {
        s
    }
}

/// The sequence without its trailing blanks.
pub open spec fn rstrip(s: Seq<u8>) -> Seq<u8>
    decreases s.len(),
{
    if s.len() > 0 && is_blank_byte(s.last()) {
        rstrip(s.drop_last())
    } else {
        s
    }
}

/// The sequence without blanks on either side.
pub open spec fn trimmed(s: Seq<u8>) -> Seq<u8> {
    rstrip(lstrip(s))
}

pub proof fn lemma_lstrip_at(s: Seq<u8>, m: int)
    requires
        0 <= m <= s.len(),
        forall|t: int| 0 <= t < m ==> is_blank_byte(#[trigger] s[t]),
        m < s.len() ==> !is_blank_byte(s[m]),
    ensures
        lstrip(s) == s.skip(m),
    decreases m,
{
    if m == 0 {
        assert(s.skip(0) =~= s);
    } else {
        lemma_lstrip_at(s.skip(1), m - 1);
        assert(s.skip(1).skip(m - 1) =~= s.skip(m));
    }
}

pub proof fn lemma_rstrip_at(s: Seq<u8>, m: int)
    requires
        0 <= m <= s.len(),
        forall|t: int| m <= t < s.len() ==> is_blank_byte(#[trigger] s[t]),
        m > 0 ==> !is_blank_byte(s[m - 1]),
    ensures
        rstrip(s) == s.take(m),
    decreases s.len() - m,
{
    if m == s.len() {
        assert(s.take(m) =~= s);
    } else {
        lemma_rstrip_at(s.drop_last(), m);
        assert(s.drop_last().take(m) =~= s.take(m));
    }
}

/// The values a comma-separated row denotes: each field is trimmed of
/// blanks and read as a decimal literal bounded by `limit`; one bad field
/// spoils the row.
pub open spec fn row_vals(b: Seq<u8>, limit: int) -> Option<Seq<int>>
    decreases b.len(),
{
    let e = find_byte(b, 44);
    let f = trimmed(b.take(e));
    if !(is_fixed_lit(f) && lit_small(f) && -limit <= lit_val(f) <= limit) {
        None
    } else if 0 <= e < b.len() {
        match row_vals(b.skip(e + 1), limit) {
            None => None,
            Some(vs) => Some(seq![lit_val(f)] + vs),
        }
    } else {
        Some(seq![lit_val(f)])
    }
}

/// Reads one comma-separated row of numbers, each trimmed of surrounding
/// blanks and bounded by `limit`; the row must have exactly `expected`
/// fields. Exactly the rows `row_vals` accepts at that arity are accepted,
/// holding exactly the values it denotes.
#[verifier::rlimit(80)]
pub fn parse_csv_row(v: &Vec<u8>, lo: usize, hi: usize, expected: usize, limit: i64) -> (r: Result<
    Vec<i64>,
    ParseError,
>)
    requires
        lo <= hi <= v@.len(),
        0 < limit <= NUM_LIMIT,
    ensures
        r matches Ok(vals) ==> {
            &&& vals@.len() == expected
            &&& forall|d: int| 0 <= d < vals@.len() ==> -limit <= #[trigger] vals@[d] <= limit
            &&& row_vals(v@.subrange(lo as int, hi as int), limit as int) == Some(
                crate::ints_of(vals@),
            )
        },
        r is Ok <==> (row_vals(v@.subrange(lo as int, hi as int), limit as int) matches Some(vs)
            && vs.len() == expected),
{
    let ghost whole = v@.subrange(lo as int, hi as int);
    let mut vals: Vec<i64> = Vec::new();
    let mut fs = lo;
    let mut finished = false;
    while !finished
        invariant
            lo <= fs <= hi <= v@.len(),
            0 < limit <= NUM_LIMIT,
            whole == v@.subrange(lo as int, hi as int),
            forall|d: int| 0 <= d < vals@.len() ==> -limit <= #[trigger] vals@[d] <= limit,
            !finished ==> row_vals(whole, limit as int) == (match row_vals(
                v@.subrange(fs as int, hi as int),
                limit as int,
            ) {
                None => None::<Seq<int>>,
                Some(vs) => Some(crate::ints_of(vals@) + vs),
            }),
            finished ==> row_vals(whole, limit as int) == Some(crate::ints_of(vals@)),
        decreases hi - fs + 1, 1int - if finished { 1int } else { 0int },
    {
        let ghost suffix = v@.subrange(fs as int, hi as int);
        let mut fe = fs;
        while fe < hi && v[fe] != 44
            invariant
                fs <= fe <= hi <= v@.len(),
                forall|t: int| fs <= t < fe ==> v@[t] != 44,
            decreases hi - fe,
        {
            fe = fe + 1;
        }
        proof {
            assert forall|t: int| 0 <= t < fe - fs implies suffix[t] != 44 by {
                assert(suffix[t] == v@[fs + t]);
            }
            if fe < hi {
                assert(suffix[fe - fs] == v@[fe as int]);
            }
            lemma_find_byte_unique(suffix, 44, fe - fs);
            assert(suffix.take(fe - fs) =~= v@.subrange(fs as int, fe as int));
        }
        // trim blanks on both sides of the field
        let mut ts = fs;
        while ts < fe && (v[ts] == 32 || v[ts] == 9 || v[ts] == 13)
            invariant
                fs <= ts <= fe <= v@.len(),
                forall|t: int| fs <= t < ts ==> is_blank_byte(#[trigger] v@[t]),
            decreases fe - ts,
        {
            ts = ts + 1;
        }
        let mut te = fe;
        while te > ts && (v[te - 1] == 32 || v[te - 1] == 9 || v[te - 1] == 13)
            invariant
                ts <= te <= fe <= v@.len(),
                forall|t: int| te <= t < fe ==> is_blank_byte(#[trigger] v@[t]),
            decreases te,
        {
            te = te - 1;
        }
        let ghost field = suffix.take(fe - fs);
        proof {
            assert forall|t: int| 0 <= t < ts - fs implies is_blank_byte(#[trigger] field[t]) by {
                assert(field[t] == v@[fs + t]);
            }
            if ts < fe {
                assert(field[ts - fs] == v@[ts as int]);
            }
            lemma_lstrip_at(field, ts - fs);
            let g = field.skip(ts - fs);
            assert(g =~= v@.subrange(ts as int, fe as int));
            assert forall|t: int| te - ts <= t < g.len() implies is_blank_byte(
                #[trigger] g[t],
            ) by {
                assert(g[t] == v@[ts + t]);
            }
            if te > ts {
                assert(g[te - ts - 1] == v@[te - 1]);
            }
            lemma_rstrip_at(g, te - ts);
            assert(g.take(te - ts) =~= v@.subrange(ts as int, te as int));
            assert(trimmed(field) == v@.subrange(ts as int, te as int));
        }
        let x = match parse_fixed(v, ts, te, limit) {
            Ok(x) => x,
            Err(e) => {
                proof {
                    assert(row_vals(suffix, limit as int) is None);
                }
                return Err(e);
            },
        };
        let ghost old_vals = vals@;
        vals.push(x);
        proof {
            assert(crate::ints_of(vals@) =~= crate::ints_of(old_vals).push(x as int));
            if fe < hi {
                assert(suffix.skip(fe - fs + 1) =~= v@.subrange(fe + 1 as int, hi as int));
                let rest = row_vals(v@.subrange(fe + 1 as int, hi as int), limit as int);
                match rest {
                    Some(vs) => {
                        assert(crate::ints_of(old_vals) + (seq![lit_val(trimmed(field))] + vs)
                            =~= crate::ints_of(vals@) + vs);
                    },
                    None => {},
                }
            } else {
                assert(crate::ints_of(old_vals) + seq![lit_val(trimmed(field))] =~= crate::ints_of(
                    vals@,
                ));
            }
        }
        if fe == hi {
            finished = true;
        } else {
            fs = fe + 1;
        }
    }
    if vals.len() != expected {
        return Err(ParseError::BadRow);
    }
    Ok(vals)
}

/// A line with nothing on it but blanks.
pub open spec fn blank_line(l: Seq<u8>) -> bool {
    forall|t: int| 0 <= t < l.len() ==> is_blank_byte(#[trigger] l[t])
}

/// Whether the bytes hold only blanks (spaces, tabs, carriage returns).
pub fn is_blank(v: &Vec<u8>, lo: usize, hi: usize) -> (r: bool)
    requires
        lo <= hi <= v@.len(),
    ensures
        r == blank_line(v@.subrange(lo as int, hi as int)),
{
    let ghost l = v@.subrange(lo as int, hi as int);
    let mut j = lo;
    while j < hi
        invariant
            lo <= j <= hi <= v@.len(),
            l == v@.subrange(lo as int, hi as int),
            forall|t: int| 0 <= t < j - lo ==> is_blank_byte(#[trigger] l[t]),
        decreases hi - j,
    {
        let c = v[j];
        if !(c == 32 || c == 9 || c == 13) {
            proof {
                assert(l[j - lo] == v@[j as int]);
            }
            return false;
        }
        proof {
            assert(l[j - lo] == v@[j as int]);
        }
        j = j + 1;
    }
    true
}

/// Folds a row of `2 * SWARM_SIZE` values into a snapshot: even columns are
/// x coordinates, odd columns y coordinates, two per agent in slot order.
pub fn row_to_snapshot(vals: &Vec<i64>) -> (r: Vec<AgentPos>)
    requires
        vals@.len() == 2 * SWARM_SIZE,
        forall|d: int| 0 <= d < vals@.len() ==> -COORD_LIMIT <= #[trigger] vals@[d] <= COORD_LIMIT,
    ensures
        snapshot_ok(r@),
        forall|m: int|
            0 <= m < SWARM_SIZE ==> #[trigger] r@[m] == (AgentPos {
                x: vals@[2 * m],
                y: vals@[2 * m + 1],
            }),
{
    let mut r: Vec<AgentPos> = Vec::new();
    let mut m: usize = 0;
    while m < SWARM_SIZE
        invariant
            vals@.len() == 2 * SWARM_SIZE,
            forall|d: int| 0 <= d < vals@.len() ==> -COORD_LIMIT <= #[trigger] vals@[d]
                <= COORD_LIMIT,
            0 <= m <= SWARM_SIZE,
            r@.len() == m,
            forall|k: int|
                0 <= k < m ==> #[trigger] r@[k] == (AgentPos {
                    x: vals@[2 * k],
                    y: vals@[2 * k + 1],
                }),
        decreases SWARM_SIZE - m,
    {
        r.push(AgentPos { x: vals[2 * m], y: vals[2 * m + 1] });
        m = m + 1;
    }
    r
}

/// How many rows the trimming removes from the front: the larger half of
/// the surplus.
pub open spec fn spec_front_trim(available: int, target: int) -> int {
    (available - target) / 2 + (available - target) % 2
}

/// Trims a dataset to the target length: with `delta` surplus rows, the
/// front loses `ceil(delta / 2)` and the back `floor(delta / 2)`. Fails
/// exactly when fewer rows than the target are available.
pub fn trim_to_len(rows: Vec<Vec<AgentPos>>, target: usize) -> (r: Result<
    Vec<Vec<AgentPos>>,
    ParseError,
>)
    ensures
        r is Ok <==> rows@.len() >= target,
        r matches Ok(t) ==> {
            &&& t@.len() == target
            &&& forall|i: int|
                0 <= i < target ==> #[trigger] t@[i]@ == rows@[i + spec_front_trim(
                    rows@.len() as int,
                    target as int,
                )]@
        },
        r is Err ==> r == Result::<Vec<Vec<AgentPos>>, ParseError>::Err(ParseError::TooFewRows),
{
    if rows.len() < target {
        return Err(ParseError::TooFewRows);
    }
    let rlen = rows.len();
    let delta = rlen - target;
    let front = delta / 2 + delta % 2;
    proof {
        vstd::arithmetic::div_mod::lemma_fundamental_div_mod(delta as int, 2);
        vstd::arithmetic::div_mod::lemma_mod_bound(delta as int, 2);
        assert(front == spec_front_trim(rows@.len() as int, target as int));
        assert(front + target <= rows@.len());
    }
    let mut t: Vec<Vec<AgentPos>> = Vec::new();
    let mut k: usize = 0;
    while k < target
        invariant
            rlen == rows@.len(),
            front + target <= rlen,
            front == spec_front_trim(rows@.len() as int, target as int),
            0 <= k <= target,
            t@.len() == k,
            forall|i: int| 0 <= i < k ==> #[trigger] t@[i]@ == rows@[i + front]@,
        decreases target - k,
    {
        let snap = copy_snapshot(&rows[front + k]);
        t.push(snap);
        k = k + 1;
    }
    Ok(t)
}

/// The snapshot a row of `2 * SWARM_SIZE` values denotes: two consecutive
/// columns per agent.
pub open spec fn row_snapshot(vs: Seq<int>) -> Seq<AgentPos> {
    Seq::new(
        SWARM_SIZE as nat,
        |m: int| AgentPos { x: vs[2 * m] as i64, y: vs[2 * m + 1] as i64 },
    )
}

/// The data rows a dataset body denotes, line by line: a blank line is
/// skipped, any other line must be a row of `2 * SWARM_SIZE` bounded
/// coordinates and contributes one snapshot.
pub open spec fn data_rows_at(b: Seq<u8>, acc: Seq<Seq<AgentPos>>) -> Option<Seq<Seq<AgentPos>>>
    decreases b.len(),
{
    let e = find_byte(b, 10);
    let line = b.take(e);
    let step: Option<Seq<Seq<AgentPos>>> = if blank_line(line) {
        Some(acc)
    } else {
        match row_vals(line, COORD_LIMIT as int) {
            None => None,
            Some(vs) => {
                if vs.len() == 2 * SWARM_SIZE {
                    Some(acc.push(row_snapshot(vs)))
                } else {
                    None
                }
            },
        }
    };
    match step {
        None => None,
        Some(a2) => {
            if 0 <= e < b.len() {
                data_rows_at(b.skip(e + 1), a2)
            } else {
                Some(a2)
            }
        },
    }
}

/// How often a byte occurs in a sequence.
pub open spec fn count_byte(s: Seq<u8>, b: u8) -> int
    decreases s.len(),
{
    if s.len() == 0 {
        0
    } else {
        count_byte(s.drop_last(), b) + if s.last() == b {
            1int
        } else {
            0int
        }
    }
}

/// The data rows of the whole dataset: everything after the header line.
pub open spec fn data_rows(b: Seq<u8>) -> Option<Seq<Seq<AgentPos>>> {
    let e = find_byte(b, 10);
    if e >= b.len() {
        Some(Seq::empty())
    } else {
        data_rows_at(b.skip(e + 1), Seq::empty())
    }
}

/// Loads the recorded real-swarm dataset: a header row of exactly
/// `2 * SWARM_SIZE` columns, then one row of `2 * SWARM_SIZE` coordinates
/// per time step (blank lines skipped), and trims the result to the
/// experiment length. Exactly the datasets whose header has that arity and
/// whose rows `data_rows` accepts in sufficient number are accepted, with
/// the surplus trimmed front-heavy.
#[verifier::rlimit(60)]
pub fn get_real_bot_data(data: &Vec<u8>, experiment_len: usize) -> (r: Result<
    Vec<Vec<AgentPos>>,
    ParseError,
>)
    requires
        data@.len() < usize::MAX,
    ensures
        r matches Ok(t) ==> {
            &&& t@.len() == experiment_len
            &&& trajectory_ok(snaps_of(t@))
            &&& data_rows(data@) matches Some(rows) && rows.len() >= experiment_len
                && forall|i: int|
                0 <= i < experiment_len ==> #[trigger] t@[i]@ == rows[i + spec_front_trim(
                    rows.len() as int,
                    experiment_len as int,
                )]
        },
        r is Ok <==> {
            &&& count_byte(data@.take(find_byte(data@, 10)), 44) == 2 * SWARM_SIZE - 1
            &&& data_rows(data@) matches Some(rows) && rows.len() >= experiment_len
        },
{
    let n = data.len();
    // scan the header row, counting its column separators
    let mut ls: usize = 0;
    let mut commas: usize = 0;
    while ls < n && data[ls] != 10
        invariant
            0 <= ls <= n,
            n == data@.len(),
            forall|t: int| 0 <= t < ls ==> data@[t] != 10,
            commas == count_byte(data@.take(ls as int), 44),
            0 <= commas <= ls,
        decreases n - ls,
    {
        proof {
            assert(data@.take(ls + 1 as int).drop_last() =~= data@.take(ls as int));
            assert(data@.take(ls + 1 as int).last() == data@[ls as int]);
        }
        if data[ls] == 44 {
            commas = commas + 1;
        }
        ls = ls + 1;
    }
    proof {
        lemma_find_byte_unique(data@, 10, ls as int);
    }
    if commas != 2 * SWARM_SIZE - 1 {
        return Err(ParseError::BadRow);
    }
    let mut rows: Vec<Vec<AgentPos>> = Vec::new();
    proof {
        assert(snaps_of(rows@) =~= Seq::<Seq<AgentPos>>::empty());
    }
    while ls < n
        invariant
            0 <= ls <= n,
            n == data@.len(),
            n < usize::MAX,
            forall|k: int| 0 <= k < rows@.len() ==> snapshot_ok(#[trigger] rows@[k]@),
            ls < n ==> data_rows(data@) == data_rows_at(
                data@.skip(ls + 1 as int),
                snaps_of(rows@),
            ),
            ls == n ==> data_rows(data@) == Some(snaps_of(rows@)),
        decreases n - ls,
    {
        let ghost suffix = data@.skip(ls + 1 as int);
        let rs = ls + 1;
        proof {
            assert(suffix =~= data@.subrange(rs as int, n as int));
        }
        let mut re = rs;
        while re < n && data[re] != 10
            invariant
                rs <= re <= n,
                n == data@.len(),
                forall|t: int| rs <= t < re ==> data@[t] != 10,
            decreases n - re,
        {
            re = re + 1;
        }
        proof {
            assert forall|t: int| 0 <= t < re - rs implies suffix[t] != 10 by {
                assert(suffix[t] == data@[rs + t]);
            }
            if re < n {
                assert(suffix[re - rs] == data@[re as int]);
            }
            lemma_find_byte_unique(suffix, 10, re - rs);
            assert(suffix.take(re - rs) =~= data@.subrange(rs as int, re as int));
        }
        let ghost old_acc = snaps_of(rows@);
        if !is_blank(data, rs, re) {
            let vals = match parse_csv_row(data, rs, re, 2 * SWARM_SIZE, COORD_LIMIT) {
                Ok(vals) => vals,
                Err(e) => {
                    proof {
                        assert(data_rows_at(suffix, snaps_of(rows@)) is None);
                    }
                    return Err(e);
                },
            };
            let snap = row_to_snapshot(&vals);
            rows.push(snap);
            proof {
                assert(snap@ =~= row_snapshot(crate::ints_of(vals@)));
                assert(snaps_of(rows@) =~= old_acc.push(snap@));
            }
        }
        proof {
            if re < n {
                assert(suffix.skip(re - rs + 1) =~= data@.subrange(re + 1 as int, n as int));
            }
        }
        ls = re;
    }
    let ghost all_rows = snaps_of(rows@);
    let trimmed = match trim_to_len(rows, experiment_len) {
        Ok(t) => t,
        Err(e) => {
            proof {
                assert(all_rows.len() < experiment_len);
            }
            return Err(e);
        },
    };
    proof {
        assert forall|k: int| 0 <= k < snaps_of(trimmed@).len() implies snapshot_ok(
            #[trigger] snaps_of(trimmed@)[k],
        ) by {
            assert(snaps_of(trimmed@)[k] == trimmed@[k]@);
        }
    }
    Ok(trimmed)
}

/// The shape the bounds dataset must have: a first line of nine values, a
/// second line of nine values, and nothing but blanks after.
pub open spec fn bounds_ok(b: Seq<u8>) -> bool {
    let e1 = find_byte(b, 10);
    &&& row_vals(b.take(e1), NUM_LIMIT as int) matches Some(mx) && mx.len() == 9
    &&& e1 < b.len()
    &&& {
        let r1 = b.skip(e1 + 1);
        let e2 = find_byte(r1, 10);
        &&& row_vals(r1.take(e2), NUM_LIMIT as int) matches Some(mn) && mn.len() == 9
        &&& (e2 >= r1.len() || blank_line(r1.skip(e2 + 1)))
    }
}

/// Loads the normalization bounds dataset: the first row holds the nine
/// maxima, the second the nine minima; anything after must be blank.
/// Exactly the datasets `bounds_ok` describes are accepted, and the result
/// `(minima, maxima)` holds the two rows' values exactly.
pub fn get_metics_normalization(data: &Vec<u8>) -> (r: Result<(Vec<i64>, Vec<i64>), ParseError>)
    ensures
        r is Ok <==> bounds_ok(data@),
        r matches Ok(b) ==> {
            &&& b.0@.len() == 9
            &&& b.1@.len() == 9
            &&& row_vals(data@.take(find_byte(data@, 10)), NUM_LIMIT as int) == Some(
                crate::ints_of(b.1@),
            )
            &&& row_vals(
                data@.skip(find_byte(data@, 10) + 1).take(
                    find_byte(data@.skip(find_byte(data@, 10) + 1), 10),
                ),
                NUM_LIMIT as int,
            ) == Some(crate::ints_of(b.0@))
        },
{
    let n = data.len();
    let mut le1: usize = 0;
    while le1 < n && data[le1] != 10
        invariant
            0 <= le1 <= n,
            n == data@.len(),
            forall|t: int| 0 <= t < le1 ==> data@[t] != 10,
        decreases n - le1,
    {
        le1 = le1 + 1;
    }
    proof {
        lemma_find_byte_unique(data@, 10, le1 as int);
        assert(data@.take(le1 as int) =~= data@.subrange(0, le1 as int));
    }
    let max = match parse_csv_row(data, 0, le1, 9, NUM_LIMIT) {
        Ok(vals) => vals,
        Err(e) => {
            return Err(e);
        },
    };
    if le1 >= n {
        return Err(ParseError::BadRow);
    }
    let ls2 = le1 + 1;
    let ghost r1 = data@.skip(le1 + 1 as int);
    proof {
        assert(r1 =~= data@.subrange(ls2 as int, n as int));
    }
    let mut le2 = ls2;
    while le2 < n && data[le2] != 10
        invariant
            ls2 <= le2 <= n,
            n == data@.len(),
            forall|t: int| ls2 <= t < le2 ==> data@[t] != 10,
        decreases n - le2,
    {
        le2 = le2 + 1;
    }
    proof {
        assert forall|t: int| 0 <= t < le2 - ls2 implies r1[t] != 10 by {
            assert(r1[t] == data@[ls2 + t]);
        }
        if le2 < n {
            assert(r1[le2 - ls2] == data@[le2 as int]);
        }
        lemma_find_byte_unique(r1, 10, le2 - ls2);
        assert(r1.take(le2 - ls2) =~= data@.subrange(ls2 as int, le2 as int));
    }
    let min = match parse_csv_row(data, ls2, le2, 9, NUM_LIMIT) {
        Ok(vals) => vals,
        Err(e) => {
            return Err(e);
        },
    };
    proof {
        if le2 < n {
            assert(r1.skip(le2 - ls2 + 1) =~= data@.subrange(le2 + 1 as int, n as int));
        }
    }
    if le2 < n {
        if !is_blank(data, le2 + 1, n) {
            return Err(ParseError::BadRow);
        }
    }
    Ok((min, max))
}

/// Decimal digits of an unsigned value, most significant first.
pub fn render_u64(n: u64) -> (r: Vec<u8>)
    ensures
        r@.len() >= 1,
        all_digits(r@),
        digits_val(r@) == n,
    decreases n,
{
    if n < 10 {
        let mut r: Vec<u8> = Vec::new();
        r.push(48 + (n as u8));
        proof {
            reveal_with_fuel(digits_val, 2);
            assert(r@.drop_last() =~= Seq::<u8>::empty());
        }
        r
    } else {
        proof {
            vstd::arithmetic::div_mod::lemma_div_is_strictly_smaller(n as int, 10);
        }
        let mut r = render_u64(n / 10);
        let d = 48 + ((n % 10) as u8);
        let ghost before = r@;
        r.push(d);
        proof {
            assert(r@.drop_last() =~= before);
            vstd::arithmetic::div_mod::lemma_fundamental_div_mod(n as int, 10);
        }
        r
    }
}

/// Decimal rendering of a signed value: a minus sign, then the digits of
/// the magnitude.
pub fn render_i64(n: i64) -> (r: Vec<u8>)
    ensures
        n >= 0 ==> all_digits(r@) && digits_val(r@) == n,
        n < 0 ==> r@.len() >= 2 && r@[0] == 45 && all_digits(r@.skip(1)) && digits_val(r@.skip(1))
            == -n,
{
    if n >= 0 {
        render_u64(n as u64)
    } else {
        let m: u64 = if n == i64::MIN {
            9223372036854775808u64
        } else {
            (-n) as u64
        };
        let digits = render_u64(m);
        let mut r: Vec<u8> = Vec::new();
        r.push(45);
        let mut j: usize = 0;
        while j < digits.len()
            invariant
                digits@.len() >= 1,
                0 <= j <= digits@.len(),
                r@.len() == j + 1,
                r@[0] == 45,
                forall|k: int| 0 <= k < j ==> r@[k + 1] == digits@[k],
            decreases digits@.len() - j,
        {
            r.push(digits[j]);
            j = j + 1;
        }
        proof {
            assert(r@.skip(1) =~= digits@);
        }
        r
    }
}


/// Decimal digit string of a non-negative value, most significant first.
pub open spec fn dec_digits(n: nat) -> Seq<u8>
    decreases n,
{
    if n < 10 {
        seq![(48 + n) as u8]
    } else {
        dec_digits(n / 10).push((48 + n % 10) as u8)
    }
}

/// Decimal rendering of an integer: a minus sign before the magnitude's
/// digits when negative.
pub open spec fn dec_int(n: int) -> Seq<u8> {
    if n >= 0 {
        dec_digits(n as nat)
    } else {
        seq![45u8] + dec_digits((-n) as nat)
    }
}

/// The given sequences, joined with the separator between them.
pub open spec fn joined(parts: Seq<Seq<u8>>, sep: Seq<u8>) -> Seq<u8>
    decreases parts.len(),
{
    if parts.len() == 0 {
        Seq::empty()
    } else if parts.len() == 1 {
        parts[0]
    } else {
        joined(parts.drop_last(), sep) + sep + parts.last()
    }
}

/// Joins byte strings with a separator.
pub fn join_bytes(parts: &Vec<Vec<u8>>, sep: &Vec<u8>) -> (r: Vec<u8>)
    ensures
        r@ == joined(parts@.map_values(|v: Vec<u8>| v@), sep@),
{
    let ghost views = parts@.map_values(|v: Vec<u8>| v@);
    let mut r: Vec<u8> = Vec::new();
    let mut k: usize = 0;
    while k < parts.len()
        invariant
            views == parts@.map_values(|v: Vec<u8>| v@),
            0 <= k <= parts@.len(),
            r@ == joined(views.take(k as int), sep@),
        decreases parts@.len() - k,
    {
        proof {
            assert(views.take(k + 1 as int).drop_last() =~= views.take(k as int));
            assert(views.take(k + 1 as int).last() == views[k as int]);
        }
        if k > 0 {
            r.extend_from_slice(sep.as_slice());
        }
        r.extend_from_slice(parts[k].as_slice());
        proof {
            if k == 0 {
                assert(r@ =~= joined(views.take(1), sep@));
            } else {
                assert(r@ =~= joined(views.take(k as int), sep@) + sep@ + views[k as int]);
            }
        }
        k = k + 1;
    }
    proof {
        assert(views.take(parts@.len() as int) =~= views);
    }
    r
}

/// Decimal digits of an unsigned wide value, most significant first.
pub fn render_u128(n: u128) -> (r: Vec<u8>)
    ensures
        r@ == dec_digits(n as nat),
    decreases n,
{
    if n < 10 {
        let mut r: Vec<u8> = Vec::new();
        r.push(48 + (n as u8));
        proof {
            assert(r@ =~= dec_digits(n as nat));
        }
        r
    } else {
        proof {
            vstd::arithmetic::div_mod::lemma_div_is_strictly_smaller(n as int, 10);
        }
        let mut r = render_u128(n / 10);
        let d = 48 + ((n % 10) as u8);
        let ghost before = r@;
        r.push(d);
        proof {
            vstd::arithmetic::div_mod::lemma_fundamental_div_mod(n as int, 10);
            assert(r@ =~= before.push(d));
        }
        r
    }
}

/// Decimal rendering of a signed wide value (the one value whose magnitude
/// does not fit, the smallest, is excluded).
pub fn render_i128(n: i128) -> (r: Vec<u8>)
    requires
        n != i128::MIN,
    ensures
        r@ == dec_int(n as int),
{
    if n >= 0 {
        render_u128(n as u128)
    } else {
        let digits = render_u128((-n) as u128);
        let mut r: Vec<u8> = Vec::new();
        r.push(45);
        r.extend_from_slice(digits.as_slice());
        proof {
            assert(r@ =~= seq![45u8] + dec_digits((-n) as nat));
        }
        r
    }
}

/// The three text columns of one persisted result row: the controller
/// tokens joined with single spaces, the seeds and the normalized metric
/// each joined with comma and space, numbers in plain decimal.
pub fn save_row(controller_cmd: &Vec<Vec<u8>>, seeds: &Vec<i64>, metric_norm: &Vec<i128>) -> (r: (
    Vec<u8>,
    Vec<u8>,
    Vec<u8>,
))
    requires
        forall|k: int| 0 <= k < metric_norm@.len() ==> #[trigger] metric_norm@[k] != i128::MIN,
    ensures
        r.0@ == joined(controller_cmd@.map_values(|v: Vec<u8>| v@), seq![32u8]),
        r.1@ == joined(
            Seq::new(seeds@.len(), |k: int| dec_int(seeds@[k] as int)),
            seq![44u8, 32u8],
        ),
        r.2@ == joined(
            Seq::new(metric_norm@.len(), |k: int| dec_int(metric_norm@[k] as int)),
            seq![44u8, 32u8],
        ),
{
    let mut space: Vec<u8> = Vec::new();
    space.push(32);
    proof {
        assert(space@ =~= seq![32u8]);
    }
    let cmd_text = join_bytes(controller_cmd, &space);
    let mut sep: Vec<u8> = Vec::new();
    sep.push(44);
    sep.push(32);
    proof {
        assert(sep@ =~= seq![44u8, 32u8]);
    }
    let mut seed_parts: Vec<Vec<u8>> = Vec::new();
    let mut k: usize = 0;
    while k < seeds.len()
        invariant
            0 <= k <= seeds@.len(),
            seed_parts@.len() == k,
            forall|m: int| 0 <= m < k ==> #[trigger] seed_parts@[m]@ == dec_int(seeds@[m] as int),
        decreases seeds@.len() - k,
    {
        let v = seeds[k];
        let rendered = if v >= 0 {
            render_u128(v as u128)
        } else {
            render_i128(v as i128)
        };
        seed_parts.push(rendered);
        k = k + 1;
    }
    let seed_text = join_bytes(&seed_parts, &sep);
    let mut norm_parts: Vec<Vec<u8>> = Vec::new();
    let mut k: usize = 0;
    while k < metric_norm.len()
        invariant
            0 <= k <= metric_norm@.len(),
            norm_parts@.len() == k,
            forall|m: int|
                0 <= m < k ==> #[trigger] norm_parts@[m]@ == dec_int(metric_norm@[m] as int),
            forall|m: int| 0 <= m < metric_norm@.len() ==> #[trigger] metric_norm@[m] != i128::MIN,
        decreases metric_norm@.len() - k,
    {
        norm_parts.push(render_i128(metric_norm[k]));
        k = k + 1;
    }
    let norm_text = join_bytes(&norm_parts, &sep);
    proof {
        assert(seed_parts@.map_values(|v: Vec<u8>| v@) =~= Seq::new(
            seeds@.len(),
            |k: int| dec_int(seeds@[k] as int),
        ));
        assert(norm_parts@.map_values(|v: Vec<u8>| v@) =~= Seq::new(
            metric_norm@.len(),
            |k: int| dec_int(metric_norm@[k] as int),
        ));
    }
    (cmd_text, seed_text, norm_text)
}

} // verus!\n