//! Base-128 variable-length integers, as used by the field-tagged record format.

use vstd::prelude::*;

verus! {

/// The bytes of `v` in base-128, least significant group first, with the
/// high bit set on every byte but the last.
pub open spec fn varint(v: nat) -> Seq<u8>
    decreases v,
{
    if v < 128 {
        seq![v as u8]
    } else {
        seq![(v % 128 + 128) as u8] + varint(v / 128)
    }
}

/// The exclusive upper bound of the value that the bytes from group `k` of a
/// varint on may still carry, so that the whole value fits in 64 bits.
pub open spec fn group_bound(k: nat) -> nat
    decreases 10 - k,
{
    if k >= 9 {
        2
    } else {
        128 * group_bound(k + 1)
    }
}

/// Reads a varint whose group `k` is the first byte of `s`: its value from that
/// group on, and how many bytes it takes. A varint has at most ten groups, and
/// the tenth may only hold 0 or 1.
pub open spec fn parse_varint(s: Seq<u8>, k: nat) -> Option<(nat, nat)>
    decreases 10 - k,
{
    if k >= 10 || s.len() == 0 {
        None
    } else if s[0] < 128 {
        if k == 9 && s[0] > 1 {
            None
        } else {
            Some((s[0] as nat, 1))
        }
    } else {
        match parse_varint(s.subrange(1, s.len() as int), k + 1) {
            Some((v, n)) => Some(((s[0] - 128) as nat + 128 * v, n + 1)),
            None => None,
        }
    }
}

/// The varint that starts at `pos` in `b`: its value and the position after it.
pub open spec fn varint_at(b: Seq<u8>, pos: int) -> Option<(nat, int)> {
    if 0 <= pos <= b.len() {
        match parse_varint(b.subrange(pos, b.len() as int), 0) {
            Some((v, n)) => if 1 <= n <= b.len() - pos {
                Some((v, pos + n))
            } else {
                None
            },
            None => None,
        }
    } else {
        None
    }
}

pub proof fn lemma_group_bound(k: nat)
    requires
        k <= 9,
    ensures
        2 <= group_bound(k) <= 0x1_0000_0000_0000_0000,
        k < 9 ==> group_bound(k) == 128 * group_bound(k + 1),
        group_bound(0) == 0x1_0000_0000_0000_0000,
    decreases 9 - k,
{
    reveal_with_fuel(group_bound, 10);
    assert(group_bound(0) == 0x1_0000_0000_0000_0000);
    if k < 9 {
        lemma_group_bound(k + 1);
        lemma_group_bound_monotone(k);
    }
}

proof fn lemma_group_bound_monotone(k: nat)
    requires
        k <= 9,
    ensures
        group_bound(k) <= group_bound(0),
    decreases k,
{
    if k > 0 {
        lemma_group_bound_monotone((k - 1) as nat);
        assert(group_bound((k - 1) as nat) == 128 * group_bound(k));
    }
}

/// What `parse_varint` reads from group `k` on is below `group_bound(k)`.
pub proof fn lemma_parse_varint_bound(s: Seq<u8>, k: nat)
    requires
        parse_varint(s, k) is Some,
    ensures
        parse_varint(s, k).unwrap().0 < group_bound(k),
        1 <= parse_varint(s, k).unwrap().1 <= s.len(),
    decreases 10 - k,
{
    lemma_group_bound(k);
    if s[0] >= 128 {
        let t = s.subrange(1, s.len() as int);
        lemma_parse_varint_bound(t, k + 1);
        let v = parse_varint(t, k + 1).unwrap().0;
        assert(v + 1 <= group_bound(k + 1));
        assert(128 * v + 128 <= 128 * group_bound(k + 1)) by (nonlinear_arith)
            requires
                v + 1 <= group_bound(k + 1),
        ;
    }
}

/// The bytes of `varint(w)` read back as `w`, whatever follows them.
pub proof fn lemma_parse_varint_of(s: Seq<u8>, w: nat, k: nat)
    requires
        w < group_bound(k),
        k <= 9,
        varint(w).len() <= s.len(),
        s.subrange(0, varint(w).len() as int) == varint(w),
    ensures
        parse_varint(s, k) == Some((w, varint(w).len())),
    decreases w,
{
    lemma_group_bound(k);
    assert(s[0] == varint(w)[0]);
    if w >= 128 {
        if k == 9 {
            assert(false);
        }
        let t = s.subrange(1, s.len() as int);
        let rest = varint(w / 128);
        assert(varint(w) == seq![(w % 128 + 128) as u8] + rest);
        assert(t.subrange(0, rest.len() as int) =~= rest) by {
            assert forall|i: int| 0 <= i < rest.len() implies t.subrange(
                0,
                rest.len() as int,
            )[i] == rest[i] by {
                assert(s.subrange(0, varint(w).len() as int)[i + 1] == varint(w)[i + 1]);
            }
        }
        assert(w / 128 < group_bound(k + 1));
        lemma_parse_varint_of(t, w / 128, k + 1);
    }
}

/// Where `b` holds `varint(w)` at `pos`, `varint_at` reads `w` and the
/// position after those bytes.
pub proof fn lemma_varint_at(b: Seq<u8>, pos: int, w: nat)
    requires
        w < 0x1_0000_0000_0000_0000,
        0 <= pos,
        pos + varint(w).len() <= b.len(),
        b.subrange(pos, pos + varint(w).len()) == varint(w),
    ensures
        varint_at(b, pos) == Some((w, pos + varint(w).len())),
{
    let s = b.subrange(pos, b.len() as int);
    assert(s.subrange(0, varint(w).len() as int) =~= b.subrange(pos, pos + varint(w).len()));
    lemma_group_bound(0);
    reveal_with_fuel(group_bound, 10);
    lemma_parse_varint_of(s, w, 0);
}

/// Relies on prost::encoding::encode_varint: appends the base-128 form of `v`,
/// low group first, continuation bit on every byte but the last.
#[verifier::external_body]
pub(crate) fn put_varint(v: u64, out: &mut Vec<u8>)
    ensures
        final(out)@ == old(out)@ + varint(v as nat),
{
    prost::encoding::encode_varint(v, out)
}

fn parse_varint_from(b: &[u8], pos: usize, k: usize) -> (r: Option<(u64, usize)>)
    requires
        pos <= b@.len(),
        k <= 10,
    ensures
        match parse_varint(b@.subrange(pos as int, b@.len() as int), k as nat) {
            Some((v, n)) => r == Some((v as u64, n as usize)) && v < group_bound(k as nat),
            None => r is None,
        },
    decreases 10 - k,
{
    let ghost s = b@.subrange(pos as int, b@.len() as int);
    if k >= 10 || pos >= b.len() {
        return None;
    }
    let x = b[pos];
    proof {
        lemma_group_bound(k as nat);
    }
    if x < 128 {
        if k == 9 && x > 1 {
            None
        } else {
            Some((x as u64, 1))
        }
    } else {
        let r = parse_varint_from(b, pos + 1, k + 1);
        proof {
            assert(s.subrange(1, s.len() as int) =~= b@.subrange(pos + 1, b@.len() as int));
        }
        match r {
            Some((v, n)) => {
                proof {
                    lemma_parse_varint_bound(s.subrange(1, s.len() as int), (k + 1) as nat);
                    assert(128 * v + 128 <= 128 * group_bound((k + 1) as nat)) by (nonlinear_arith)
                        requires
                            v < group_bound((k + 1) as nat),
                    ;
                }
                Some(((x - 128) as u64 + 128 * v, n + 1))
            },
            None => None,
        }
    }
}

/// Reads the varint at `pos`: its value and the position after it, or `None`
/// where the bytes there are no varint.
pub fn read_varint(b: &[u8], pos: usize) -> (r: Option<(u64, usize)>)
    requires
        pos <= b@.len(),
    ensures
        match varint_at(b@, pos as int) {
            Some((v, p)) => r == Some((v as u64, p as usize)) && v < 0x1_0000_0000_0000_0000
                && pos < p <= b@.len(),
            None => r is None,
        },
{
    let r = parse_varint_from(b, pos, 0);
    let len = b.len();
    let ghost s = b@.subrange(pos as int, len as int);
    proof {
        lemma_group_bound(0);
        if parse_varint(s, 0) is Some {
            lemma_parse_varint_bound(s, 0);
        }
    }
    match r {
        Some((v, n)) => Some((v, pos + n)),
        None => None,
    }
}

} // verus!
