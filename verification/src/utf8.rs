use vstd::prelude::*;

verus! {

/// The bytes that one UTF-16 code unit is written as: one byte up to 0x7F,
/// two bytes up to 0x7FF, three bytes above (each unit on its own, so a
/// surrogate half also takes three bytes).
pub open spec fn unit_bytes(u: u16) -> Seq<u8> {
    if u <= 0x7F {
        seq![u as u8]
    } else if u <= 0x7FF {
        seq![(0xC0 + u / 64) as u8, (0x80 + u % 64) as u8]
    } else {
        seq![(0xE0 + u / 4096) as u8, (0x80 + (u / 64) % 64) as u8, (0x80 + u % 64) as u8]
    }
}

/// What is written for `units` into `cap` bytes: the units are taken in
/// order up to the first zero unit, and the writing stops at the first
/// unit whose bytes no longer fit.
pub open spec fn encode(units: Seq<u16>, cap: nat) -> Seq<u8>
    decreases units.len(),
{
    if units.len() == 0 || units[0] == 0 {
        Seq::empty()
    } else {
        let b = unit_bytes(units[0]);
        if b.len() <= cap {
            b + encode(units.drop_first(), (cap - b.len()) as nat)
        } else {
            Seq::empty()
        }
    }
}

} // verus!

verus! {

/// Writes the UTF-16 name in `buf16` into `buf` as UTF-8, unit by unit:
/// it stops at the first zero unit, after the sixteenth unit, or at the
/// first unit whose bytes no longer fit; the bytes of `buf` after the
/// written ones are left as they were.
pub fn get_utf8(buf: &mut [u8], buf16: &[u16; 16])
    ensures
        encode(buf16@, old(buf)@.len()).len() <= old(buf)@.len(),
        final(buf)@ == encode(buf16@, old(buf)@.len()) + old(buf)@.skip(
            encode(buf16@, old(buf)@.len()).len() as int,
        ),
        exists|k: int|
            #![trigger buf16@.take(k)]
            {
                &&& 0 <= k <= 16
                &&& forall|j: int| 0 <= j < k ==> #[trigger] buf16@[j] != 0
                &&& units_bytes(buf16@.take(k)).len() <= old(buf)@.len()
                &&& final(buf)@ == units_bytes(buf16@.take(k)) + old(buf)@.skip(
                    units_bytes(buf16@.take(k)).len() as int,
                )
                &&& (k == 16 || buf16@[k] == 0 || units_bytes(buf16@.take(k)).len()
                    + unit_bytes(buf16@[k]).len() > old(buf)@.len())
            },
{
    let n = buf.len();
    let mut i: usize = 0;
    let mut j: usize = 0;
    let mut stop = false;
    assert(buf16@.skip(0) =~= buf16@);
    assert(buf@.take(0) =~= Seq::<u8>::empty());
    while !stop && i < 16 && j < n && buf16[i] != 0
        invariant
            i <= 16,
            j <= n,
            n == buf@.len(),
            buf16@.len() == 16,
            buf@.len() == old(buf)@.len(),
            buf@.take(j as int) + encode(buf16@.skip(i as int), (n - j) as nat) == encode(
                buf16@,
                n as nat,
            ),
            buf@.skip(j as int) == old(buf)@.skip(j as int),
            stop ==> encode(buf16@.skip(i as int), (n - j) as nat) == Seq::<u8>::empty(),
        decreases 2 * (16 - i) + (if stop { 0int } else { 1int }),
    {
        let u = buf16[i];
        let ghost rest = buf16@.skip(i as int);
        let ghost before = buf@;
        assert(rest[0] == u);
        assert forall|k: int| j <= k < n implies before[k] == old(buf)@[k] by {
            assert(before.skip(j as int)[k - j] == old(buf)@.skip(j as int)[k - j]);
        }
        assert(rest.drop_first() =~= buf16@.skip(i + 1));
        if u <= 0x7F {
            buf[j] = u as u8;
            assert(buf@.take(j + 1) =~= before.take(j as int) + unit_bytes(u));
            assert(buf@.skip(j + 1) =~= before.skip(j + 1));
            j += 1;
            i += 1;
        } else if u <= 0x7FF && n - j >= 2 {
            let b0 = (u >> 6) as u8 | 0xC0;
            let b1 = (u & 0x3F) as u8 | 0x80;
            assert(b0 == (0xC0 + u / 64) as u8 && b1 == (0x80 + u % 64) as u8) by (bit_vector)
                requires
                    0x80 <= u <= 0x7FF,
                    b0 == (u >> 6) as u8 | 0xC0,
                    b1 == (u & 0x3F) as u8 | 0x80,
            ;
            buf[j] = b0;
            buf[j + 1] = b1;
            assert(buf@.take(j + 2) =~= before.take(j as int) + unit_bytes(u));
            assert(buf@.skip(j + 2) =~= before.skip(j + 2));
            j += 2;
            i += 1;
        } else if u >= 0x800 && n - j >= 3 {
            let b0 = (u >> 12) as u8 | 0xE0;
            let b1 = ((u >> 6) & 0x3F) as u8 | 0x80;
            let b2 = (u & 0x3F) as u8 | 0x80;
            assert(b0 == (0xE0 + u / 4096) as u8 && b1 == (0x80 + (u / 64) % 64) as u8 && b2 == (
            0x80 + u % 64) as u8) by (bit_vector)
                requires
                    0x800 <= u,
                    b0 == (u >> 12) as u8 | 0xE0,
                    b1 == ((u >> 6) & 0x3F) as u8 | 0x80,
                    b2 == (u & 0x3F) as u8 | 0x80,
            ;
            buf[j] = b0;
            buf[j + 1] = b1;
            buf[j + 2] = b2;
            assert(buf@.take(j + 3) =~= before.take(j as int) + unit_bytes(u));
            assert(buf@.skip(j + 3) =~= before.skip(j + 3));
            j += 3;
            i += 1;
        } else {
            stop = true;
        }
    }
    proof {
        let rest = buf16@.skip(i as int);
        if !stop && i < 16 && j >= n && rest[0] != 0 {
            assert(unit_bytes(rest[0]).len() >= 1);
        }
        assert(buf@ =~= buf@.take(j as int) + buf@.skip(j as int));
        let k = lemma_encode_greedy(buf16@, n as nat);
        assert(buf16@.take(k) == buf16@.take(k));
    }
}

} // verus!

verus! {

/// The code point that a sequence of one to three UTF-8 bytes stands for.
pub open spec fn decode_unit(b: Seq<u8>) -> int {
    if b.len() == 1 {
        b[0] as int
    } else if b.len() == 2 {
        (b[0] - 0xC0) * 64 + (b[1] - 0x80)
    } else {
        (b[0] - 0xE0) * 4096 + (b[1] - 0x80) * 64 + (b[2] - 0x80)
    }
}

/// A lead byte of an `n`-byte UTF-8 sequence, and a continuation byte.
pub open spec fn is_lead_byte(x: u8, n: nat) -> bool {
    if n == 1 {
        x < 0x80
    } else if n == 2 {
        0xC0 <= x < 0xE0
    } else {
        n == 3 && 0xE0 <= x < 0xF0
    }
}

pub open spec fn is_continuation_byte(x: u8) -> bool {
    0x80 <= x < 0xC0
}

/// Every unit is written as well-formed UTF-8 of the shortest length for its
/// value, and decoding those bytes gives the unit back.
pub proof fn lemma_unit_bytes_decode(u: u16)
    ensures
        1 <= unit_bytes(u).len() <= 3,
        unit_bytes(u).len() == (if u <= 0x7F { 1nat } else if u <= 0x7FF { 2nat } else { 3nat }),
        is_lead_byte(unit_bytes(u)[0], unit_bytes(u).len()),
        forall|k: int| 1 <= k < unit_bytes(u).len() ==> is_continuation_byte(#[trigger] unit_bytes(u)[k]),
        decode_unit(unit_bytes(u)) == u,
{
    let q = u / 64;
    let r = u % 64;
    assert(u == 64 * q + r && 0 <= r < 64) by (nonlinear_arith)
        requires
            q == u / 64,
            r == u % 64,
    ;
    if u > 0x7FF {
        let q2 = u / 4096;
        assert(u == 4096 * q2 + 64 * (q % 64) + r && q2 < 16) by (nonlinear_arith)
            requires
                q == u / 64,
                r == u % 64,
                q2 == u / 4096,
                u == 64 * q + r,
                u <= 0xFFFF,
        ;
    }
}

/// With more room, the same units give a longer or equal writing that starts
/// with what the smaller room gave.
pub proof fn lemma_encode_prefix(units: Seq<u16>, c1: nat, c2: nat)
    requires
        c1 <= c2,
    ensures
        encode(units, c1).len() <= encode(units, c2).len(),
        encode(units, c1) == encode(units, c2).take(encode(units, c1).len() as int),
    decreases units.len(),
{
    if units.len() != 0 && units[0] != 0 {
        let b = unit_bytes(units[0]);
        if b.len() <= c1 {
            lemma_encode_prefix(units.drop_first(), (c1 - b.len()) as nat, (c2 - b.len()) as nat);
            let t1 = encode(units.drop_first(), (c1 - b.len()) as nat);
            let t2 = encode(units.drop_first(), (c2 - b.len()) as nat);
            assert((b + t2).take((b + t1).len() as int) =~= b + t2.take(t1.len() as int));
        } else {
            assert(encode(units, c1) =~= Seq::<u8>::empty());
        }
    }
}

/// The writing never takes more room than it was given.
pub proof fn lemma_encode_fits(units: Seq<u16>, cap: nat)
    ensures
        encode(units, cap).len() <= cap,
    decreases units.len(),
{
    if units.len() != 0 && units[0] != 0 {
        let b = unit_bytes(units[0]);
        if b.len() <= cap {
            lemma_encode_fits(units.drop_first(), (cap - b.len()) as nat);
        }
    }
}

/// ASCII text with no zero unit, given enough room, is written byte for byte.
pub proof fn lemma_encode_ascii(units: Seq<u16>, cap: nat)
    requires
        units.len() <= cap,
        forall|k: int| 0 <= k < units.len() ==> 0 < #[trigger] units[k] <= 0x7F,
    ensures
        encode(units, cap) == units.map_values(|u: u16| u as u8),
    decreases units.len(),
{
    if units.len() != 0 {
        let tail = units.drop_first();
        assert forall|k: int| 0 <= k < tail.len() implies 0 < #[trigger] tail[k] <= 0x7F by {
            assert(tail[k] == units[k + 1]);
        }
        lemma_encode_ascii(tail, (cap - 1) as nat);
        assert(units.map_values(|u: u16| u as u8) =~= seq![units[0] as u8] + tail.map_values(
            |u: u16| u as u8,
        ));
    } else {
        assert(units.map_values(|u: u16| u as u8) =~= Seq::<u8>::empty());
    }
}

} // verus!

verus! {

/// The bytes of the units in `s`, one unit after another.
pub open spec fn units_bytes(s: Seq<u16>) -> Seq<u8> {
    s.map_values(|u: u16| unit_bytes(u)).flatten()
}

/// The writing is greedy over a prefix of the units: for some `k`, it is
/// exactly the bytes of the first `k` units, none of which is zero, in order;
/// and it stopped there only because the units ran out, the next unit is
/// zero, or the next unit's bytes do not fit in what is left. So no unit is
/// skipped, replaced, or dropped while it still fits.
pub proof fn lemma_encode_greedy(units: Seq<u16>, cap: nat) -> (k: int)
    ensures
        0 <= k <= units.len(),
        forall|j: int| 0 <= j < k ==> #[trigger] units[j] != 0,
        encode(units, cap) == units_bytes(units.take(k)),
        encode(units, cap).len() <= cap,
        k == units.len() || units[k] == 0 || encode(units, cap).len() + unit_bytes(units[k]).len()
            > cap,
    decreases units.len(),
{
    lemma_encode_fits(units, cap);
    if units.len() == 0 || units[0] == 0 {
        assert(units.take(0).map_values(|u: u16| unit_bytes(u)) =~= Seq::<Seq<u8>>::empty());
        0
    } else {
        let b = unit_bytes(units[0]);
        if b.len() > cap {
            assert(units.take(0).map_values(|u: u16| unit_bytes(u)) =~= Seq::<Seq<u8>>::empty());
            0
        } else {
            let tail = units.drop_first();
            let k1 = lemma_encode_greedy(tail, (cap - b.len()) as nat);
            let k = k1 + 1;
            let m = units.take(k).map_values(|u: u16| unit_bytes(u));
            assert(m.drop_first() =~= tail.take(k1).map_values(|u: u16| unit_bytes(u)));
            assert(m.first() == b);
            assert forall|j: int| 0 <= j < k implies #[trigger] units[j] != 0 by {
                if j > 0 {
                    assert(units[j] == tail[j - 1]);
                }
            }
            if k < units.len() {
                assert(units[k] == tail[k1]);
            }
            k
        }
    }
}

/// A non-zero first unit whose bytes fit is written first, and the rest of
/// the writing is that of the remaining units in the remaining room.
pub proof fn lemma_encode_first_unit(units: Seq<u16>, cap: nat)
    requires
        units.len() > 0,
        units[0] != 0,
        unit_bytes(units[0]).len() <= cap,
    ensures
        encode(units, cap) == unit_bytes(units[0]) + encode(
            units.drop_first(),
            (cap - unit_bytes(units[0]).len()) as nat,
        ),
        encode(units, cap).take(unit_bytes(units[0]).len() as int) == unit_bytes(units[0]),
{
    let b = unit_bytes(units[0]);
    assert((b + encode(units.drop_first(), (cap - b.len()) as nat)).take(b.len() as int) =~= b);
}

/// The writing is empty exactly when there is nothing to write: no units,
/// a zero first unit, or a first unit whose bytes do not fit.
pub proof fn lemma_encode_empty(units: Seq<u16>, cap: nat)
    ensures
        (encode(units, cap).len() == 0) <==> (units.len() == 0 || units[0] == 0
            || unit_bytes(units[0]).len() > cap),
{
    if units.len() > 0 && units[0] != 0 {
        lemma_unit_bytes_decode(units[0]);
    }
}

/// When the bytes of the first `k` units (none of them zero) fit together,
/// the writing starts with all of them, wherever in the name they stand.
pub proof fn lemma_encode_all_that_fit(units: Seq<u16>, cap: nat, k: int)
    requires
        0 <= k <= units.len(),
        forall|j: int| 0 <= j < k ==> #[trigger] units[j] != 0,
        units_bytes(units.take(k)).len() <= cap,
    ensures
        encode(units, cap).len() >= units_bytes(units.take(k)).len(),
        encode(units, cap).take(units_bytes(units.take(k)).len() as int) == units_bytes(
            units.take(k),
        ),
    decreases k,
{
    if k > 0 {
        let b = unit_bytes(units[0]);
        let tail = units.drop_first();
        let m = units.take(k).map_values(|u: u16| unit_bytes(u));
        assert(m.drop_first() =~= tail.take(k - 1).map_values(|u: u16| unit_bytes(u)));
        assert(m.first() == b);
        let w = units_bytes(units.take(k));
        let wt = units_bytes(tail.take(k - 1));
        assert(w == b + wt);
        assert forall|j: int| 0 <= j < k - 1 implies #[trigger] tail[j] != 0 by {
            assert(tail[j] == units[j + 1]);
        }
        lemma_encode_all_that_fit(tail, (cap - b.len()) as nat, k - 1);
        let rest = encode(tail, (cap - b.len()) as nat);
        assert((b + rest).take(w.len() as int) =~= b + rest.take(wt.len() as int));
    } else {
        assert(units.take(0).map_values(|u: u16| unit_bytes(u)) =~= Seq::<Seq<u8>>::empty());
        assert(encode(units, cap).take(0) =~= Seq::<u8>::empty());
    }
}

} // verus!
