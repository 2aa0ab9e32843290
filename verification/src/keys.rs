//! Durable keys for version records.  A concept version is keyed
//! `cv:<uuid>:<version>`, a relationship version `rv:<uuid>:<version>`,
//! where `<uuid>` is the 8-4-4-4-12 lowercase hex form of the 128-bit id and
//! `<version>` a decimal integer, so that all versions of one entity share a
//! prefix.

use vstd::prelude::*;

verus! {

/// The lowercase hex digit for a value below 16.
pub open spec fn hex_digit(n: u8) -> u8 {
    if n < 10 {
        (48 + n) as u8
    } else {
        (87 + n) as u8
    }
}

/// The `i`-th nibble of the id, highest first.
pub open spec fn uuid_nibble(id: u128, i: int) -> u8 {
    ((id >> ((124 - 4 * i) as u128)) & 0xf) as u8
}

/// The 32 lowercase hex digits of the id, highest nibble first.
pub open spec fn hex32(id: u128) -> Seq<u8> {
    Seq::new(32, |i: int| hex_digit(uuid_nibble(id, i)))
}

/// The standard 8-4-4-4-12 hyphenated form, as ASCII bytes.
#[verifier::opaque]
pub open spec fn uuid_hyphenated_bytes(id: u128) -> Seq<u8> {
    hex32(id).subrange(0, 8) + seq![45u8] + hex32(id).subrange(8, 12) + seq![45u8] + hex32(
        id,
    ).subrange(12, 16) + seq![45u8] + hex32(id).subrange(16, 20) + seq![45u8] + hex32(id).subrange(
        20,
        32,
    )
}

/// Decimal digits of `v`, most significant first, as ASCII bytes.
pub open spec fn dec_bytes(v: nat) -> Seq<u8>
    decreases v,
{
    if v < 10 {
        seq![(48 + v) as u8]
    } else {
        dec_bytes(v / 10).push((48 + v % 10) as u8)
    }
}

/// `cv:<uuid>:<version>` as bytes.
#[verifier::opaque]
pub open spec fn spec_concept_version_key(id: u128, version: u64) -> Seq<u8> {
    seq![99u8, 118u8, 58u8] + uuid_hyphenated_bytes(id) + seq![58u8] + dec_bytes(version as nat)
}

/// `rv:<uuid>:<version>` as bytes.
#[verifier::opaque]
pub open spec fn spec_relationship_version_key(id: u128, version: u64) -> Seq<u8> {
    seq![114u8, 118u8, 58u8] + uuid_hyphenated_bytes(id) + seq![58u8] + dec_bytes(version as nat)
}

proof fn lemma_nibble_bound(x: u128)
    by (bit_vector)
    ensures
        (x & 0xf) < 16,
{
}

fn push_uuid_hyphenated(out: &mut Vec<u8>, id: u128)
    ensures
        final(out)@ == old(out)@ + uuid_hyphenated_bytes(id),
{
    let mut hex: Vec<u8> = Vec::new();
    let mut i: usize = 0;
    while i < 32
        invariant
            i <= 32,
            hex@ == hex32(id).subrange(0, i as int),
        decreases 32 - i,
    {
        let sh: u128 = (124 - 4 * (i as u32)) as u128;
        let nib = #[verifier::truncate] (((id >> sh) & 0xf) as u8);
        proof {
            lemma_nibble_bound(id >> sh);
            assert(nib == uuid_nibble(id, i as int));
        }
        let d = if nib < 10 {
            48 + nib
        } else {
            87 + nib
        };
        hex.push(d);
        proof {
            assert(hex@ =~= hex32(id).subrange(0, i + 1));
        }
        i = i + 1;
    }
    proof {
        assert(hex32(id).subrange(0, 32) =~= hex32(id));
    }
    let mut j: usize = 0;
    while j < 8
        invariant
            j <= 8,
            hex@ == hex32(id),
            out@ == old(out)@ + hex32(id).subrange(0, j as int),
        decreases 8 - j,
    {
        out.push(hex[j]);
        proof {
            assert(out@ =~= old(out)@ + hex32(id).subrange(0, j + 1));
        }
        j = j + 1;
    }
    out.push(45u8);
    let mut j: usize = 8;
    while j < 12
        invariant
            8 <= j <= 12,
            hex@ == hex32(id),
            out@ == old(out)@ + hex32(id).subrange(0, 8) + seq![45u8] + hex32(id).subrange(
                8,
                j as int,
            ),
        decreases 12 - j,
    {
        out.push(hex[j]);
        proof {
            assert(out@ =~= old(out)@ + hex32(id).subrange(0, 8) + seq![45u8] + hex32(
                id,
            ).subrange(8, j + 1));
        }
        j = j + 1;
    }
    out.push(45u8);
    let mut j: usize = 12;
    while j < 16
        invariant
            12 <= j <= 16,
            hex@ == hex32(id),
            out@ == old(out)@ + hex32(id).subrange(0, 8) + seq![45u8] + hex32(id).subrange(8, 12)
                + seq![45u8] + hex32(id).subrange(12, j as int),
        decreases 16 - j,
    {
        out.push(hex[j]);
        proof {
            assert(out@ =~= old(out)@ + hex32(id).subrange(0, 8) + seq![45u8] + hex32(
                id,
            ).subrange(8, 12) + seq![45u8] + hex32(id).subrange(12, j + 1));
        }
        j = j + 1;
    }
    out.push(45u8);
    let mut j: usize = 16;
    while j < 20
        invariant
            16 <= j <= 20,
            hex@ == hex32(id),
            out@ == old(out)@ + hex32(id).subrange(0, 8) + seq![45u8] + hex32(id).subrange(8, 12)
                + seq![45u8] + hex32(id).subrange(12, 16) + seq![45u8] + hex32(id).subrange(
                16,
                j as int,
            ),
        decreases 20 - j,
    {
        out.push(hex[j]);
        proof {
            assert(out@ =~= old(out)@ + hex32(id).subrange(0, 8) + seq![45u8] + hex32(
                id,
            ).subrange(8, 12) + seq![45u8] + hex32(id).subrange(12, 16) + seq![45u8] + hex32(
                id,
            ).subrange(16, j + 1));
        }
        j = j + 1;
    }
    out.push(45u8);
    let mut j: usize = 20;
    while j < 32
        invariant
            20 <= j <= 32,
            hex@ == hex32(id),
            out@ == old(out)@ + hex32(id).subrange(0, 8) + seq![45u8] + hex32(id).subrange(8, 12)
                + seq![45u8] + hex32(id).subrange(12, 16) + seq![45u8] + hex32(id).subrange(16, 20)
                + seq![45u8] + hex32(id).subrange(20, j as int),
        decreases 32 - j,
    {
        out.push(hex[j]);
        proof {
            assert(out@ =~= old(out)@ + hex32(id).subrange(0, 8) + seq![45u8] + hex32(
                id,
            ).subrange(8, 12) + seq![45u8] + hex32(id).subrange(12, 16) + seq![45u8] + hex32(
                id,
            ).subrange(16, 20) + seq![45u8] + hex32(id).subrange(20, j + 1));
        }
        j = j + 1;
    }
    proof {
        reveal(uuid_hyphenated_bytes);
        assert(out@ =~= old(out)@ + uuid_hyphenated_bytes(id));
    }
}

/// The digit sequence still owed when `x` is what remains of the value.
pub open spec fn dec_prefix(x: nat) -> Seq<u8> {
    if x == 0 {
        Seq::empty()
    } else {
        dec_bytes(x)
    }
}

fn push_decimal(out: &mut Vec<u8>, v: u64)
    ensures
        final(out)@ == old(out)@ + dec_bytes(v as nat),
{
    let mut rev: Vec<u8> = Vec::new();
    let mut x: u64 = v;
    let d0 = (x % 10) as u8 + 48;
    rev.push(d0);
    x = x / 10;
    proof {
        assert((seq![d0]).reverse() =~= seq![d0]);
        if v >= 10 {
            assert(dec_bytes(v as nat) == dec_bytes(v as nat / 10).push((48 + v as nat % 10) as u8));
        }
        assert(dec_bytes(v as nat) =~= dec_prefix(x as nat) + rev@.reverse());
    }
    while x > 0
        invariant
            dec_bytes(v as nat) == dec_prefix(x as nat) + rev@.reverse(),
            rev@.len() >= 1,
        decreases x,
    {
        let ghost rev0 = rev@;
        let ghost x0 = x as nat;
        let d = (x % 10) as u8 + 48;
        rev.push(d);
        x = x / 10;
        proof {
            assert(rev@.reverse() =~= seq![d] + rev0.reverse());
            if x0 >= 10 {
                assert(dec_bytes(x0) == dec_bytes(x0 / 10).push((48 + x0 % 10) as u8));
                assert(dec_prefix(x0) =~= dec_prefix(x as nat) + seq![d]);
            } else {
                assert(dec_prefix(x0) =~= dec_prefix(x as nat) + seq![d]);
            }
            assert(dec_prefix(x0) + rev0.reverse() =~= dec_prefix(x as nat) + rev@.reverse());
        }
    }
    let ghost target = rev@.reverse();
    proof {
        assert(dec_bytes(v as nat) =~= target);
    }
    let n = rev.len();
    let mut i: usize = n;
    while i > 0
        invariant
            i <= n,
            n == rev@.len(),
            target == rev@.reverse(),
            out@ == old(out)@ + target.subrange(0, (n - i) as int),
        decreases i,
    {
        out.push(rev[i - 1]);
        proof {
            assert(target[(n - i) as int] == rev@[i - 1]);
            assert(out@ =~= old(out)@ + target.subrange(0, (n - i + 1) as int));
        }
        i = i - 1;
    }
    proof {
        assert(target.subrange(0, n as int) =~= target);
    }
}

/// The durable key of a concept version record.
pub fn concept_version_key(id: u128, version: u64) -> (r: Vec<u8>)
    ensures
        r@ == spec_concept_version_key(id, version),
{
    let mut out: Vec<u8> = Vec::new();
    out.push(99u8);
    out.push(118u8);
    out.push(58u8);
    proof {
        assert(out@ =~= seq![99u8, 118u8, 58u8]);
    }
    push_uuid_hyphenated(&mut out, id);
    out.push(58u8);
    push_decimal(&mut out, version);
    proof {
        reveal(spec_concept_version_key);
        assert(out@ =~= spec_concept_version_key(id, version));
    }
    out
}

/// The durable key of a relationship version record.
pub fn relationship_version_key(id: u128, version: u64) -> (r: Vec<u8>)
    ensures
        r@ == spec_relationship_version_key(id, version),
{
    let mut out: Vec<u8> = Vec::new();
    out.push(114u8);
    out.push(118u8);
    out.push(58u8);
    proof {
        assert(out@ =~= seq![114u8, 118u8, 58u8]);
    }
    push_uuid_hyphenated(&mut out, id);
    out.push(58u8);
    push_decimal(&mut out, version);
    proof {
        reveal(spec_relationship_version_key);
        assert(out@ =~= spec_relationship_version_key(id, version));
    }
    out
}

} // verus!
