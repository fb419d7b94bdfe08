use vstd::prelude::*;
use vstd::bytes::{spec_u64_from_le_bytes, spec_u64_to_le_bytes, u64_to_le_bytes, lemma_auto_spec_u64_to_from_le_bytes};

verus! {

/// The bytes of an ASCII text.
pub open spec fn ascii_bytes(text: Seq<char>) -> Seq<u8> {
    text.map_values(|c: char| c as u8)
}

/// The decimal digits of `n`, most significant first, as ASCII bytes.
pub open spec fn decimal(n: nat) -> Seq<u8>
    decreases n,
{
    if n < 10 {
        seq![(n + 48) as u8]
    } else {
        decimal(n / 10).push((n % 10 + 48) as u8)
    }
}

/// The header of a binary little-endian PLY file with `vertex_count`
/// vertices, each of three doubles `x`, `y`, `z` and two bytes `ground` and
/// `wrong`.
pub open spec fn ply_header_bytes(vertex_count: nat) -> Seq<u8> {
    ascii_bytes("ply\nformat binary_little_endian 1.0\nelement vertex "@) + decimal(vertex_count)
        + ascii_bytes(
        "\nproperty double x\nproperty double y\nproperty double z\nproperty uchar ground\nproperty uchar wrong\nend_header\n"@,
    )
}

/// One vertex of the PLY body: the bit patterns of its three coordinates,
/// its ground flag and its error mark.
pub struct PlyVertex {
    pub x_bits: u64,
    pub y_bits: u64,
    pub z_bits: u64,
    pub is_ground: bool,
    pub wrong: u8,
}

/// The bytes of one vertex: the coordinates little-endian, then the ground
/// flag as 0 or 1, then the error mark.
pub open spec fn vertex_bytes(v: PlyVertex) -> Seq<u8> {
    spec_u64_to_le_bytes(v.x_bits) + spec_u64_to_le_bytes(v.y_bits) + spec_u64_to_le_bytes(v.z_bits)
        + seq![if v.is_ground { 1u8 } else { 0u8 }, v.wrong]
}

fn push_ascii(out: &mut Vec<u8>, text: &str)
    requires
        vstd::string::is_ascii(text),
    ensures
        final(out)@ == old(out)@ + ascii_bytes(text@),
{
    proof {
        vstd::string::is_ascii_spec_bytes(text);
    }
    let bytes = text.as_bytes();
    let ghost start = out@;
    let mut i: usize = 0;
    while i < bytes.len()
        invariant
            bytes@ == Seq::new(text@.len(), |j: int| text@[j] as u8),
            i <= bytes@.len(),
            out@ == start + bytes@.take(i as int),
        decreases bytes@.len() - i,
    {
        proof {
            assert(bytes@.take(i + 1) =~= bytes@.take(i as int).push(bytes@[i as int]));
        }
        out.push(bytes[i]);
        i = i + 1;
    }
    proof {
        assert(bytes@.take(i as int) =~= bytes@);
        assert(bytes@ =~= ascii_bytes(text@));
    }
}

/// The decimal digits of `n` as ASCII bytes.
pub fn decimal_digits(n: usize) -> (result: Vec<u8>)
    ensures
        result@ == decimal(n as nat),
        digits_value(result@) == n,
        forall|i: int| 0 <= i < result@.len() ==> 48 <= #[trigger] result@[i] <= 57,
        n > 0 ==> result@[0] != 48,
        result@.len() >= 1,
{
    proof {
        law_decimal_spells_number(n as nat);
    }
    let mut digits: Vec<u8> = Vec::new();
    let mut x = n;
    while x >= 10
        invariant
            decimal(n as nat) == decimal(x as nat) + digits@,
        decreases x,
    {
        let d = (x % 10) as u8 + 48;
        let ghost rest = digits@;
        proof {
            assert(decimal(x as nat) == decimal((x / 10) as nat).push(d));
            assert(decimal(x as nat) + rest =~= decimal((x / 10) as nat) + seq![d].add(rest));
        }
        digits.insert(0, d);
        proof {
            assert(digits@ =~= seq![d].add(rest));
        }
        x = x / 10;
    }
    let d = x as u8 + 48;
    let ghost rest = digits@;
    digits.insert(0, d);
    proof {
        assert(digits@ =~= seq![d].add(rest));
        assert(decimal(x as nat) =~= seq![d]);
    }
    digits
}

/// The header of a binary little-endian PLY file with `vertex_count`
/// vertices: the format line, the vertex element with its count, the
/// properties `x`, `y`, `z` (doubles) and `ground`, `wrong` (bytes), and the
/// end of the header, each line ended by a line feed.
pub fn ply_header(vertex_count: usize) -> (result: Vec<u8>)
    ensures
        result@ == ply_header_bytes(vertex_count as nat),
{
    let mut out: Vec<u8> = Vec::new();
    let start = "ply\nformat binary_little_endian 1.0\nelement vertex ";
    let end = "\nproperty double x\nproperty double y\nproperty double z\nproperty uchar ground\nproperty uchar wrong\nend_header\n";
    proof {
        reveal_strlit("ply\nformat binary_little_endian 1.0\nelement vertex ");
        reveal_strlit(
            "\nproperty double x\nproperty double y\nproperty double z\nproperty uchar ground\nproperty uchar wrong\nend_header\n",
        );
    }
    push_ascii(&mut out, start);
    let digits = decimal_digits(vertex_count);
    let mut i: usize = 0;
    let ghost before = out@;
    while i < digits.len()
        invariant
            i <= digits@.len(),
            out@ == before + digits@.take(i as int),
        decreases digits@.len() - i,
    {
        proof {
            assert(digits@.take(i + 1) =~= digits@.take(i as int).push(digits@[i as int]));
        }
        out.push(digits[i]);
        i = i + 1;
    }
    proof {
        assert(digits@.take(i as int) =~= digits@);
    }
    push_ascii(&mut out, end);
    out
}

/// The bytes of one vertex record of the PLY body.
pub fn encode_vertex(v: &PlyVertex) -> (result: Vec<u8>)
    ensures
        result@ == vertex_bytes(*v),
        result@.len() == 26,
        result@.subrange(0, 8) == spec_u64_to_le_bytes(v.x_bits),
        result@.subrange(8, 16) == spec_u64_to_le_bytes(v.y_bits),
        result@.subrange(16, 24) == spec_u64_to_le_bytes(v.z_bits),
        result@[24] == if v.is_ground {
            1u8
        } else {
            0u8
        },
        result@[25] == v.wrong,
{
    proof {
        lemma_auto_spec_u64_to_from_le_bytes();
    }
    let mut out = u64_to_le_bytes(v.x_bits);
    let mut y = u64_to_le_bytes(v.y_bits);
    let mut z = u64_to_le_bytes(v.z_bits);
    out.append(&mut y);
    out.append(&mut z);
    out.push(if v.is_ground { 1u8 } else { 0u8 });
    out.push(v.wrong);
    proof {
        assert(out@ =~= vertex_bytes(*v));
        law_vertex_round_trip(*v);
    }
    out
}

/// The number that a sequence of ASCII decimal digits spells, most
/// significant first.
pub open spec fn digits_value(s: Seq<u8>) -> int
    decreases s.len(),
{
    if s.len() == 0 {
        0
    } else {
        digits_value(s.drop_last()) * 10 + (s.last() - 48)
    }
}

/// The decimal digits of `n` are ASCII digits without a leading zero (but
/// for `n` itself being zero) and spell `n`.
pub proof fn law_decimal_spells_number(n: nat)
    ensures
        digits_value(decimal(n)) == n,
        decimal(n).len() >= 1,
        forall|i: int| 0 <= i < decimal(n).len() ==> 48 <= #[trigger] decimal(n)[i] <= 57,
        n > 0 ==> decimal(n)[0] != 48,
    decreases n,
{
    if n >= 10 {
        law_decimal_spells_number(n / 10);
        let d = decimal(n / 10);
        assert(decimal(n) == d.push((n % 10 + 48) as u8));
        assert(decimal(n).drop_last() =~= d);
        assert((n / 10) * 10 + n % 10 == n) by (nonlinear_arith);
        assert(decimal(n).last() == (n % 10 + 48) as u8);
        assert(((n % 10 + 48) as u8) - 48 == n % 10);
        assert(digits_value(decimal(n)) == digits_value(d) * 10 + (n % 10));
        assert forall|i: int| 0 <= i < decimal(n).len() implies 48 <= #[trigger] decimal(n)[i] <= 57 by {
            if i < d.len() {
                assert(decimal(n)[i] == d[i]);
            }
        }
        assert(decimal(n)[0] == d[0]);
    } else {
        assert(decimal(n).drop_last() =~= Seq::<u8>::empty());
        assert(decimal(n).last() == (n + 48) as u8);
        assert(digits_value(decimal(n)) == digits_value(Seq::<u8>::empty()) * 10 + (decimal(n).last() - 48));
    }
}

/// Reading a vertex record back gives the coordinates and flags that were
/// written: the eight bytes at offsets 0, 8 and 16 decode little-endian to
/// the bit patterns of `x`, `y` and `z`, byte 24 is 1 exactly when the
/// vertex is ground, and byte 25 is its error mark.
pub proof fn law_vertex_round_trip(v: PlyVertex)
    ensures
        spec_u64_from_le_bytes(vertex_bytes(v).subrange(0, 8)) == v.x_bits,
        spec_u64_from_le_bytes(vertex_bytes(v).subrange(8, 16)) == v.y_bits,
        spec_u64_from_le_bytes(vertex_bytes(v).subrange(16, 24)) == v.z_bits,
        vertex_bytes(v).len() == 26,
        vertex_bytes(v).subrange(0, 8) == spec_u64_to_le_bytes(v.x_bits),
        vertex_bytes(v).subrange(8, 16) == spec_u64_to_le_bytes(v.y_bits),
        vertex_bytes(v).subrange(16, 24) == spec_u64_to_le_bytes(v.z_bits),
        vertex_bytes(v)[24] == if v.is_ground {
            1u8
        } else {
            0u8
        },
        vertex_bytes(v)[25] == v.wrong,
{
    lemma_auto_spec_u64_to_from_le_bytes();
    let b = vertex_bytes(v);
    assert(b.subrange(0, 8) =~= spec_u64_to_le_bytes(v.x_bits));
    assert(b.subrange(8, 16) =~= spec_u64_to_le_bytes(v.y_bits));
    assert(b.subrange(16, 24) =~= spec_u64_to_le_bytes(v.z_bits));
}

} // verus!
