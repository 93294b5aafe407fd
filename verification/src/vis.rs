use vstd::prelude::*;

verus! {

/// How an ASCII byte (below 0x80) is shown: control characters as `^@`..`^_`,
/// DEL as `^?`, everything else as itself.
pub open spec fn vis_ascii(c: u8) -> Seq<u8> {
    if c < 0x20 {
        seq![0x5eu8, (c + 0x40) as u8]
    } else if c == 0x7f {
        seq![0x5eu8, 0x3fu8]
    } else {
        seq![c]
    }
}

/// The `vis(3)` rendering of one byte: bytes with the high bit set are shown
/// as `M-` followed by the rendering of the low seven bits.
pub open spec fn vis_bytes(b: u8) -> Seq<u8> {
    if b >= 0x80 {
        seq![0x4du8, 0x2du8] + vis_ascii((b - 0x80) as u8)
    } else {
        vis_ascii(b)
    }
}

/// Writes the visual representation of `byte` to `writer` following
/// BSD `vis(3)` semantics (the default mode used by `cat -v`).
///
/// - Non-ASCII bytes (0x80-0xff) are prefixed with `M-`.
/// - Control characters (0x00-0x1f) are rendered as `^@`..`^_`.
/// - DEL (0x7f) is rendered as `^?`.
/// - All other bytes pass through unchanged.
///
/// Writing to a vector never fails, so the result is always `Ok(())`.
pub fn write_vis_byte(writer: &mut Vec<u8>, byte: u8) -> (r: Result<(), std::io::Error>)
    ensures
        r is Ok,
        final(writer)@ == old(writer)@ + vis_bytes(byte),
{
    if byte >= 0x80 {
        writer.push(0x4d);
        writer.push(0x2d);
        assert(byte & 0x7f == byte - 0x80) by (bit_vector)
            requires
                byte >= 0x80,
        ;
        let stripped = byte & 0x7f;
        if stripped < 0x20 || stripped == 0x7f {
            let c = if stripped == 0x7f {
                0x3f
            } else {
                stripped | 0x40
            };
            assert(stripped < 0x20 ==> stripped | 0x40 == stripped + 0x40) by (bit_vector);
            writer.push(0x5e);
            writer.push(c);
        } else {
            writer.push(stripped);
        }
    } else if byte < 0x20 || byte == 0x7f {
        let c = if byte == 0x7f {
            0x3f
        } else {
            byte | 0x40
        };
        assert(byte < 0x20 ==> byte | 0x40 == byte + 0x40) by (bit_vector);
        writer.push(0x5e);
        writer.push(c);
    } else {
        writer.push(byte);
    }
    Ok(())
}

/// Every rendering is one to four bytes long, and every byte of it is printable
/// ASCII (space through tilde).
pub proof fn lemma_vis_printable(b: u8)
    ensures
        1 <= vis_bytes(b).len() <= 4,
        forall|i: int| 0 <= i < vis_bytes(b).len() ==> 0x20 <= #[trigger] vis_bytes(b)[i] <= 0x7e,
{
}

proof fn lemma_vis_ascii_injective(c: u8, d: u8)
    requires
        c < 0x80,
        d < 0x80,
        vis_ascii(c) == vis_ascii(d),
    ensures
        c == d,
{
    let vc = vis_ascii(c);
    let vd = vis_ascii(d);
    assert(vc.len() == vd.len());
    assert(vc[0] == vd[0]);
    if vc.len() == 2 {
        assert(vc[1] == vd[1]);
    }
}

/// Distinct bytes are rendered differently, so the rendering can always be read back.
pub proof fn lemma_vis_injective(a: u8, b: u8)
    requires
        vis_bytes(a) == vis_bytes(b),
    ensures
        a == b,
{
    let va = vis_bytes(a);
    let vb = vis_bytes(b);
    assert(va.len() == vb.len());
    if a >= 0x80 && b >= 0x80 {
        assert(vis_ascii((a - 0x80) as u8) =~= va.skip(2));
        assert(vis_ascii((b - 0x80) as u8) =~= vb.skip(2));
        lemma_vis_ascii_injective((a - 0x80) as u8, (b - 0x80) as u8);
    } else if a < 0x80 && b < 0x80 {
        lemma_vis_ascii_injective(a, b);
    } else if a >= 0x80 {
        assert(va.len() == 2 + vis_ascii((a - 0x80) as u8).len());
        assert(va.len() >= 3);
        assert(vb.len() <= 2);
    } else {
        assert(vb.len() == 2 + vis_ascii((b - 0x80) as u8).len());
        assert(vb.len() >= 3);
        assert(va.len() <= 2);
    }
}

} // verus!
