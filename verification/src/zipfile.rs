//! A zip archive of stored (uncompressed) files.
use vstd::prelude::*;
use vstd::utf8::encode_utf8;
use crate::le::{le16, le32, push16, push32};

verus! {

/// One step of the bit-reflected CRC-32 register.
pub open spec fn crc_bit(c: u32) -> u32 {
    if c & 1 == 1 {
        (c >> 1u32) ^ 0xedb8_8320u32
    } else {
        c >> 1u32
    }
}

pub open spec fn crc_bits(c: u32, k: nat) -> u32
    decreases k,
{
    if k == 0 {
        c
    } else {
        crc_bits(crc_bit(c), (k - 1) as nat)
    }
}

/// The register after feeding `bytes` into a register that starts all ones.
pub open spec fn crc_register(bytes: Seq<u8>) -> u32
    decreases bytes.len(),
{
    if bytes.len() == 0 {
        0xffff_ffffu32
    } else {
        crc_bits(crc_register(bytes.drop_last()) ^ (bytes.last() as u32), 8)
    }
}

/// The CRC-32 (ISO-HDLC) of `bytes`.
pub open spec fn spec_crc32(bytes: Seq<u8>) -> u32 {
    !crc_register(bytes)
}

/// The CRC-32 of `bytes`, as zip archives store it.
pub fn crc32(bytes: &[u8]) -> (r: u32)
    ensures
        r == spec_crc32(bytes@),
{
    let mut crc: u32 = 0xffff_ffff;
    let mut i: usize = 0;
    while i < bytes.len()
        invariant
            i <= bytes@.len(),
            crc == crc_register(bytes@.take(i as int)),
        decreases bytes@.len() - i,
    {
        assert(bytes@.take(i + 1).drop_last() =~= bytes@.take(i as int));
        crc = crc ^ (bytes[i] as u32);
        let mut k: usize = 0;
        let ghost start = crc;
        while k < 8
            invariant
                k <= 8,
                crc_bits(start, 8) == crc_bits(crc, (8 - k) as nat),
            decreases 8 - k,
        {
            if crc & 1 == 1 {
                crc = (crc >> 1u32) ^ 0xedb8_8320u32;
            } else {
                crc = crc >> 1u32;
            }
            k += 1;
        }
        i += 1;
    }
    assert(bytes@.take(bytes@.len() as int) =~= bytes@);
    !crc
}

/// The local header and contents of one stored file.
pub open spec fn local_entry(name: Seq<u8>, data: Seq<u8>) -> Seq<u8> {
    le32(0x0403_4b50) + le16(20) + le16(0x0800) + le16(0) + le16(0) + le16(0x21) + le32(
        spec_crc32(data),
    ) + le32(data.len() as u32) + le32(data.len() as u32) + le16(name.len() as u16) + le16(0)
        + name + data
}

/// The central directory record of one stored file whose local header is at `offset`.
pub open spec fn central_entry(name: Seq<u8>, data: Seq<u8>, offset: u32) -> Seq<u8> {
    le32(0x0201_4b50) + le16(20) + le16(20) + le16(0x0800) + le16(0) + le16(0) + le16(0x21)
        + le32(spec_crc32(data)) + le32(data.len() as u32) + le32(data.len() as u32) + le16(
        name.len() as u16,
    ) + le16(0) + le16(0) + le16(0) + le16(0) + le32(0) + le32(offset) + name
}

/// The files as (name bytes, contents).
pub open spec fn entries(files: Seq<(String, Vec<u8>)>) -> Seq<(Seq<u8>, Seq<u8>)> {
    files.map_values(|f: (String, Vec<u8>)| (encode_utf8(f.0@), f.1@))
}

/// The local entries of the files, one after another.
pub open spec fn locals(fs: Seq<(Seq<u8>, Seq<u8>)>) -> Seq<u8>
    decreases fs.len(),
{
    if fs.len() == 0 {
        Seq::empty()
    } else {
        locals(fs.drop_last()) + local_entry(fs.last().0, fs.last().1)
    }
}

/// The central directory of the files, each record pointing at its local entry.
pub open spec fn centrals(fs: Seq<(Seq<u8>, Seq<u8>)>) -> Seq<u8>
    decreases fs.len(),
{
    if fs.len() == 0 {
        Seq::empty()
    } else {
        centrals(fs.drop_last()) + central_entry(
            fs.last().0,
            fs.last().1,
            locals(fs.drop_last()).len() as u32,
        )
    }
}

/// The end of central directory record.
pub open spec fn end_record(count: int, central_len: int, central_offset: int) -> Seq<u8> {
    le32(0x0605_4b50) + le16(0) + le16(0) + le16(count as u16) + le16(count as u16) + le32(
        central_len as u32,
    ) + le32(central_offset as u32) + le16(0)
}

/// The archive of the files.
pub open spec fn spec_zip(fs: Seq<(Seq<u8>, Seq<u8>)>) -> Seq<u8> {
    locals(fs) + centrals(fs) + end_record(fs.len() as int, centrals(fs).len() as int, locals(fs).len() as int)
}

/// Builds a zip archive that stores the files uncompressed, in order.
pub fn build(files: &[(String, Vec<u8>)]) -> (out: Vec<u8>)
    ensures
        out@ == spec_zip(entries(files@)),
{
    let ghost fs = entries(files@);
    let mut out: Vec<u8> = Vec::new();
    let mut central: Vec<u8> = Vec::new();
    let mut i: usize = 0;
    while i < files.len()
        invariant
            i <= files@.len(),
            fs == entries(files@),
            out@ == locals(fs.take(i as int)),
            central@ == centrals(fs.take(i as int)),
        decreases files@.len() - i,
    {
        let name = files[i].0.as_str().as_bytes();
        let data = files[i].1.as_slice();
        proof {
            assert(fs.take(i + 1).drop_last() =~= fs.take(i as int));
            assert(fs.take(i + 1).last() == (name@, data@));
        }
        let crc = crc32(data);
        let offset = out.len() as u32;
        let ghost before = out@;
        push32(&mut out, 0x0403_4b50);
        push16(&mut out, 20);
        push16(&mut out, 0x0800);
        push16(&mut out, 0);
        push16(&mut out, 0);
        push16(&mut out, 0x21);
        push32(&mut out, crc);
        push32(&mut out, data.len() as u32);
        push32(&mut out, data.len() as u32);
        push16(&mut out, name.len() as u16);
        push16(&mut out, 0);
        out.extend_from_slice(name);
        out.extend_from_slice(data);
        assert(out@ =~= before + local_entry(name@, data@));
        let ghost cbefore = central@;
        push32(&mut central, 0x0201_4b50);
        push16(&mut central, 20);
        push16(&mut central, 20);
        push16(&mut central, 0x0800);
        push16(&mut central, 0);
        push16(&mut central, 0);
        push16(&mut central, 0x21);
        push32(&mut central, crc);
        push32(&mut central, data.len() as u32);
        push32(&mut central, data.len() as u32);
        push16(&mut central, name.len() as u16);
        push16(&mut central, 0);
        push16(&mut central, 0);
        push16(&mut central, 0);
        push16(&mut central, 0);
        push32(&mut central, 0);
        push32(&mut central, offset);
        central.extend_from_slice(name);
        assert(central@ =~= cbefore + central_entry(name@, data@, offset));
        i += 1;
    }
    assert(fs.take(files@.len() as int) =~= fs);
    let central_offset = out.len() as u32;
    let central_len = central.len() as u32;
    let ghost before = out@;
    out.extend_from_slice(central.as_slice());
    push32(&mut out, 0x0605_4b50);
    push16(&mut out, 0);
    push16(&mut out, 0);
    push16(&mut out, files.len() as u16);
    push16(&mut out, files.len() as u16);
    push32(&mut out, central_len);
    push32(&mut out, central_offset);
    push16(&mut out, 0);
    assert(out@ =~= spec_zip(fs));
    out
}

} // verus!
