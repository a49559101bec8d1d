//! Ordinary serializable resource data: skeletons, textures, materials.
//! These are leaf and aggregate values the resource manager loads by
//! path; only their persisted shapes live here, the loading itself is
//! host I/O.

use vstd::prelude::*;

verus! {

use crate::bytes::{senc_u16, senc_u8, senc_str, sdec_u16, sdec_u8, sdec_str, stream_from,
    encode_u16, encode_u8, encode_string, decode_u16, decode_u8, decode_string,
    lemma_u16_round_trip, lemma_u8_round_trip, lemma_str_round_trip};
use crate::component::ExtRes;
use vstd::utf8::encode_utf8;

/// Skeleton data: presently the bone count alone.
pub struct Skeleton {
    pub bone_count: u16,
}

impl Skeleton {
    /// A fresh, empty skeleton.
    pub fn new() -> (r: Box<Skeleton>)
        ensures
            r.bone_count == 0,
    {
        Box::new(Skeleton { bone_count: 0 })
    }

    /// The persisted encoding: the bone count, little endian.
    pub open spec fn senc(self) -> Seq<u8> {
        senc_u16(self.bone_count)
    }

    pub fn serialize_binary(&self, out: &mut Vec<u8>)
        ensures
            final(out)@ == old(out)@ + self.senc(),
    {
        encode_u16(out, self.bone_count);
    }

    pub fn deserialize_binary(data: &Vec<u8>, pos: &mut usize) -> (r: Option<Skeleton>)
        requires
            *old(pos) <= data@.len(),
        ensures
            *old(pos) <= *final(pos) <= data@.len(),
            match r {
                Some(v) => sdec_u16(stream_from(data@, *old(pos) as int)) == Some((
                    v.bone_count,
                    *final(pos) - *old(pos),
                )),
                None => sdec_u16(stream_from(data@, *old(pos) as int)) is None && *final(pos)
                    == *old(pos),
            },
    {
        match decode_u16(data, pos) {
            Some(b) => Some(Skeleton { bone_count: b }),
            None => None,
        }
    }
}

/// Texture data: presently the pixel format tag alone.
pub struct Texture {
    pub pixel_format: u8,
}

impl Texture {
    /// A fresh texture with the default pixel format.
    pub fn new() -> (r: Box<Texture>)
        ensures
            r.pixel_format == 0,
    {
        Box::new(Texture { pixel_format: 0 })
    }

    /// The persisted encoding: the pixel format byte.
    pub open spec fn senc(self) -> Seq<u8> {
        senc_u8(self.pixel_format)
    }

    pub fn serialize_binary(&self, out: &mut Vec<u8>)
        ensures
            final(out)@ == old(out)@ + self.senc(),
    {
        encode_u8(out, self.pixel_format);
    }

    pub fn deserialize_binary(data: &Vec<u8>, pos: &mut usize) -> (r: Option<Texture>)
        requires
            *old(pos) <= data@.len(),
        ensures
            *old(pos) <= *final(pos) <= data@.len(),
            match r {
                Some(v) => sdec_u8(stream_from(data@, *old(pos) as int)) == Some((
                    v.pixel_format,
                    *final(pos) - *old(pos),
                )),
                None => sdec_u8(stream_from(data@, *old(pos) as int)) is None && *final(pos)
                    == *old(pos),
            },
    {
        match decode_u8(data, pos) {
            Some(b) => Some(Texture { pixel_format: b }),
            None => None,
        }
    }
}

/// Material data: a display name and a texture resource reference.
pub struct Material {
    pub name: String,
    pub tex: ExtRes,
}

/// The persisted encoding of a material: its name, then the texture path
/// (an external resource persists as its path alone).
pub open spec fn senc_material(name: Seq<char>, tex_path: Seq<char>) -> Seq<u8> {
    senc_str(name) + senc_str(tex_path)
}

impl Material {
    pub fn serialize_binary(&self, out: &mut Vec<u8>)
        ensures
            final(out)@ == old(out)@ + senc_material(self.name@, self.tex.path@),
    {
        encode_string(out, &self.name);
        encode_string(out, &self.tex.path);
        assert(final(out)@ =~= old(out)@ + senc_material(self.name@, self.tex.path@));
    }
}

/// Materials decode back from their encoding, whatever follows.
pub proof fn lemma_material_round_trip(name: Seq<char>, tex_path: Seq<char>, rest: Seq<u8>)
    requires
        encode_utf8(name).len() < 0x8000_0000_0000_0000,
        encode_utf8(tex_path).len() < 0x8000_0000_0000_0000,
    ensures
        ({
            let whole = senc_material(name, tex_path) + rest;
            sdec_str(whole) == Some((name, senc_str(name).len() as int))
                && sdec_str(whole.skip(senc_str(name).len() as int)) == Some((
                tex_path,
                senc_str(tex_path).len() as int,
            ))
        }),
{
    let whole = senc_material(name, tex_path) + rest;
    assert(whole =~= senc_str(name) + (senc_str(tex_path) + rest));
    lemma_str_round_trip(name, senc_str(tex_path) + rest);
    assert(whole.skip(senc_str(name).len() as int) =~= senc_str(tex_path) + rest);
    lemma_str_round_trip(tex_path, rest);
}

} // verus!
