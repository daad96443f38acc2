//! The image resource section as a whole: every resource that a document
//! carries, each in its `8BIM` block, in the order the writer puts them.

use crate::bytes::{be16, be16_list, be32, i32_bits, lemma_be16_list_len};
use crate::error::PsdResult;
use crate::format::caption::{digest_bytes, digest_pairs_cuttable, digest_parses};
use crate::format::guides::{grid_and_guides_bytes, lemma_guides_bytes_len, StoredGridAndGuides};
use crate::format::image_resources::{
    be32_list, build_color_samplers_resource, build_thumbnail_resource, flag_byte, lacks_depth,
    lemma_be32_list_len, print_flags_bytes, samplers_bytes, single_sampler_version,
    thumbnail_header_bytes, thumbnail_header_of, thumbnail_sizes_fit, ColorSamplersResource,
    PrintFlags, ResourceVisibility, Thumbnail,
};
use crate::io::writer::{color_bytes, has_color_structure, pascal_bytes, unicode_bytes, PsdWriter};
use crate::psd::position_version;
use crate::types::Color;
use vstd::prelude::*;
use vstd::utf8::encode_utf8;

verus! {

/// The image resources of a document that the writer stores.
pub struct ImageResources {
    /// Background color (1010).
    pub background_color: Option<Color>,
    /// Print flags (1011).
    pub print_flags: Option<PrintFlags>,
    /// Target layer (1024).
    pub layer_state: Option<u16>,
    /// Layer group ids (1026).
    pub layer_group_ids: Option<Vec<u16>>,
    /// Grid and guides (1032).
    pub grid_and_guides: Option<StoredGridAndGuides>,
    /// Copyright flag (1034).
    pub copyrighted: Option<bool>,
    /// URL (1035).
    pub url: Option<String>,
    /// Global lighting angle (1037).
    pub global_angle: Option<i32>,
    /// Global lighting altitude (1049).
    pub global_altitude: Option<i32>,
    /// XMP metadata (1060).
    pub xmp_metadata: Option<String>,
    /// Caption digest as 32 hexadecimal digits (1061).
    pub caption_digest: Option<String>,
    /// Selected layer ids (1069).
    pub layer_selection_ids: Option<Vec<u32>>,
    /// Thumbnail (1036).
    pub thumbnail: Option<Thumbnail>,
    /// Alpha channel visibility (1072).
    pub resource_visibility_typed: Option<ResourceVisibility>,
    /// Color samplers (1073).
    pub color_samplers_typed: Option<ColorSamplersResource>,
    /// Name of the clipping path (2999).
    pub clipping_path_name: Option<String>,
    /// Alpha channel names (1006).
    pub alpha_names: Option<Vec<String>>,
    /// Alpha channel names in UTF-16 (1045).
    pub alpha_unicode_names: Option<Vec<String>>,
    /// Alpha channel identifiers (1053).
    pub alpha_identifiers: Option<Vec<u32>>,
    /// ICC profile (1039).
    pub icc_profile: Option<Vec<u8>>,
    /// Variables XML (7000).
    pub variables: Option<String>,
    /// Data sets XML (7001).
    pub data_sets: Option<String>,
}

impl Default for ImageResources {
    /// No resources at all.
    fn default() -> (r: ImageResources)
        ensures
            r.background_color is None,
            r.print_flags is None,
            r.layer_state is None,
            r.layer_group_ids is None,
            r.grid_and_guides is None,
            r.copyrighted is None,
            r.url is None,
            r.global_angle is None,
            r.global_altitude is None,
            r.xmp_metadata is None,
            r.caption_digest is None,
            r.layer_selection_ids is None,
            r.thumbnail is None,
            r.resource_visibility_typed is None,
            r.color_samplers_typed is None,
            r.clipping_path_name is None,
            r.alpha_names is None,
            r.alpha_unicode_names is None,
            r.alpha_identifiers is None,
            r.icc_profile is None,
            r.variables is None,
            r.data_sets is None,
    {
        ImageResources {
            background_color: None,
            print_flags: None,
            layer_state: None,
            layer_group_ids: None,
            grid_and_guides: None,
            copyrighted: None,
            url: None,
            global_angle: None,
            global_altitude: None,
            xmp_metadata: None,
            caption_digest: None,
            layer_selection_ids: None,
            thumbnail: None,
            resource_visibility_typed: None,
            color_samplers_typed: None,
            clipping_path_name: None,
            alpha_names: None,
            alpha_unicode_names: None,
            alpha_identifiers: None,
            icc_profile: None,
            variables: None,
            data_sets: None,
        }
    }
}

/// The block of one resource: `8BIM`, the id, an empty name padded to two
/// bytes, the data's length, the data, then a zero byte to an even length.
pub open spec fn resource_block(id: u16, data: Seq<u8>) -> Seq<u8> {
    seq![0x38u8, 0x42u8, 0x49u8, 0x4du8] + be16(id) + seq![0u8, 0u8] + be32(data.len() as u32) + data
        + if data.len() % 2 == 1 {
        seq![0u8]
    } else {
        Seq::<u8>::empty()
    }
}

/// The visibility flags as bytes, one per channel.
pub open spec fn visibility_bytes(values: Seq<bool>) -> Seq<u8> {
    Seq::new(values.len(), |i: int| if values[i] { 1u8 } else { 0u8 })
}

/// Alpha channel names, each as a length byte (the low byte of its length)
/// and its UTF-8 bytes.
pub open spec fn alpha_names_bytes(names: Seq<String>) -> Seq<u8>
    decreases names.len(),
{
    if names.len() == 0 {
        Seq::empty()
    } else {
        let b = encode_utf8(names.last()@);
        alpha_names_bytes(names.drop_last()) + seq![b.len() as u8] + b
    }
}

/// Alpha channel names, each as a UTF-16 string.
pub open spec fn unicode_names_bytes(names: Seq<String>) -> Seq<u8>
    decreases names.len(),
{
    if names.len() == 0 {
        Seq::empty()
    } else {
        unicode_names_bytes(names.drop_last()) + unicode_bytes(names.last()@)
    }
}

/// The data of a color samplers resource: version, count, samplers.
pub open spec fn samplers_data(s: ColorSamplersResource) -> Seq<u8> {
    be32(s.version) + be32(s.samplers@.len() as u32) + samplers_bytes(s.samplers@)
}

/// Whether a color samplers resource can be written: one position version,
/// the resource's own, and a depth wherever that version needs one.
pub open spec fn samplers_writable(s: ColorSamplersResource) -> bool {
    let ss = s.samplers@;
    &&& single_sampler_version(ss)
    &&& (ss.len() == 0 || position_version(ss[0].position) == s.version)
    &&& forall|k: int| 0 <= k < ss.len() ==> !lacks_depth(#[trigger] ss[k])
}

/// The data of a thumbnail resource: its header, then its pixels.
pub open spec fn thumbnail_data(t: Thumbnail) -> Seq<u8> {
    thumbnail_header_bytes(thumbnail_header_of(t.width, t.height, t.format, t.data@.len()))
        + t.data@
}

/// The blocks of the resources in writing order, each block present when
/// its resource is.
pub open spec fn resource_blocks(r: ImageResources) -> Seq<Seq<u8>> {
    seq![
        match r.background_color { Some(c) => resource_block(1010, color_bytes(Some(c))), None => seq![] },
        match r.print_flags { Some(f) => resource_block(1011, print_flags_bytes(f)), None => seq![] },
        match r.layer_state { Some(s) => resource_block(1024, be16(s)), None => seq![] },
        match r.layer_group_ids { Some(v) => resource_block(1026, be16_list(v@)), None => seq![] },
        match r.grid_and_guides {
            Some(g) => resource_block(1032, grid_and_guides_bytes(g.grid, g.guides@)),
            None => seq![],
        },
        match r.copyrighted { Some(b) => resource_block(1034, seq![flag_byte(b)]), None => seq![] },
        match r.url { Some(u) => resource_block(1035, encode_utf8(u@)), None => seq![] },
        match r.global_angle { Some(a) => resource_block(1037, be32(i32_bits(a))), None => seq![] },
        match r.global_altitude { Some(a) => resource_block(1049, be32(i32_bits(a))), None => seq![] },
        match r.xmp_metadata { Some(x) => resource_block(1060, encode_utf8(x@)), None => seq![] },
        match r.caption_digest {
            Some(d) => resource_block(1061, digest_bytes(encode_utf8(d@))),
            None => seq![],
        },
        match r.layer_selection_ids {
            Some(v) => resource_block(1069, be16(v@.len() as u16) + be32_list(v@)),
            None => seq![],
        },
        match r.thumbnail { Some(t) => resource_block(1036, thumbnail_data(t)), None => seq![] },
        match r.resource_visibility_typed {
            Some(v) => resource_block(1072, visibility_bytes(v.values@)),
            None => seq![],
        },
        match r.color_samplers_typed { Some(s) => resource_block(1073, samplers_data(s)), None => seq![] },
        match r.clipping_path_name {
            Some(n) => resource_block(2999, pascal_bytes(encode_utf8(n@), 2)),
            None => seq![],
        },
        match r.alpha_names { Some(v) => resource_block(1006, alpha_names_bytes(v@)), None => seq![] },
        match r.alpha_unicode_names {
            Some(v) => resource_block(1045, unicode_names_bytes(v@)),
            None => seq![],
        },
        match r.alpha_identifiers { Some(v) => resource_block(1053, be32_list(v@)), None => seq![] },
        match r.icc_profile { Some(p) => resource_block(1039, p@), None => seq![] },
        match r.variables { Some(x) => resource_block(7000, encode_utf8(x@)), None => seq![] },
        match r.data_sets { Some(x) => resource_block(7001, encode_utf8(x@)), None => seq![] },
    ]
}

/// The first `k` blocks, concatenated.
pub open spec fn blocks_prefix(blocks: Seq<Seq<u8>>, k: int) -> Seq<u8>
    decreases k,
{
    if k <= 0 {
        Seq::empty()
    } else {
        blocks_prefix(blocks, k - 1) + blocks[k - 1]
    }
}

/// The bytes of the image resource section's payload.
pub open spec fn image_resources_bytes(r: ImageResources) -> Seq<u8> {
    blocks_prefix(resource_blocks(r), 22)
}

/// Whether every resource can be written: a background color with a color
/// structure, a caption digest of sixteen hexadecimal pairs, color
/// samplers that agree on their version, and a clipping path name of at
/// most 255 bytes.
pub open spec fn image_resources_writable(r: ImageResources) -> bool {
    &&& (r.background_color matches Some(c) ==> has_color_structure(Some(c)))
    &&& (r.caption_digest matches Some(d) ==> digest_parses(encode_utf8(d@)))
    &&& (r.color_samplers_typed matches Some(s) ==> samplers_writable(s))
    &&& (r.clipping_path_name matches Some(n) ==> encode_utf8(n@).len() <= 255)
}

proof fn lemma_prefix_grows(blocks: Seq<Seq<u8>>, j: int, k: int)
    requires
        0 <= j <= k,
    ensures
        blocks_prefix(blocks, j).len() <= blocks_prefix(blocks, k).len(),
    decreases k,
{
    if j < k {
        lemma_prefix_grows(blocks, j, k - 1);
    }
}

proof fn lemma_unicode_names_len(names: Seq<String>, k: int)
    requires
        0 <= k < names.len(),
    ensures
        unicode_bytes(names[k]@).len() <= unicode_names_bytes(names).len(),
        unicode_names_bytes(names.take(k)).len() + unicode_bytes(names[k]@).len()
            <= unicode_names_bytes(names).len(),
    decreases names.len(),
{
    let rest = names.drop_last();
    if k < names.len() - 1 {
        lemma_unicode_names_len(rest, k);
        assert(rest[k] == names[k]);
        assert(rest.take(k) =~= names.take(k));
    } else {
        assert(rest =~= names.take(k));
    }
}

/// The bytes that a writer fresh at offset zero holds after writing.
fn finished(t: PsdWriter) -> (r: Vec<u8>)
    requires
        t.offset <= t.buffer@.len(),
    ensures
        r@ == t.written(),
{
    t.into_buffer()
}

fn visibility_data(values: &Vec<bool>) -> (r: Vec<u8>)
    ensures
        r@ == visibility_bytes(values@),
{
    let mut out: Vec<u8> = Vec::new();
    let mut i: usize = 0;
    while i < values.len()
        invariant
            i <= values@.len(),
            out@ =~= visibility_bytes(values@.take(i as int)),
        decreases values@.len() - i,
    {
        out.push(if values[i] { 1u8 } else { 0u8 });
        i += 1;
    }
    assert(values@.take(values@.len() as int) =~= values@);
    out
}

fn alpha_names_data(names: &Vec<String>) -> (r: Vec<u8>)
    ensures
        r@ == alpha_names_bytes(names@),
{
    let mut out: Vec<u8> = Vec::new();
    let mut i: usize = 0;
    while i < names.len()
        invariant
            i <= names@.len(),
            out@ == alpha_names_bytes(names@.take(i as int)),
        decreases names@.len() - i,
    {
        let bytes = names[i].as_str().as_bytes();
        let ghost before = out@;
        out.push(bytes.len() as u8);
        let mut j: usize = 0;
        while j < bytes.len()
            invariant
                j <= bytes@.len(),
                out@ == before + seq![bytes@.len() as u8] + bytes@.take(j as int),
            decreases bytes@.len() - j,
        {
            out.push(bytes[j]);
            j += 1;
            assert(out@ =~= before + seq![bytes@.len() as u8] + bytes@.take(j as int));
        }
        assert(bytes@.take(bytes@.len() as int) =~= bytes@);
        assert(names@.take(i + 1).drop_last() =~= names@.take(i as int));
        assert(names@.take(i + 1).last() == names@[i as int]);
        i += 1;
    }
    assert(names@.take(names@.len() as int) =~= names@);
    out
}

fn unicode_names_data(names: &Vec<String>) -> (r: Vec<u8>)
    requires
        unicode_names_bytes(names@).len() <= usize::MAX,
    ensures
        r@ == unicode_names_bytes(names@),
{
    let mut t = PsdWriter::new(0);
    assert(t.written().len() == t.offset);
    let mut i: usize = 0;
    while i < names.len()
        invariant
            i <= names@.len(),
            unicode_names_bytes(names@).len() <= usize::MAX,
            t.written() == unicode_names_bytes(names@.take(i as int)),
            t.offset == t.written().len(),
            t.offset <= t.buffer@.len(),
        decreases names@.len() - i,
    {
        proof {
            lemma_unicode_names_len(names@, i as int);
            crate::bytes::lemma_be16_list_len(crate::strings::utf16_encode(names@[i as int]@));
        }
        let _ = t.write_unicode_string(names[i].as_str());
        assert(names@.take(i + 1).drop_last() =~= names@.take(i as int));
        assert(names@.take(i + 1).last() == names@[i as int]);
        i += 1;
    }
    assert(names@.take(names@.len() as int) =~= names@);
    finished(t)
}

impl PsdWriter {
    /// Writes one resource block around `data`.
    pub fn write_resource_block(&mut self, id: u16, data: &[u8]) -> (r: PsdResult<()>)
        requires
            old(self).offset + resource_block(id, data@).len() <= usize::MAX,
        ensures
            r is Ok,
            old(self).appended(final(self), resource_block(id, data@)),
    {
        let ghost w0 = self.written();
        let signature = [0x38u8, 0x42u8, 0x49u8, 0x4du8];
        self.write_bytes(&signature)?;
        self.write_u16(id)?;
        self.write_u8(0)?;
        self.write_u8(0)?;
        self.write_u32(data.len() as u32)?;
        self.write_bytes(data)?;
        if data.len() % 2 != 0 {
            self.write_u8(0)?;
        }
        assert(self.written() =~= w0 + resource_block(id, data@));
        Ok(())
    }
}

/// The data of each resource, built on its own; `None` for an absent one.
fn resource_data(r: &ImageResources, k: usize) -> (out: PsdResult<Option<Vec<u8>>>)
    requires
        k < 22,
        resource_blocks(*r)[k as int].len() <= usize::MAX,
        r.caption_digest matches Some(d) ==> digest_pairs_cuttable(encode_utf8(d@), 0),
        r.thumbnail matches Some(t) ==> thumbnail_sizes_fit(t.width, t.height),
    ensures
        match out {
            Ok(Some(d)) => resource_blocks(*r)[k as int] == resource_block(resource_id(k as int), d@),
            Ok(None) => resource_blocks(*r)[k as int] == Seq::<u8>::empty(),
            Err(e) => (e is InvalidFormat || e is UnsupportedFeature) && !resource_writable(*r, k as int),
        },
        out is Ok <==> resource_writable(*r, k as int),
{
    let mut t = PsdWriter::new(0);
    let d: Vec<u8> = match k {
        0 => match &r.background_color {
            Some(c) => {
                t.write_color(Some(c))?;
                finished(t)
            },
            None => return Ok(None),
        },
        1 => match &r.print_flags {
            Some(f) => {
                let _ = t.write_print_flags(f);
                finished(t)
            },
            None => return Ok(None),
        },
        2 => match r.layer_state {
            Some(s) => {
                let _ = t.write_layer_state(s);
                finished(t)
            },
            None => return Ok(None),
        },
        3 => match &r.layer_group_ids {
            Some(v) => {
                proof {
                    lemma_be16_list_len(v@);
                }
                let _ = t.write_layer_group_ids(v.as_slice());
                finished(t)
            },
            None => return Ok(None),
        },
        4 => match &r.grid_and_guides {
            Some(g) => {
                proof {
                    lemma_guides_bytes_len(g.guides@);
                }
                let _ = t.write_grid_and_guides(g);
                finished(t)
            },
            None => return Ok(None),
        },
        5 => match r.copyrighted {
            Some(b) => {
                let _ = t.write_copyright_flag(b);
                finished(t)
            },
            None => return Ok(None),
        },
        6 => match &r.url {
            Some(u) => {
                let _ = t.write_url(u.as_str());
                finished(t)
            },
            None => return Ok(None),
        },
        7 => match r.global_angle {
            Some(a) => {
                let _ = t.write_global_angle(a);
                finished(t)
            },
            None => return Ok(None),
        },
        8 => match r.global_altitude {
            Some(a) => {
                let _ = t.write_global_altitude(a);
                finished(t)
            },
            None => return Ok(None),
        },
        9 => match &r.xmp_metadata {
            Some(x) => {
                let _ = t.write_xmp_metadata(x.as_str());
                finished(t)
            },
            None => return Ok(None),
        },
        10 => match &r.caption_digest {
            Some(d) => {
                t.write_caption_digest(d.as_str())?;
                finished(t)
            },
            None => return Ok(None),
        },
        11 => match &r.layer_selection_ids {
            Some(v) => {
                proof {
                    lemma_be32_list_len(v@);
                }
                let _ = t.write_layer_selection_ids(v.as_slice());
                finished(t)
            },
            None => return Ok(None),
        },
        12 => match &r.thumbnail {
            Some(th) => build_thumbnail_resource(th),
            None => return Ok(None),
        },
        13 => match &r.resource_visibility_typed {
            Some(v) => visibility_data(&v.values),
            None => return Ok(None),
        },
        14 => match &r.color_samplers_typed {
            Some(s) => build_color_samplers_resource(s)?,
            None => return Ok(None),
        },
        15 => match &r.clipping_path_name {
            Some(n) => {
                t.write_pascal_string(n.as_str(), 2)?;
                finished(t)
            },
            None => return Ok(None),
        },
        16 => match &r.alpha_names {
            Some(v) => alpha_names_data(v),
            None => return Ok(None),
        },
        17 => match &r.alpha_unicode_names {
            Some(v) => unicode_names_data(v),
            None => return Ok(None),
        },
        18 => match &r.alpha_identifiers {
            Some(v) => {
                proof {
                    lemma_be32_list_len(v@);
                }
                let mut out: Vec<u8> = Vec::new();
                let mut i: usize = 0;
                while i < v.len()
                    invariant
                        i <= v@.len(),
                        out@ == be32_list(v@.take(i as int)),
                    decreases v@.len() - i,
                {
                    let x = v[i];
                    out.push((x / 16777216) as u8);
                    out.push(((x / 65536) % 256) as u8);
                    out.push(((x / 256) % 256) as u8);
                    out.push((x % 256) as u8);
                    assert(v@.take(i + 1).drop_last() =~= v@.take(i as int));
                    assert(out@ =~= be32_list(v@.take(i + 1)));
                    i += 1;
                }
                assert(v@.take(v@.len() as int) =~= v@);
                out
            },
            None => return Ok(None),
        },
        19 => match &r.icc_profile {
            Some(p) => p.clone(),
            None => return Ok(None),
        },
        20 => match &r.variables {
            Some(x) => {
                let _ = t.write_bytes(x.as_str().as_bytes());
                finished(t)
            },
            None => return Ok(None),
        },
        _ => match &r.data_sets {
            Some(x) => {
                let _ = t.write_bytes(x.as_str().as_bytes());
                finished(t)
            },
            None => return Ok(None),
        },
    };
    Ok(Some(d))
}

/// The id of the resource at position `k` of the writing order.
pub open spec fn resource_id(k: int) -> u16 {
    if k == 0 { 1010 } else if k == 1 { 1011 } else if k == 2 { 1024 } else if k == 3 { 1026 }
    else if k == 4 { 1032 } else if k == 5 { 1034 } else if k == 6 { 1035 } else if k == 7 { 1037 }
    else if k == 8 { 1049 } else if k == 9 { 1060 } else if k == 10 { 1061 } else if k == 11 { 1069 }
    else if k == 12 { 1036 } else if k == 13 { 1072 } else if k == 14 { 1073 } else if k == 15 { 2999 }
    else if k == 16 { 1006 } else if k == 17 { 1045 } else if k == 18 { 1053 } else if k == 19 { 1039 }
    else if k == 20 { 7000 } else { 7001 }
}

/// Whether the resource at position `k` can be written.
pub open spec fn resource_writable(r: ImageResources, k: int) -> bool {
    if k == 0 {
        r.background_color matches Some(c) ==> has_color_structure(Some(c))
    } else if k == 10 {
        r.caption_digest matches Some(d) ==> digest_parses(encode_utf8(d@))
    } else if k == 14 {
        r.color_samplers_typed matches Some(s) ==> samplers_writable(s)
    } else if k == 15 {
        r.clipping_path_name matches Some(n) ==> encode_utf8(n@).len() <= 255
    } else {
        true
    }
}

/// Writes the payload of the image resource section: a block for every
/// resource present, in a fixed order.  A resource that cannot be written
/// stops the writing with its error.
pub fn write_image_resources(writer: &mut PsdWriter, resources: &ImageResources) -> (r: PsdResult<()>)
    requires
        old(writer).offset <= old(writer).buffer@.len(),
        old(writer).offset + image_resources_bytes(*resources).len() <= usize::MAX,
        resources.caption_digest matches Some(d) ==> digest_pairs_cuttable(encode_utf8(d@), 0),
        resources.thumbnail matches Some(t) ==> thumbnail_sizes_fit(t.width, t.height),
    ensures
        r is Ok <==> image_resources_writable(*resources),
        r is Ok ==> old(writer).appended(final(writer), image_resources_bytes(*resources)),
        r matches Err(e) ==> e is InvalidFormat || e is UnsupportedFeature,
{
    let ghost blocks = resource_blocks(*resources);
    let ghost w0 = writer.written();
    assert(blocks_prefix(blocks, 0) =~= Seq::<u8>::empty());
    assert(w0 + Seq::<u8>::empty() =~= w0);
    let mut k: usize = 0;
    while k < 22
        invariant
            k <= 22,
            blocks == resource_blocks(*resources),
            old(writer).offset + blocks_prefix(blocks, 22).len() <= usize::MAX,
            resources.caption_digest matches Some(d) ==> digest_pairs_cuttable(encode_utf8(d@), 0),
            resources.thumbnail matches Some(t) ==> thumbnail_sizes_fit(t.width, t.height),
            old(writer).appended(writer, blocks_prefix(blocks, k as int)),
            forall|j: int| 0 <= j < k ==> resource_writable(*resources, j),
        decreases 22 - k,
    {
        proof {
            lemma_prefix_grows(blocks, k + 1, 22);
        }
        let data = resource_data(resources, k)?;
        if let Some(d) = data {
            writer.write_resource_block(resource_id_of(k), d.as_slice())?;
        }
        assert(blocks_prefix(blocks, k + 1) == blocks_prefix(blocks, k as int) + blocks[k as int]);
        assert(writer.written() =~= old(writer).written() + blocks_prefix(blocks, k + 1));
        k += 1;
    }
    assert(resource_writable(*resources, 0) && resource_writable(*resources, 10)
        && resource_writable(*resources, 14) && resource_writable(*resources, 15));
    Ok(())
}

/// The id of the resource at position `k` of the writing order.
fn resource_id_of(k: usize) -> (r: u16)
    ensures
        r == resource_id(k as int),
{
    match k {
        0 => 1010,
        1 => 1011,
        2 => 1024,
        3 => 1026,
        4 => 1032,
        5 => 1034,
        6 => 1035,
        7 => 1037,
        8 => 1049,
        9 => 1060,
        10 => 1061,
        11 => 1069,
        12 => 1036,
        13 => 1072,
        14 => 1073,
        15 => 2999,
        16 => 1006,
        17 => 1045,
        18 => 1053,
        19 => 1039,
        20 => 7000,
        _ => 7001,
    }
}

} // verus!
