//! The composite cache key: one byte-sequence encoding for the three
//! request shapes (load a file by path, render text, render wrapped text),
//! so that one cache can hold all three without collisions between shapes.

use vstd::prelude::*;

verus! {

/// Little-endian byte encoding of a 16-bit value.
pub open spec fn u16_le_bytes(v: u16) -> Seq<u8> {
    seq![(v & 0xff) as u8, ((v >> 8) & 0xff) as u8]
}

/// Little-endian byte encoding of a 32-bit value.
pub open spec fn u32_le_bytes(v: u32) -> Seq<u8> {
    seq![
        (v & 0xff) as u8,
        ((v >> 8) & 0xff) as u8,
        ((v >> 16) & 0xff) as u8,
        ((v >> 24) & 0xff) as u8,
    ]
}

/// The trailing part shared by both text variants: the text bytes, an
/// explicit zero terminator, then the font file path bytes.
pub open spec fn text_and_path(text: Seq<u8>, font_file: Seq<u8>) -> Seq<u8> {
    text + seq![0u8] + font_file
}

/// Key for a texture loaded from a file path.
pub open spec fn path_key(path: Seq<u8>) -> Seq<u8> {
    seq![0u8] + path
}

/// Key for text rendered with a font file at a point size.
pub open spec fn rendered_text_key(text: Seq<u8>, font_file: Seq<u8>, point_size: u16) -> Seq<u8> {
    seq![1u8] + u16_le_bytes(point_size) + text_and_path(text, font_file)
}

/// Key for text rendered with a font file at a point size, wrapped at a
/// pixel width.
pub open spec fn rendered_wrapped_text_key(
    text: Seq<u8>,
    font_file: Seq<u8>,
    point_size: u16,
    wrap_width: u32,
) -> Seq<u8> {
    seq![2u8] + u16_le_bytes(point_size) + u32_le_bytes(wrap_width) + text_and_path(
        text,
        font_file,
    )
}

/// True when no byte of `s` is zero. Text handed to the encoder never
/// contains the terminator byte itself; under that condition keys within
/// one variant are injective.
pub open spec fn has_no_zero(s: Seq<u8>) -> bool {
    forall|i: int| 0 <= i < s.len() ==> s[i] != 0
}

/// Contains one encoded resource request, used as a cache key.
///
/// One of three variants, identified by the first byte:
///
/// - texture from file: `0x00` + path bytes
/// - rendered text: `0x01` + point size (2 bytes LE) + text bytes + `0x00`
///   + path bytes
/// - rendered wrapped text: `0x02` + point size (2 bytes LE) + wrap width
///   (4 bytes LE) + text bytes + `0x00` + path bytes
#[derive(Hash)]
pub struct FileOrRenderedTextKey {
    data: Vec<u8>,
}

impl View for FileOrRenderedTextKey {
    type V = Seq<u8>;

    closed spec fn view(&self) -> Seq<u8> {
        self.data@
    }
}

impl FileOrRenderedTextKey {
    /// Encode a load-by-path request.
    pub fn from_path(texture_path: &[u8]) -> (r: Self)
        ensures
            r@ == path_key(texture_path@),
    {
        let mut data: Vec<u8> = Vec::new();
        data.push(0u8);
        data.extend_from_slice(texture_path);
        proof {
            assert(data@ =~= path_key(texture_path@));
        }
        Self { data }
    }

    /// Encode a render-text request. The zero terminator after the text is
    /// appended here; `text` itself is taken as-is.
    pub fn from_rendered_text(text: &[u8], font_file: &[u8], point_size: u16) -> (r: Self)
        ensures
            r@ == rendered_text_key(text@, font_file@, point_size),
    {
        let mut data: Vec<u8> = Vec::new();
        data.push(1u8);
        data.push((point_size & 0xff) as u8);
        data.push(((point_size >> 8) & 0xff) as u8);
        data.extend_from_slice(text);
        data.push(0u8);
        data.extend_from_slice(font_file);
        proof {
            assert(data@ =~= rendered_text_key(text@, font_file@, point_size));
        }
        Self { data }
    }

    /// Encode a render-wrapped-text request.
    pub fn from_rendered_wrapped_text(
        text: &[u8],
        font_file: &[u8],
        point_size: u16,
        wrap_width: u32,
    ) -> (r: Self)
        ensures
            r@ == rendered_wrapped_text_key(text@, font_file@, point_size, wrap_width),
    {
        let mut data: Vec<u8> = Vec::new();
        data.push(2u8);
        data.push((point_size & 0xff) as u8);
        data.push(((point_size >> 8) & 0xff) as u8);
        data.push((wrap_width & 0xff) as u8);
        data.push(((wrap_width >> 8) & 0xff) as u8);
        data.push(((wrap_width >> 16) & 0xff) as u8);
        data.push(((wrap_width >> 24) & 0xff) as u8);
        data.extend_from_slice(text);
        data.push(0u8);
        data.extend_from_slice(font_file);
        proof {
            assert(data@ =~= rendered_wrapped_text_key(
                text@,
                font_file@,
                point_size,
                wrap_width,
            ));
        }
        Self { data }
    }

    /// The raw encoded bytes.
    pub fn as_bytes(&self) -> (r: &[u8])
        ensures
            r@ == self@,
    {
        self.data.as_slice()
    }

    /// Give up the key, keeping only the encoded bytes.
    pub fn into_bytes(self) -> (r: Vec<u8>)
        ensures
            r@ == self@,
    {
        self.data
    }
}

impl PartialEq for FileOrRenderedTextKey {
    /// Equality is equality of the raw byte sequences.
    fn eq(&self, other: &Self) -> (r: bool) {
        let r = self.data == other.data;
        proof {
            if r {
                assert(self.data@ =~= other.data@);
            } else {
                if self.data@ == other.data@ {
                    assert(forall|i: int|
                        0 <= i < self.data@.len() ==> self.data@[i] == #[trigger] other.data@[i]);
                    assert(false);
                }
            }
        }
        r
    }
}

impl Eq for FileOrRenderedTextKey {
}

impl vstd::std_specs::cmp::PartialEqSpecImpl for FileOrRenderedTextKey {
    open spec fn obeys_eq_spec() -> bool {
        true
    }

    open spec fn eq_spec(&self, other: &Self) -> bool {
        self@ == other@
    }
}

/// No two distinct request shapes ever encode to the same byte sequence:
/// the leading discriminant byte differs between the three variants.
pub proof fn lemma_key_variants_distinct(
    path: Seq<u8>,
    text: Seq<u8>,
    font_file: Seq<u8>,
    point_size: u16,
    wrap_width: u32,
)
    ensures
        path_key(path) != rendered_text_key(text, font_file, point_size),
        path_key(path) != rendered_wrapped_text_key(text, font_file, point_size, wrap_width),
        rendered_text_key(text, font_file, point_size) != rendered_wrapped_text_key(
            text,
            font_file,
            point_size,
            wrap_width,
        ),
{
    assert(path_key(path)[0] == 0u8);
    assert(rendered_text_key(text, font_file, point_size)[0] == 1u8);
    assert(rendered_wrapped_text_key(text, font_file, point_size, wrap_width)[0] == 2u8);
}

/// Within the load-by-path variant the encoding is injective: equal keys
/// come only from equal paths.
pub proof fn lemma_path_key_injective(p1: Seq<u8>, p2: Seq<u8>)
    requires
        path_key(p1) == path_key(p2),
    ensures
        p1 == p2,
{
    assert(path_key(p1).len() == 1 + p1.len());
    assert(path_key(p2).len() == 1 + p2.len());
    assert forall|i: int| 0 <= i < p1.len() implies p1[i] == p2[i] by {
        assert(path_key(p1)[i + 1] == p1[i]);
        assert(path_key(p2)[i + 1] == p2[i]);
    }
    assert(p1 =~= p2);
}

/// The two little-endian bytes determine the 16-bit value.
pub proof fn lemma_u16_le_injective(a: u16, b: u16)
    requires
        u16_le_bytes(a) == u16_le_bytes(b),
    ensures
        a == b,
{
    assert(u16_le_bytes(a)[0] == u16_le_bytes(b)[0]);
    assert(u16_le_bytes(a)[1] == u16_le_bytes(b)[1]);
    assert((a & 0xff) as u8 == (b & 0xff) as u8 && ((a >> 8) & 0xff) as u8 == ((b >> 8)
        & 0xff) as u8 ==> a == b) by (bit_vector);
}

/// The four little-endian bytes determine the 32-bit value.
pub proof fn lemma_u32_le_injective(a: u32, b: u32)
    requires
        u32_le_bytes(a) == u32_le_bytes(b),
    ensures
        a == b,
{
    assert(u32_le_bytes(a)[0] == u32_le_bytes(b)[0]);
    assert(u32_le_bytes(a)[1] == u32_le_bytes(b)[1]);
    assert(u32_le_bytes(a)[2] == u32_le_bytes(b)[2]);
    assert(u32_le_bytes(a)[3] == u32_le_bytes(b)[3]);
    assert((a & 0xff) as u8 == (b & 0xff) as u8 && ((a >> 8) & 0xff) as u8 == ((b >> 8)
        & 0xff) as u8 && ((a >> 16) & 0xff) as u8 == ((b >> 16) & 0xff) as u8 && ((a >> 24)
        & 0xff) as u8 == ((b >> 24) & 0xff) as u8 ==> a == b) by (bit_vector);
}

/// For text without interior zero bytes, the terminator pins down where
/// the text ends, so the text-then-path tail is injective.
pub proof fn lemma_text_and_path_injective(t1: Seq<u8>, f1: Seq<u8>, t2: Seq<u8>, f2: Seq<u8>)
    requires
        has_no_zero(t1),
        has_no_zero(t2),
        text_and_path(t1, f1) == text_and_path(t2, f2),
    ensures
        t1 == t2,
        f1 == f2,
{
    let s = text_and_path(t1, f1);
    assert(s.len() == t1.len() + 1 + f1.len());
    assert(s.len() == t2.len() + 1 + f2.len());
    // the first zero byte of the tail sits exactly at the text's length
    assert(s[t1.len() as int] == 0u8);
    assert(s[t2.len() as int] == 0u8);
    if t1.len() < t2.len() {
        assert(s[t1.len() as int] == t2[t1.len() as int]);
        assert(false);
    }
    if t2.len() < t1.len() {
        assert(s[t2.len() as int] == t1[t2.len() as int]);
        assert(false);
    }
    assert(t1.len() == t2.len());
    assert forall|i: int| 0 <= i < t1.len() implies t1[i] == t2[i] by {
        assert(s[i] == t1[i]);
        assert(s[i] == t2[i]);
    }
    assert(t1 =~= t2);
    assert forall|i: int| 0 <= i < f1.len() implies f1[i] == f2[i] by {
        assert(s[t1.len() + 1 + i] == f1[i]);
        assert(s[t2.len() + 1 + i] == f2[i]);
    }
    assert(f1 =~= f2);
}

/// Within the rendered-text variant, keys built from text without interior
/// zero bytes are injective in all three fields.
pub proof fn lemma_rendered_text_key_injective(
    t1: Seq<u8>,
    f1: Seq<u8>,
    ps1: u16,
    t2: Seq<u8>,
    f2: Seq<u8>,
    ps2: u16,
)
    requires
        has_no_zero(t1),
        has_no_zero(t2),
        rendered_text_key(t1, f1, ps1) == rendered_text_key(t2, f2, ps2),
    ensures
        t1 == t2,
        f1 == f2,
        ps1 == ps2,
{
    let k1 = rendered_text_key(t1, f1, ps1);
    let k2 = rendered_text_key(t2, f2, ps2);
    assert(u16_le_bytes(ps1) =~= u16_le_bytes(ps2)) by {
        assert(k1[1] == u16_le_bytes(ps1)[0] && k1[2] == u16_le_bytes(ps1)[1]);
        assert(k2[1] == u16_le_bytes(ps2)[0] && k2[2] == u16_le_bytes(ps2)[1]);
    }
    lemma_u16_le_injective(ps1, ps2);
    assert(text_and_path(t1, f1) =~= text_and_path(t2, f2)) by {
        assert(k1.len() == 3 + text_and_path(t1, f1).len());
        assert forall|i: int| 0 <= i < text_and_path(t1, f1).len() implies text_and_path(t1, f1)[i]
            == text_and_path(t2, f2)[i] by {
            assert(k1[3 + i] == text_and_path(t1, f1)[i]);
            assert(k2[3 + i] == text_and_path(t2, f2)[i]);
        }
    }
    lemma_text_and_path_injective(t1, f1, t2, f2);
}

/// Within the rendered-wrapped-text variant, keys built from text without
/// interior zero bytes are injective in all four fields.
pub proof fn lemma_rendered_wrapped_text_key_injective(
    t1: Seq<u8>,
    f1: Seq<u8>,
    ps1: u16,
    w1: u32,
    t2: Seq<u8>,
    f2: Seq<u8>,
    ps2: u16,
    w2: u32,
)
    requires
        has_no_zero(t1),
        has_no_zero(t2),
        rendered_wrapped_text_key(t1, f1, ps1, w1) == rendered_wrapped_text_key(t2, f2, ps2, w2),
    ensures
        t1 == t2,
        f1 == f2,
        ps1 == ps2,
        w1 == w2,
{
    let k1 = rendered_wrapped_text_key(t1, f1, ps1, w1);
    let k2 = rendered_wrapped_text_key(t2, f2, ps2, w2);
    assert(u16_le_bytes(ps1) =~= u16_le_bytes(ps2)) by {
        assert(k1[1] == u16_le_bytes(ps1)[0] && k1[2] == u16_le_bytes(ps1)[1]);
        assert(k2[1] == u16_le_bytes(ps2)[0] && k2[2] == u16_le_bytes(ps2)[1]);
    }
    lemma_u16_le_injective(ps1, ps2);
    assert(u32_le_bytes(w1) =~= u32_le_bytes(w2)) by {
        assert forall|i: int| 0 <= i < 4 implies u32_le_bytes(w1)[i] == u32_le_bytes(w2)[i] by {
            assert(k1[3 + i] == u32_le_bytes(w1)[i]);
            assert(k2[3 + i] == u32_le_bytes(w2)[i]);
        }
    }
    lemma_u32_le_injective(w1, w2);
    assert(text_and_path(t1, f1) =~= text_and_path(t2, f2)) by {
        assert(k1.len() == 7 + text_and_path(t1, f1).len());
        assert forall|i: int| 0 <= i < text_and_path(t1, f1).len() implies text_and_path(t1, f1)[i]
            == text_and_path(t2, f2)[i] by {
            assert(k1[7 + i] == text_and_path(t1, f1)[i]);
            assert(k2[7 + i] == text_and_path(t2, f2)[i]);
        }
    }
    lemma_text_and_path_injective(t1, f1, t2, f2);
}

} // verus!
