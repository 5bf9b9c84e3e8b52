//! Sprite sheet container format.
//!
//! A sprite sheet pairs a raster image with a named table of rectangular
//! sub-regions ("sprites"). This crate implements the binary single-file
//! encoding of such a sheet (a raw image section followed by a mapping-table
//! section), the decoding of that encoding with full validation (version
//! gating, truncation checks, UTF-8 checks, size-overflow checks), and the
//! extraction of a named sprite as an independent pixel buffer.

use vstd::prelude::*;

pub mod codec;
pub mod mapping;

use crate::codec::{
    le32_at, lemma_u32_le_round_trip, push_bytes, push_u32_le, read_bytes, read_u32_le, read_u8,
    u32_le_bytes, DecodeError,
};
use crate::mapping::{
    deep_entries, lemma_mapping_round_trip, map_of_entries, spec_decode_mapping,
    spec_encode_mapping, Rect, SpriteSheetMetaData,
};
use vstd::arithmetic::div_mod::{lemma_fundamental_div_mod_converse, lemma_multiply_divide_lt};

verus! {

/// Version number of the format.
pub const FORMAT_VERSION_NUMBER: u8 = 0;

/// One pixel: red, green, blue and alpha channels, eight bits each.
#[derive(Debug, Clone, Copy, PartialEq, Eq, Structural)]
pub struct Pixel {
    pub r: u8,
    pub g: u8,
    pub b: u8,
    pub a: u8,
}

/// A dense two-dimensional RGBA pixel buffer: row-major, four bytes per
/// pixel, no padding and no stride beyond `width * 4` bytes per row.
#[derive(Clone)]
pub struct Image {
    pub width: u32,
    pub height: u32,
    pub data: Vec<u8>,
}

/// A pixel index fits strictly inside the buffer of its image.
proof fn lemma_pixel_index(w: int, h: int, x: int, y: int)
    requires
        0 <= x < w,
        0 <= y < h,
    ensures
        0 <= (y * w + x) * 4,
        (y * w + x) * 4 + 4 <= w * h * 4,
{
    assert(0 <= (y * w + x) * 4 && (y * w + x) * 4 + 4 <= w * h * 4) by (nonlinear_arith)
        requires
            0 <= x < w,
            0 <= y < h,
    ;
}

impl Image {
    /// Well-formed: the buffer holds exactly `width * height` pixels of four
    /// bytes, a count the platform can represent.
    pub open spec fn wf(self) -> bool {
        &&& self.data@.len() == self.width as int * self.height as int * 4
        &&& self.width as int * self.height as int * 4 <= usize::MAX as int
    }

    /// Channel `c` of the pixel at column `x` of row `y`.
    pub open spec fn spec_channel(self, x: int, y: int, c: int) -> u8
        recommends
            0 <= x < self.width,
            0 <= y < self.height,
            0 <= c < 4,
    {
        self.data@[(y * self.width as int + x) * 4 + c]
    }

    /// A fresh all-zero (transparent black) image of the given dimensions.
    #[verifier::loop_isolation(false)]
    pub fn new(width: u32, height: u32) -> (r: Image)
        requires
            width as int * height as int * 4 <= usize::MAX as int,
        ensures
            r.wf(),
            r.width == width,
            r.height == height,
            forall|i: int| 0 <= i < r.data@.len() ==> r.data@[i] == 0u8,
    {
        let n64: u64 = (width as u64) * (height as u64) * 4;
        let n: usize = n64 as usize;
        let mut data: Vec<u8> = Vec::new();
        let mut i: usize = 0;
        while i < n
            invariant
                i <= n,
                data@.len() == i,
                forall|j: int| 0 <= j < i ==> data@[j] == 0u8,
            decreases n - i,
        {
            data.push(0);
            i = i + 1;
        }
        Image { width, height, data }
    }

    /// Wraps a raw byte vector as an image of the given dimensions; absent
    /// when the vector's length is not exactly `width * height * 4`.
    pub fn from_raw(width: u32, height: u32, data: Vec<u8>) -> (r: Option<Image>)
        ensures
            r is Some <==> data@.len() == width as int * height as int * 4,
            r matches Some(img) ==> img.wf() && img.width == width && img.height == height
                && img.data@ == data@,
    {
        let dlen: usize = data.len();
        proof {
            assert((width as int) * (height as int) <= (u64::MAX as int)) by (nonlinear_arith)
                requires
                    width as int <= 0xffff_ffff,
                    height as int <= 0xffff_ffff,
            ;
        }
        let pixels: u64 = (width as u64) * (height as u64);
        if pixels > (usize::MAX as u64) / 4 {
            proof {
                assert(4 * ((usize::MAX as u64) / 4) + 3 >= usize::MAX as u64);
                assert(4 * pixels as int > usize::MAX as int);
                assert(dlen <= usize::MAX);
            }
            return None;
        }
        let expected: usize = (pixels * 4) as usize;
        if data.len() == expected {
            Some(Image { width, height, data })
        } else {
            None
        }
    }

    /// The width in pixels.
    pub fn width(&self) -> (r: u32)
        ensures
            r == self.width,
    {
        self.width
    }

    /// The height in pixels.
    pub fn height(&self) -> (r: u32)
        ensures
            r == self.height,
    {
        self.height
    }

    /// Width and height, in that order.
    pub fn dimensions(&self) -> (r: (u32, u32))
        ensures
            r.0 == self.width,
            r.1 == self.height,
    {
        (self.width, self.height)
    }

    /// The raw bytes of the buffer.
    pub fn as_raw(&self) -> (r: &Vec<u8>)
        ensures
            r@ == self.data@,
    {
        &self.data
    }

    /// The pixel at column `x` of row `y`.
    pub fn get_pixel(&self, x: u32, y: u32) -> (p: Pixel)
        requires
            self.wf(),
            x < self.width,
            y < self.height,
        ensures
            p.r == self.spec_channel(x as int, y as int, 0),
            p.g == self.spec_channel(x as int, y as int, 1),
            p.b == self.spec_channel(x as int, y as int, 2),
            p.a == self.spec_channel(x as int, y as int, 3),
    {
        proof {
            lemma_pixel_index(self.width as int, self.height as int, x as int, y as int);
        }
        let idx: usize = ((y as u64 * self.width as u64 + x as u64) * 4) as usize;
        Pixel {
            r: self.data[idx],
            g: self.data[idx + 1],
            b: self.data[idx + 2],
            a: self.data[idx + 3],
        }
    }

    /// Replaces the pixel at column `x` of row `y`; every other pixel keeps
    /// its value.
    pub fn put_pixel(&mut self, x: u32, y: u32, p: Pixel)
        requires
            old(self).wf(),
            x < old(self).width,
            y < old(self).height,
        ensures
            final(self).wf(),
            final(self).width == old(self).width,
            final(self).height == old(self).height,
            final(self).spec_channel(x as int, y as int, 0) == p.r,
            final(self).spec_channel(x as int, y as int, 1) == p.g,
            final(self).spec_channel(x as int, y as int, 2) == p.b,
            final(self).spec_channel(x as int, y as int, 3) == p.a,
            forall|i: int|
                0 <= i < old(self).data@.len() && !((y * old(self).width + x) * 4 <= i < (y * old(
                    self,
                ).width + x) * 4 + 4) ==> final(self).data@[i] == old(self).data@[i],
    {
        proof {
            lemma_pixel_index(self.width as int, self.height as int, x as int, y as int);
        }
        let idx: usize = ((y as u64 * self.width as u64 + x as u64) * 4) as usize;
        self.data[idx] = p.r;
        self.data[idx + 1] = p.g;
        self.data[idx + 2] = p.b;
        self.data[idx + 3] = p.a;
    }

    /// Copies the window that `rect` selects into an independent buffer.
    /// Absent when the window exceeds the image bounds in either direction;
    /// a zero-width or zero-height window within bounds yields an empty
    /// buffer.
    #[verifier::loop_isolation(false)]
    pub fn crop(&self, rect: &Rect) -> (r: Option<Image>)
        requires
            self.wf(),
        ensures
            r is Some <==> rect.x + rect.w <= self.width && rect.y + rect.h <= self.height,
            r matches Some(img) ==> {
                &&& img.wf()
                &&& img.width == rect.w
                &&& img.height == rect.h
                &&& forall|x: int, y: int, c: int|
                    0 <= x < rect.w && 0 <= y < rect.h && 0 <= c < 4
                        ==> #[trigger] img.spec_channel(x, y, c) == self.spec_channel(
                        rect.x + x,
                        rect.y + y,
                        c,
                    )
            },
    {
        if !(rect.x as u64 + rect.w as u64 <= self.width as u64 && rect.y as u64 + rect.h as u64
            <= self.height as u64) {
            return None;
        }
        proof {
            assert(rect.w as int * rect.h as int * 4 <= self.width as int * self.height as int * 4)
                by (nonlinear_arith)
                requires
                    0 <= rect.w as int <= self.width as int,
                    0 <= rect.h as int <= self.height as int,
            ;
        }
        let w64: u64 = rect.w as u64;
        let n64: u64 = w64 * (rect.h as u64) * 4;
        let n: usize = n64 as usize;
        let ghost target = spec_crop_data(
            *self,
            rect.x as int,
            rect.y as int,
            rect.w as int,
            rect.h as int,
        );
        let mut data: Vec<u8> = Vec::new();
        let mut k: usize = 0;
        while k < n
            invariant
                k <= n,
                data@ =~= target.take(k as int),
            decreases n - k,
        {
            proof {
                assert(rect.w > 0 && rect.h > 0) by (nonlinear_arith)
                    requires
                        k < n,
                        n == rect.w as int * rect.h as int * 4,
                        0 <= rect.w,
                        0 <= rect.h,
                        0 <= k,
                ;
                lemma_multiply_divide_lt(k as int, 4int, rect.w as int * rect.h as int);
                assert(4int * (rect.w as int * rect.h as int) == rect.w as int * rect.h as int
                    * 4) by (nonlinear_arith);
                lemma_multiply_divide_lt(k as int / 4, rect.w as int, rect.h as int);
                assert(rect.w as int * rect.h as int == rect.h as int * rect.w as int)
                    by (nonlinear_arith);
            }
            let p: usize = k / 4;
            let c: usize = k % 4;
            let xo: usize = p % (rect.w as usize);
            let yo: usize = p / (rect.w as usize);
            proof {
                lemma_pixel_index(
                    self.width as int,
                    self.height as int,
                    rect.x as int + xo as int,
                    rect.y as int + yo as int,
                );
            }
            let idx: usize = (((rect.y as u64 + yo as u64) * self.width as u64 + rect.x as u64
                + xo as u64) * 4 + c as u64) as usize;
            data.push(self.data[idx]);
            k = k + 1;
            proof {
                assert(target[k - 1] == self.spec_channel(
                    rect.x as int + xo as int,
                    rect.y as int + yo as int,
                    c as int,
                ));
                assert(data@ =~= target.take(k as int));
            }
        }
        proof {
            assert(target.take(n as int) =~= target);
        }
        let result = Image { width: rect.w, height: rect.h, data };
        proof {
            assert forall|x: int, y: int, c: int|
                0 <= x < rect.w && 0 <= y < rect.h && 0 <= c < 4 implies #[trigger] result
                .spec_channel(x, y, c) == self.spec_channel(rect.x + x, rect.y + y, c) by {
                lemma_crop_data_pixel(
                    *self,
                    rect.x as int,
                    rect.y as int,
                    rect.w as int,
                    rect.h as int,
                    x,
                    y,
                    c,
                );
            }
        }
        Some(result)
    }
}

/// The raw bytes of the window of `src` whose top-left corner is
/// `(rx, ry)` and whose size is `w` by `h`: row-major, four bytes per pixel.
pub open spec fn spec_crop_data(src: Image, rx: int, ry: int, w: int, h: int) -> Seq<u8> {
    Seq::new(
        (w * h * 4) as nat,
        |k: int| src.spec_channel(rx + ((k / 4) % w), ry + ((k / 4) / w), k % 4),
    )
}

/// The raw binary form of an image section: version byte, width and height
/// little-endian, then the raw pixel bytes.
pub open spec fn spec_encode_image(img: Image) -> Seq<u8> {
    seq![FORMAT_VERSION_NUMBER] + u32_le_bytes(img.width) + u32_le_bytes(img.height) + img.data@
}

/// The result of decoding a raw image section at position `start`: width,
/// height and raw bytes, with the position after them, or the first failure.
pub open spec fn spec_decode_image(bytes: Seq<u8>, start: int) -> Result<
    ((u32, u32, Seq<u8>), int),
    DecodeError,
> {
    if start + 1 > bytes.len() {
        Err(DecodeError::Truncation)
    } else if bytes[start] != FORMAT_VERSION_NUMBER {
        Err(DecodeError::VersionMismatch)
    } else if start + 9 > bytes.len() {
        Err(DecodeError::Truncation)
    } else {
        let w = le32_at(bytes, start + 1);
        let h = le32_at(bytes, start + 5);
        if w as int * h as int * 4 > usize::MAX as int {
            Err(DecodeError::SizeOverflow)
        } else if start + 9 + w as int * h as int * 4 > bytes.len() {
            Err(DecodeError::Truncation)
        } else {
            Ok(
                (
                    (w, h, bytes.subrange(start + 9, start + 9 + w as int * h as int * 4)),
                    start + 9 + w as int * h as int * 4,
                ),
            )
        }
    }
}

/// A sprite image cropped out of a sheet, owned independently of it.
pub struct Sprite {
    pub inner: Image,
}

/// A sprite sheet: one image and the metadata naming its sprites.
pub struct SpriteSheet {
    pub image: Image,
    pub meta: SpriteSheetMetaData,
}

impl SpriteSheet {
    /// Well-formed: the image buffer matches its dimensions and the table
    /// holds each name once.
    pub open spec fn wf(self) -> bool {
        &&& self.image.wf()
        &&& self.meta.mapping.wf()
    }

    /// Pairs an image with its metadata.
    pub fn new(image: Image, meta: SpriteSheetMetaData) -> (r: Self)
        ensures
            r.image == image,
            r.meta == meta,
    {
        Self { image, meta }
    }

    /// Appends the raw binary form of `image` to `writer`.
    pub fn image_raw_to_writer(image: &Image, writer: &mut Vec<u8>)
        requires
            image.wf(),
        ensures
            final(writer)@ == old(writer)@ + spec_encode_image(*image),
    {
        writer.push(FORMAT_VERSION_NUMBER);
        push_u32_le(writer, image.width);
        push_u32_le(writer, image.height);
        push_bytes(writer, image.data.as_slice());
        proof {
            assert(writer@ =~= old(writer)@ + spec_encode_image(*image));
        }
    }

    /// Decodes a raw image section that starts at position `start` of
    /// `bytes`: the image read and the position after it, or the first
    /// failure. The version byte must equal the supported version, the
    /// declared size must be representable, and exactly `width * height * 4`
    /// raw bytes must follow the nine-byte header.
    pub fn image_raw_from_reader(bytes: &[u8], start: usize) -> (r: Result<
        (Image, usize),
        DecodeError,
    >)
        ensures
            match spec_decode_image(bytes@, start as int) {
                Ok(((w, h, data), end)) => r matches Ok(v) && v.0.wf() && v.0.width == w
                    && v.0.height == h && v.0.data@ == data && v.1 == end,
                Err(e) => r matches Err(e2) && e2 == e,
            },
            start < bytes@.len() && bytes@[start as int] != FORMAT_VERSION_NUMBER ==> (r matches
            Err(e) && e == DecodeError::VersionMismatch),
            ({
                let w = le32_at(bytes@, start as int + 1);
                let h = le32_at(bytes@, start as int + 5);
                (start + 9 <= bytes@.len() && bytes@[start as int] == FORMAT_VERSION_NUMBER
                    && w as int * h as int * 4 <= usize::MAX as int && bytes@.len() < start + 9
                    + w as int * h as int * 4) ==> (r matches Err(e) && e
                    == DecodeError::Truncation)
            }),
    {
        let version = match read_u8(bytes, start) {
            Some(v) => v,
            None => {
                return Err(DecodeError::Truncation);
            },
        };
        if version != FORMAT_VERSION_NUMBER {
            return Err(DecodeError::VersionMismatch);
        }
        let len: usize = bytes.len();
        let width = match read_u32_le(bytes, start + 1) {
            Some(v) => v,
            None => {
                return Err(DecodeError::Truncation);
            },
        };
        let height = match read_u32_le(bytes, start + 5) {
            Some(v) => v,
            None => {
                return Err(DecodeError::Truncation);
            },
        };
        proof {
            assert((width as int) * (height as int) <= (u64::MAX as int)) by (nonlinear_arith)
                requires
                    width as int <= 0xffff_ffff,
                    height as int <= 0xffff_ffff,
            ;
        }
        let pixels: u64 = (width as u64) * (height as u64);
        if pixels > (usize::MAX as u64) / 4 {
            proof {
                assert(4 * ((usize::MAX as u64) / 4) + 3 >= usize::MAX as u64);
                assert(4 * pixels as int > usize::MAX as int);
            }
            return Err(DecodeError::SizeOverflow);
        }
        let needed: usize = (pixels * 4) as usize;
        let data = match read_bytes(bytes, start + 9, needed) {
            Some(v) => v,
            None => {
                return Err(DecodeError::Truncation);
            },
        };
        match Image::from_raw(width, height, data) {
            Some(image) => Ok((image, start + 9 + needed)),
            None => Err(DecodeError::InvalidImageData),
        }
    }

    /// The canonical single-file binary form of a sheet: the raw image
    /// section immediately followed by the mapping section.
    pub open spec fn spec_encode_raw(self) -> Seq<u8> {
        spec_encode_image(self.image) + spec_encode_mapping(self.meta.mapping)
    }

    /// The result of decoding a whole byte sequence as a sheet: the image
    /// model and the mapping entries, or the first failure of either stage.
    pub open spec fn spec_decode_raw(bytes: Seq<u8>) -> Result<
        ((u32, u32, Seq<u8>), Seq<(Seq<char>, Rect)>),
        DecodeError,
    > {
        match spec_decode_image(bytes, 0) {
            Err(e) => Err(e),
            Ok((im, pos)) => match spec_decode_mapping(bytes, pos) {
                Err(e) => Err(e),
                Ok((es, _)) => Ok((im, es)),
            },
        }
    }

    /// Tests at run time whether the sheet can be encoded in the raw binary
    /// form — the image buffer matches its declared dimensions and the table
    /// fits the format's length fields — so that a caller can gate
    /// [`Self::encode_raw`] on it.
    pub fn check_raw_encodable(&self) -> (b: bool)
        ensures
            b == (self.image.wf() && self.meta.mapping.encodable()),
    {
        let dlen: usize = self.image.data.len();
        proof {
            assert((self.image.width as int) * (self.image.height as int) <= (u64::MAX as int))
                by (nonlinear_arith)
                requires
                    self.image.width as int <= 0xffff_ffff,
                    self.image.height as int <= 0xffff_ffff,
            ;
        }
        let pixels: u64 = (self.image.width as u64) * (self.image.height as u64);
        if pixels > (usize::MAX as u64) / 4 {
            proof {
                assert(4 * ((usize::MAX as u64) / 4) + 3 >= usize::MAX as u64);
                assert(4 * pixels as int > usize::MAX as int);
            }
            return false;
        }
        let expected: usize = (pixels * 4) as usize;
        if dlen != expected {
            return false;
        }
        self.meta.mapping.check_encodable()
    }

    /// Encodes the sheet in the canonical single-file binary form.
    pub fn encode_raw(&self) -> (r: Vec<u8>)
        requires
            self.image.wf(),
            self.meta.mapping.encodable(),
        ensures
            r@ == self.spec_encode_raw(),
    {
        let mut out: Vec<u8> = Vec::new();
        Self::image_raw_to_writer(&self.image, &mut out);
        self.meta.to_writer(&mut out);
        proof {
            assert(out@ =~= self.spec_encode_raw());
        }
        out
    }

    /// Decodes the canonical single-file binary form: the image section as a
    /// prefix, then the mapping section; the first failure of either stage
    /// propagates unchanged, and no partial sheet is returned. Bytes after
    /// the mapping's declared entry count are ignored.
    pub fn decode_raw(bytes: &[u8]) -> (r: Result<SpriteSheet, DecodeError>)
        ensures
            match Self::spec_decode_raw(bytes@) {
                Ok(((w, h, data), es)) => r matches Ok(s) && s.wf() && s.image.width == w
                    && s.image.height == h && s.image.data@ == data && s.meta.mapping.as_map()
                    == map_of_entries(es),
                Err(e) => r matches Err(e2) && e2 == e,
            },
            bytes@.len() > 0 && bytes@[0] != FORMAT_VERSION_NUMBER ==> (r matches Err(e) && e
                == DecodeError::VersionMismatch),
    {
        let (image, pos) = match Self::image_raw_from_reader(bytes, 0) {
            Ok(v) => v,
            Err(e) => {
                return Err(e);
            },
        };
        let (meta, _end) = match SpriteSheetMetaData::from_reader(bytes, pos) {
            Ok(v) => v,
            Err(e) => {
                return Err(e);
            },
        };
        Ok(SpriteSheet { image, meta })
    }

    /// Looks `name` up in the table and crops its area out of the image as
    /// an independent copy. Absent when the name is not in the table, and
    /// also when the bound area exceeds the image bounds (the bounds policy
    /// chosen here: out-of-bounds areas yield no sprite, never a clamped or
    /// partial one).
    pub fn get_sprite(&self, name: &String) -> (r: Option<Sprite>)
        requires
            self.wf(),
        ensures
            ({
                let m = self.meta.mapping.as_map();
                &&& r is Some <==> (m.contains_key(name@) && m[name@].x + m[name@].w
                    <= self.image.width && m[name@].y + m[name@].h <= self.image.height)
                &&& (r matches Some(s) ==> {
                    let rect = m[name@];
                    &&& s.inner.wf()
                    &&& s.inner.width == rect.w
                    &&& s.inner.height == rect.h
                    &&& forall|x: int, y: int, c: int|
                        0 <= x < rect.w && 0 <= y < rect.h && 0 <= c < 4 ==> #[trigger] s.inner
                            .spec_channel(x, y, c) == self.image.spec_channel(
                            rect.x + x,
                            rect.y + y,
                            c,
                        )
                })
            }),
    {
        let rect = match self.meta.mapping.get(name) {
            Some(r) => r,
            None => {
                return None;
            },
        };
        match self.image.crop(rect) {
            Some(img) => Some(Sprite { inner: img }),
            None => None,
        }
    }
}

/// Round trip: decoding the canonical binary form of a well-formed,
/// encodable sheet succeeds and yields the same image dimensions, the same
/// raw pixel bytes, and the same set of name-to-rectangle pairs, whatever
/// order the entries were held in.
pub proof fn lemma_raw_round_trip(sheet: SpriteSheet)
    requires
        sheet.image.wf(),
        sheet.meta.mapping.encodable(),
    ensures
        ({
            let bytes = sheet.spec_encode_raw();
            SpriteSheet::spec_decode_raw(bytes) matches Ok(((w, h, data), es)) && w
                == sheet.image.width && h == sheet.image.height && data == sheet.image.data@
                && map_of_entries(es) == sheet.meta.mapping.as_map()
        }),
{
    let bytes = sheet.spec_encode_raw();
    let img = sheet.image;
    let ei = spec_encode_image(img);
    let em = spec_encode_mapping(sheet.meta.mapping);
    let vb = seq![FORMAT_VERSION_NUMBER];
    let wb = u32_le_bytes(img.width);
    let hb = u32_le_bytes(img.height);
    let n = img.width as int * img.height as int * 4;
    assert(bytes == ei + em);
    assert(ei == ((vb + wb) + hb) + img.data@);
    assert(ei.len() == 9 + n);
    assert forall|i: int| 0 <= i < ei.len() implies bytes[i] == ei[i] by {
        assert(bytes[i] == (ei + em)[i]);
    }
    assert forall|i: int| 0 <= i < 4 implies bytes[1 + i] == wb[i] && bytes[5 + i] == hb[i] by {
        assert(ei[1 + i] == (((vb + wb) + hb) + img.data@)[1 + i]);
        assert((((vb + wb) + hb) + img.data@)[1 + i] == ((vb + wb) + hb)[1 + i]);
        assert(((vb + wb) + hb)[1 + i] == (vb + wb)[1 + i]);
        assert(ei[5 + i] == (((vb + wb) + hb) + img.data@)[5 + i]);
        assert((((vb + wb) + hb) + img.data@)[5 + i] == ((vb + wb) + hb)[5 + i]);
    }
    assert(bytes[0] == ei[0]);
    assert(ei[0] == (((vb + wb) + hb) + img.data@)[0]);
    assert(((vb + wb) + hb)[0] == (vb + wb)[0]);
    assert(bytes[0] == FORMAT_VERSION_NUMBER);
    lemma_u32_le_round_trip(img.width);
    lemma_u32_le_round_trip(img.height);
    assert(bytes[1] == wb[0] && bytes[2] == wb[1] && bytes[3] == wb[2] && bytes[4] == wb[3]);
    assert(bytes[5] == hb[0] && bytes[6] == hb[1] && bytes[7] == hb[2] && bytes[8] == hb[3]);
    assert(le32_at(bytes, 1) == img.width);
    assert(le32_at(bytes, 5) == img.height);
    assert forall|i: int| 0 <= i < n implies bytes[9 + i] == img.data@[i] by {
        assert(ei[9 + i] == (((vb + wb) + hb) + img.data@)[9 + i]);
    }
    assert(bytes.subrange(9, 9 + n) =~= img.data@);
    assert(spec_decode_image(bytes, 0) == Ok::<((u32, u32, Seq<u8>), int), DecodeError>(
        ((img.width, img.height, img.data@), 9 + n),
    ));
    assert forall|i: int| 0 <= i < em.len() implies bytes[ei.len() + i] == em[i] by {
        assert(bytes[ei.len() + i] == (ei + em)[ei.len() + i]);
    }
    assert(bytes.subrange(ei.len() as int, ei.len() as int + em.len() as int) =~= em);
    lemma_mapping_round_trip(sheet.meta.mapping, bytes, ei.len() as int);
}

/// Inside a cropped window, the byte of channel `c` of the pixel at
/// `(x, y)` is the matching source channel.
pub proof fn lemma_crop_data_pixel(src: Image, rx: int, ry: int, w: int, h: int, x: int, y: int, c: int)
    requires
        0 <= x < w,
        0 <= y < h,
        0 <= c < 4,
    ensures
        0 <= (y * w + x) * 4 + c < w * h * 4,
        spec_crop_data(src, rx, ry, w, h)[(y * w + x) * 4 + c] == src.spec_channel(
            rx + x,
            ry + y,
            c,
        ),
{
    let k = (y * w + x) * 4 + c;
    lemma_pixel_index(w, h, x, y);
    lemma_fundamental_div_mod_converse(k, 4, y * w + x, c);
    lemma_fundamental_div_mod_converse(y * w + x, w, y, x);
    assert(k / 4 == y * w + x);
    assert((k / 4) % w == x);
    assert((k / 4) / w == y);
}

} // verus!
