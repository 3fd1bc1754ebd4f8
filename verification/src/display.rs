//! The glyph set and the compositing renderer: each supported character
//! resolves to a bitmap tile, and a render concatenates the tiles of a text
//! horizontally into one RGBA output bitmap.

use vstd::prelude::*;

use crate::num_text::chars_of;
use crate::num_text::digit_val;
use crate::num_text::is_digit_char;

verus! {

/// A bitmap of RGBA pixels, stored row-major, four bytes per pixel.
#[derive(Debug, Clone)]
pub struct Bitmap {
    /// Width in pixels.
    pub width: u32,
    /// Height in pixels.
    pub height: u32,
    /// The pixel bytes: `4 * width * height` of them, row by row.
    pub data: Vec<u8>,
}

impl Bitmap {
    /// Well-formed: the buffer holds exactly four bytes per pixel.
    pub open spec fn wf(self) -> bool {
        self.data@.len() == 4 * (self.width as nat) * (self.height as nat)
    }

    /// The bytes of pixel row `y`.
    pub open spec fn row(self, y: int) -> Seq<u8> {
        self.data@.subrange(4 * y * (self.width as int), 4 * (y + 1) * (self.width as int))
    }
}

/// Why a render failed.
#[derive(Debug, Clone, Copy, PartialEq, Eq, Structural)]
pub enum RenderError {
    /// There was no character to render.
    EmptyInput,
    /// The named character has no glyph tile.
    UnsupportedChar(char),
    /// A tile's height differs from the first tile's height.
    HeightMismatch,
    /// The tile widths sum to more than one bitmap row can hold.
    TooWide,
}

/// Why a glyph set could not be built. The payload is the index of the
/// offending source: 0 blank, 1 colon, 2 dot, `3 + d` for digit `d`.
#[derive(Debug, Clone, Copy, PartialEq, Eq, Structural)]
pub enum BuildError {
    /// The source at this index did not decode as an image.
    Decode(usize),
    /// The source at this index decoded to a zero-width tile.
    ZeroWidth(usize),
}

/// The image a byte source decodes to — width, height and RGBA bytes — or
/// nothing, when the bytes are not a decodable image. The result depends on
/// the bytes alone.
pub uninterp spec fn decoded_rgba(bytes: Seq<u8>) -> Option<(nat, nat, Seq<u8>)>;

/// Relies on `image::load_from_memory` and `DynamicImage::to_rgba8`: decoding
/// depends on the bytes alone, and the raw RGBA buffer holds four bytes per
/// pixel, row by row.
#[verifier::external_body]
fn decode_rgba(bytes: &Vec<u8>) -> (r: Option<Bitmap>)
    ensures
        match r {
            Some(bm) => {
                &&& bm.wf()
                &&& decoded_rgba(bytes@) == Some((bm.width as nat, bm.height as nat, bm.data@))
            },
            None => decoded_rgba(bytes@) is None,
        },
{
    match image::load_from_memory(bytes) {
        Ok(img) => {
            let rgba = img.to_rgba8();
            let width = rgba.width();
            let height = rgba.height();
            let data = rgba.into_raw();
            Some(Bitmap { width, height, data })
        },
        Err(_) => None,
    }
}

/// True of the characters that have a glyph tile.
pub open spec fn supported_char(c: char) -> bool {
    c == ' ' || c == ':' || c == '.' || is_digit_char(c)
}

/// The tile index of a supported character: 0 blank, 1 colon, 2 dot,
/// `3 + d` for digit `d`.
pub open spec fn symbol_index(c: char) -> int {
    if c == ' ' {
        0
    } else if c == ':' {
        1
    } else if c == '.' {
        2
    } else {
        3 + digit_val(c) as int
    }
}

/// True of a source that decodes to a tile of non-zero width.
pub open spec fn source_ok(bytes: Seq<u8>) -> bool {
    match decoded_rgba(bytes) {
        Some(t) => t.0 > 0,
        None => false,
    }
}

/// True when tile `t` is what `bytes` decodes to.
pub open spec fn tile_matches(bytes: Seq<u8>, t: Bitmap) -> bool {
    decoded_rgba(bytes) == Some((t.width as nat, t.height as nat, t.data@))
}

/// The position of the first character of `s` with no glyph tile, if any.
pub open spec fn first_unsupported(s: Seq<char>) -> Option<int>
    decreases s.len(),
{
    if s.len() == 0 {
        None
    } else if !supported_char(s[0]) {
        Some(0int)
    } else {
        match first_unsupported(s.drop_first()) {
            None => None,
            Some(i) => Some(i + 1),
        }
    }
}

/// There is no unsupported character exactly when every character is
/// supported.
pub proof fn lemma_first_unsupported_none(s: Seq<char>)
    ensures
        first_unsupported(s) is None <==> (forall|i: int|
            0 <= i < s.len() ==> supported_char(s[i])),
    decreases s.len(),
{
    if s.len() > 0 {
        lemma_first_unsupported_none(s.drop_first());
        if supported_char(s[0]) {
            if first_unsupported(s) is None {
                assert forall|i: int| 0 <= i < s.len() implies supported_char(s[i]) by {
                    if i > 0 {
                        assert(supported_char(s.drop_first()[i - 1]));
                    }
                }
            } else {
                let j = choose|j: int|
                    0 <= j < s.drop_first().len() && !supported_char(s.drop_first()[j]);
                assert(!supported_char(s[j + 1]));
            }
        }
    }
}

/// The first unsupported character is at `i` when everything before `i` is
/// supported and `s[i]` is not.
pub proof fn lemma_first_unsupported_at(s: Seq<char>, i: int)
    requires
        0 <= i < s.len(),
        forall|j: int| 0 <= j < i ==> supported_char(s[j]),
        !supported_char(s[i]),
    ensures
        first_unsupported(s) == Some(i),
    decreases i,
{
    if i > 0 {
        assert forall|j: int| 0 <= j < i - 1 implies supported_char(s.drop_first()[j]) by {
            assert(supported_char(s[j + 1]));
        }
        assert(!supported_char(s.drop_first()[i - 1]));
        lemma_first_unsupported_at(s.drop_first(), i - 1);
    }
}

/// An immutable set of thirteen glyph tiles: blank, colon, dot, and the ten
/// digits.
#[derive(Debug, Clone)]
pub struct Display {
    tiles: Vec<Bitmap>,
}

impl Display {
    /// The tiles, in source order: blank, colon, dot, digits zero to nine.
    pub closed spec fn tile_seq(self) -> Seq<Bitmap> {
        self.tiles@
    }

    /// Well-formed: thirteen tiles, each with a full pixel buffer and a
    /// non-zero width. Heights may differ; the renderer checks them.
    pub open spec fn wf(self) -> bool {
        &&& self.tile_seq().len() == 13
        &&& forall|i: int|
            0 <= i < 13 ==> (#[trigger] self.tile_seq()[i]).wf() && self.tile_seq()[i].width > 0
    }

    /// The tile of a supported character.
    pub open spec fn tile_of(self, c: char) -> Bitmap {
        self.tile_seq()[symbol_index(c)]
    }

    /// Builds a glyph set from thirteen encoded image sources, in the order:
    /// blank, colon, dot, then digits zero through nine.
    ///
    /// Every source must decode to a tile of non-zero width; the first one
    /// that does not names the error. Tile heights are not required to agree
    /// here: a mismatch surfaces as a [`RenderError::HeightMismatch`] when
    /// rendering.
    pub fn from_sources(sources: &Vec<Vec<u8>>) -> (r: Result<Display, BuildError>)
        requires
            sources@.len() == 13,
        ensures
            match r {
                Ok(d) => {
                    &&& d.wf()
                    &&& forall|i: int|
                        0 <= i < 13 ==> tile_matches(sources@[i]@, #[trigger] d.tile_seq()[i])
                },
                Err(e) => match e {
                    BuildError::Decode(i) => {
                        &&& i < 13
                        &&& decoded_rgba(sources@[i as int]@) is None
                        &&& forall|j: int| 0 <= j < i ==> source_ok(#[trigger] sources@[j]@)
                    },
                    BuildError::ZeroWidth(i) => {
                        &&& i < 13
                        &&& match decoded_rgba(sources@[i as int]@) {
                            Some(t) => t.0 == 0,
                            None => false,
                        }
                        &&& forall|j: int| 0 <= j < i ==> source_ok(#[trigger] sources@[j]@)
                    },
                },
            },
    {
        let mut tiles: Vec<Bitmap> = Vec::new();
        let mut i: usize = 0;
        while i < 13
            invariant
                sources@.len() == 13,
                i <= 13,
                tiles@.len() == i,
                forall|j: int|
                    0 <= j < i ==> {
                        &&& tile_matches(sources@[j]@, #[trigger] tiles@[j])
                        &&& tiles@[j].wf()
                        &&& tiles@[j].width > 0
                    },
                forall|j: int| 0 <= j < i ==> source_ok(#[trigger] sources@[j]@),
            decreases 13 - i,
        {
            match decode_rgba(&sources[i]) {
                Some(tile) => {
                    if tile.width == 0 {
                        return Err(BuildError::ZeroWidth(i));
                    }
                    tiles.push(tile);
                },
                None => {
                    return Err(BuildError::Decode(i));
                },
            }
            i += 1;
        }
        Ok(Display { tiles })
    }

    /// The tile for one character: blank, colon, dot, or an ASCII digit.
    /// Any other character is refused by name.
    pub fn get_ch(&self, ch: char) -> (r: Result<&Bitmap, RenderError>)
        requires
            self.wf(),
        ensures
            supported_char(ch) ==> (r matches Ok(t) && *t == self.tile_of(ch)),
            !supported_char(ch) ==> (r matches Err(e) && e == RenderError::UnsupportedChar(ch)),
    {
        if ch == ' ' {
            Ok(&self.tiles[0])
        } else if ch == ':' {
            Ok(&self.tiles[1])
        } else if ch == '.' {
            Ok(&self.tiles[2])
        } else {
            let u = ch as u32;
            if 48 <= u && u <= 57 {
                Ok(&self.tiles[(3 + (u - 48)) as usize])
            } else {
                Err(RenderError::UnsupportedChar(ch))
            }
        }
    }

    /// The sum of the tile widths for the characters of `s`.
    pub open spec fn total_width(self, s: Seq<char>) -> nat
        decreases s.len(),
    {
        if s.len() == 0 {
            0
        } else {
            self.total_width(s.drop_last()) + self.tile_of(s.last()).width as nat
        }
    }

    /// True when every tile of `s` has the height of the first one.
    pub open spec fn heights_ok(self, s: Seq<char>) -> bool {
        forall|i: int|
            0 <= i < s.len() ==> (#[trigger] self.tile_of(s[i])).height == self.tile_of(
                s[0],
            ).height
    }

    /// Pixel row `y` of the output, restricted to the first `k` tiles:
    /// the concatenation of row `y` of each tile, in character order.
    pub open spec fn row_concat(self, s: Seq<char>, y: int, k: int) -> Seq<u8>
        decreases k,
    {
        if k <= 0 {
            Seq::empty()
        } else {
            self.row_concat(s, y, k - 1) + self.tile_of(s[k - 1]).row(y)
        }
    }

    /// The first `y` pixel rows of the output, concatenated.
    pub open spec fn rows_concat(self, s: Seq<char>, y: int) -> Seq<u8>
        decreases y,
    {
        if y <= 0 {
            Seq::empty()
        } else {
            self.rows_concat(s, y - 1) + self.row_concat(s, y - 1, s.len() as int)
        }
    }

    /// The full contract of [`Display::print`]: what rendering `s` returns.
    pub open spec fn print_post(self, s: Seq<char>, r: Result<Bitmap, RenderError>) -> bool {
        if s.len() == 0 {
            r == Err::<Bitmap, RenderError>(RenderError::EmptyInput)
        } else {
            match first_unsupported(s) {
                Some(i) => r == Err::<Bitmap, RenderError>(RenderError::UnsupportedChar(s[i])),
                None => if !self.heights_ok(s) {
                    r == Err::<Bitmap, RenderError>(RenderError::HeightMismatch)
                } else if self.total_width(s) > u32::MAX {
                    r == Err::<Bitmap, RenderError>(RenderError::TooWide)
                } else {
                    match r {
                        Ok(b) => {
                            &&& b.wf()
                            &&& b.width == self.total_width(s)
                            &&& b.height == self.tile_of(s[0]).height
                            &&& b.data@ == self.rows_concat(s, b.height as int)
                        },
                        Err(_) => false,
                    }
                },
            }
        }
    }

    /// Extending a prefix by one character adds that character's tile width.
    proof fn lemma_total_width_step(self, s: Seq<char>, k: int)
        requires
            0 <= k < s.len(),
        ensures
            self.total_width(s.take(k + 1)) == self.total_width(s.take(k)) + self.tile_of(
                s[k],
            ).width,
    {
        assert(s.take(k + 1).drop_last() =~= s.take(k));
        assert(s.take(k + 1).last() == s[k]);
    }

    /// The total width of a prefix never exceeds that of the whole text.
    proof fn lemma_total_width_mono(self, s: Seq<char>, k: int)
        requires
            0 <= k <= s.len(),
        ensures
            self.total_width(s.take(k)) <= self.total_width(s),
        decreases s.len() - k,
    {
        if k == s.len() {
            assert(s.take(k) =~= s);
        } else {
            self.lemma_total_width_step(s, k);
            self.lemma_total_width_mono(s, k + 1);
        }
    }

    /// One output row over the first `k` tiles holds four bytes per pixel of
    /// their summed width.
    proof fn lemma_row_concat_len(self, s: Seq<char>, y: int, k: int)
        requires
            self.wf(),
            0 < s.len(),
            forall|i: int| 0 <= i < s.len() ==> supported_char(#[trigger] s[i]),
            forall|i: int|
                0 <= i < s.len() ==> (#[trigger] self.tile_of(s[i])).height == self.tile_of(
                    s[0],
                ).height,
            0 <= y < self.tile_of(s[0]).height,
            0 <= k <= s.len(),
        ensures
            self.row_concat(s, y, k).len() == 4 * self.total_width(s.take(k)),
        decreases k,
    {
        if k > 0 {
            self.lemma_row_concat_len(s, y, k - 1);
            self.lemma_total_width_step(s, k - 1);
            let t = self.tile_of(s[k - 1]);
            let wt = t.width as int;
            let ht = t.height as int;
            assert(4 * (y + 1) * wt <= 4 * wt * ht && (4 * (y + 1)) * wt - (4 * y) * wt == 4 * wt
                && 0 <= 4 * y * wt) by (nonlinear_arith)
                requires
                    0 <= y,
                    y + 1 <= ht,
                    0 <= wt,
            ;
            assert(t.row(y).len() == 4 * wt);
        }
    }

    /// The first `y` output rows hold `4 * total width` bytes each.
    proof fn lemma_rows_concat_len(self, s: Seq<char>, y: int)
        requires
            self.wf(),
            0 < s.len(),
            forall|i: int| 0 <= i < s.len() ==> supported_char(#[trigger] s[i]),
            forall|i: int|
                0 <= i < s.len() ==> (#[trigger] self.tile_of(s[i])).height == self.tile_of(
                    s[0],
                ).height,
            0 <= y <= self.tile_of(s[0]).height,
        ensures
            self.rows_concat(s, y).len() == 4 * (self.total_width(s) as int) * y,
        decreases y,
    {
        if y > 0 {
            self.lemma_rows_concat_len(s, y - 1);
            self.lemma_row_concat_len(s, y - 1, s.len() as int);
            assert(s.take(s.len() as int) =~= s);
            let wi = self.total_width(s) as int;
            assert(self.rows_concat(s, y - 1).len() == 4 * wi * (y - 1));
            assert(self.row_concat(s, y - 1, s.len() as int).len() == 4 * wi);
            assert(4 * wi * (y - 1) + 4 * wi == 4 * wi * y) by (nonlinear_arith);
            assert(self.rows_concat(s, y).len() == 4 * wi * y);
            assert(self.rows_concat(s, y).len() == 4 * (self.total_width(s) as int) * y);
        } else {
            assert(y == 0);
            assert(self.rows_concat(s, y).len() == 0);
            assert(4 * (self.total_width(s) as int) * 0 == 0) by (nonlinear_arith);
            assert(self.rows_concat(s, y).len() == 4 * (self.total_width(s) as int) * y);
        }
    }

    /// Renders `s`: resolves each character to its tile and concatenates the
    /// tiles horizontally, in character order, into one bitmap whose height
    /// is the common tile height.
    ///
    /// Fails on an empty text, on the first character with no tile, when a
    /// tile's height differs from the first tile's, or when the summed tile
    /// width does not fit a bitmap.
    #[verifier::loop_isolation(false)]
    pub fn print(&self, s: &str) -> (r: Result<Bitmap, RenderError>)
        requires
            self.wf(),
        ensures
            self.print_post(s@, r),
    {
        let cs = chars_of(s);
        if cs.len() == 0 {
            return Err(RenderError::EmptyInput);
        }
        // Resolve every character to its tile.
        let mut tiles: Vec<&Bitmap> = Vec::new();
        let mut i: usize = 0;
        while i < cs.len()
            invariant
                i <= cs@.len(),
                tiles@.len() == i,
                forall|j: int| 0 <= j < i ==> supported_char(#[trigger] cs@[j]),
                forall|j: int| 0 <= j < i ==> *(#[trigger] tiles@[j]) == self.tile_of(cs@[j]),
            decreases cs@.len() - i,
        {
            match self.get_ch(cs[i]) {
                Ok(t) => {
                    tiles.push(t);
                },
                Err(e) => {
                    proof {
                        lemma_first_unsupported_at(cs@, i as int);
                    }
                    return Err(e);
                },
            }
            i += 1;
        }
        proof {
            lemma_first_unsupported_none(cs@);
        }
        // Every tile must share the first tile's height.
        let h0: u32 = tiles[0].height;
        let mut k: usize = 1;
        while k < tiles.len()
            invariant
                1 <= k <= tiles@.len(),
                forall|j: int| 0 <= j < k ==> (#[trigger] self.tile_of(cs@[j])).height == h0,
            decreases tiles@.len() - k,
        {
            if tiles[k].height != h0 {
                proof {
                    assert(self.tile_of(cs@[k as int]).height != self.tile_of(cs@[0]).height);
                }
                return Err(RenderError::HeightMismatch);
            }
            k += 1;
        }
        // Sum the tile widths; the output row must fit a bitmap.
        let mut wsum: u64 = 0;
        let mut n: usize = 0;
        while n < tiles.len()
            invariant
                n <= tiles@.len(),
                wsum == self.total_width(cs@.take(n as int)),
                wsum <= u32::MAX,
            decreases tiles@.len() - n,
        {
            proof {
                self.lemma_total_width_step(cs@, n as int);
            }
            wsum = wsum + (tiles[n].width as u64);
            if wsum > 0xFFFF_FFFFu64 {
                proof {
                    self.lemma_total_width_mono(cs@, (n + 1) as int);
                }
                return Err(RenderError::TooWide);
            }
            n += 1;
        }
        proof {
            assert(cs@.take(cs@.len() as int) =~= cs@);
        }
        let width: u32 = wsum as u32;
        // Compose: each output row is the concatenation of the tile rows.
        let mut data: Vec<u8> = Vec::new();
        let mut y: u32 = 0;
        while y < h0
            invariant
                y <= h0,
                data@ == self.rows_concat(cs@, y as int),
            decreases h0 - y,
        {
            let mut k2: usize = 0;
            while k2 < tiles.len()
                invariant
                    y < h0,
                    k2 <= tiles@.len(),
                    data@ == self.rows_concat(cs@, y as int) + self.row_concat(
                        cs@,
                        y as int,
                        k2 as int,
                    ),
                decreases tiles@.len() - k2,
            {
                let t: &Bitmap = tiles[k2];
                let wt: u32 = t.width;
                let tlen: usize = t.data.len();
                proof {
                    assert(*t == self.tile_of(cs@[k2 as int]));
                    assert(t.wf());
                    assert(t.height == h0);
                    assert(t.data@.len() <= usize::MAX);
                }
                let mut x: u32 = 0;
                while x < wt
                    invariant
                        x <= wt,
                        data@ == self.rows_concat(cs@, y as int) + self.row_concat(
                            cs@,
                            y as int,
                            k2 as int,
                        ) + t.row(y as int).take(4 * x as int),
                    decreases wt - x,
                {
                    proof {
                        let yi = y as int;
                        let xi = x as int;
                        let wti = wt as int;
                        let hti = h0 as int;
                        assert((4 * yi) * wti + 4 * xi == 4 * (yi * wti + xi) && 4 * (yi * wti + xi)
                            + 4 <= (4 * wti) * hti && (4 * (yi + 1)) * wti <= (4 * wti) * hti && (4
                            * (yi + 1)) * wti - (4 * yi) * wti == 4 * wti && 0 <= (4 * yi)
                            * wti) by (nonlinear_arith)
                            requires
                                0 <= yi < hti,
                                0 <= xi < wti,
                        ;
                        assert(t.data@.len() == (4 * wti) * hti);
                        assert(t.row(yi).len() == 4 * wti);
                    }
                    let base: usize = 4 * ((y as usize) * (wt as usize) + (x as usize));
                    let b0 = t.data[base];
                    let b1 = t.data[base + 1];
                    let b2 = t.data[base + 2];
                    let b3 = t.data[base + 3];
                    data.push(b0);
                    data.push(b1);
                    data.push(b2);
                    data.push(b3);
                    proof {
                        let row = t.row(y as int);
                        assert(row.take(4 * (x + 1) as int) =~= row.take(4 * x as int) + seq![
                            b0,
                            b1,
                            b2,
                            b3,
                        ]);
                        assert(data@ =~= self.rows_concat(cs@, y as int) + self.row_concat(
                            cs@,
                            y as int,
                            k2 as int,
                        ) + row.take(4 * (x + 1) as int));
                    }
                    x += 1;
                }
                proof {
                    let yi = y as int;
                    let wti = wt as int;
                    let hti = h0 as int;
                    assert((4 * (yi + 1)) * wti <= (4 * wti) * hti && (4 * (yi + 1)) * wti - (4
                        * yi) * wti == 4 * wti && 0 <= (4 * yi) * wti) by (nonlinear_arith)
                        requires
                            0 <= yi < hti,
                            0 <= wti,
                    ;
                    assert(t.data@.len() == (4 * wti) * hti);
                    assert(t.row(yi).len() == 4 * wti);
                    assert(t.row(y as int).take(4 * wt as int) =~= t.row(y as int));
                    assert(data@ =~= self.rows_concat(cs@, y as int) + self.row_concat(
                        cs@,
                        y as int,
                        (k2 + 1) as int,
                    ));
                }
                k2 += 1;
            }
            proof {
                assert(data@ =~= self.rows_concat(cs@, (y + 1) as int));
            }
            y += 1;
        }
        proof {
            self.lemma_rows_concat_len(cs@, h0 as int);
            assert(data@.len() == 4 * (width as nat) * (h0 as nat)) by (nonlinear_arith)
                requires
                    data@.len() == 4 * (width as int) * (h0 as int),
            ;
        }
        Ok(Bitmap { width, height: h0, data })
    }
}

/// Rendering is a function of the glyph set and the text alone: two
/// outcomes that satisfy the contract of [`Display::print`] for the same
/// glyph set and text agree — same error, or bitmaps of the same width,
/// height and pixels.
pub proof fn lemma_print_deterministic(
    d: Display,
    s: Seq<char>,
    r1: Result<Bitmap, RenderError>,
    r2: Result<Bitmap, RenderError>,
)
    requires
        d.print_post(s, r1),
        d.print_post(s, r2),
    ensures
        match (r1, r2) {
            (Ok(a), Ok(b)) => a.width == b.width && a.height == b.height && a.data@ == b.data@,
            (Err(e1), Err(e2)) => e1 == e2,
            _ => false,
        },
{
}

/// For a text whose characters all have glyphs of one common height and
/// whose summed tile width fits a bitmap, rendering succeeds, and the
/// output is as wide as the tiles together and as tall as the tiles.
pub proof fn lemma_print_dimensions(d: Display, s: Seq<char>, r: Result<Bitmap, RenderError>)
    requires
        d.print_post(s, r),
        s.len() > 0,
        forall|i: int| 0 <= i < s.len() ==> supported_char(#[trigger] s[i]),
        d.heights_ok(s),
        d.total_width(s) <= u32::MAX,
    ensures
        r is Ok,
        r matches Ok(b) ==> b.width == d.total_width(s) && b.height == d.tile_of(s[0]).height,
{
    lemma_first_unsupported_none(s);
}

/// For a text holding any character without a glyph, rendering fails with
/// a lookup error naming the first such character.
pub proof fn lemma_print_unsupported(d: Display, s: Seq<char>, r: Result<Bitmap, RenderError>, i: int)
    requires
        d.print_post(s, r),
        0 <= i < s.len(),
        forall|j: int| 0 <= j < i ==> supported_char(#[trigger] s[j]),
        !supported_char(s[i]),
    ensures
        r == Err::<Bitmap, RenderError>(RenderError::UnsupportedChar(s[i])),
{
    lemma_first_unsupported_at(s, i);
}

/// Every character of a rendered time reading has a glyph: the canonical
/// text of a [`crate::time::Time`] is always renderable.
pub proof fn lemma_render_text_supported(t: u64)
    ensures
        forall|i: int|
            0 <= i < crate::time::render_spec(t).len() ==> supported_char(
                #[trigger] crate::time::render_spec(t)[i],
            ),
        first_unsupported(crate::time::render_spec(t)) is None,
{
    crate::time::lemma_render_shape(t);
    let r = crate::time::render_spec(t);
    assert forall|i: int| 0 <= i < r.len() implies supported_char(r[i]) by {
        if i < r.len() - 6 {
            assert(r[i] == ' ' || is_digit_char(r[i]));
        }
    }
    lemma_first_unsupported_none(r);
}

} // verus!
