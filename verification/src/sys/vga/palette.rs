//! The 256-colour VGA palette: the text-mode default, the game palette and
//! the byte form that the palette device file reads and writes.
use vstd::prelude::*;

verus! {

/// Number of colours of a palette.
pub const PALETTE_COLORS: usize = 256;

/// The sixteen colours of the text-mode palette, darkest black to bright
/// white.
pub open spec fn default_color(i: int) -> (u8, u8, u8) {
    if i == 0 {
        (0x00, 0x00, 0x00)
    } else if i == 1 {
        (0x00, 0x00, 0x80)
    } else if i == 2 {
        (0x00, 0x80, 0x00)
    } else if i == 3 {
        (0x00, 0x80, 0x80)
    } else if i == 4 {
        (0x80, 0x00, 0x00)
    } else if i == 5 {
        (0x80, 0x00, 0x80)
    } else if i == 6 {
        (0x80, 0x80, 0x00)
    } else if i == 7 {
        (0xC0, 0xC0, 0xC0)
    } else if i == 8 {
        (0x80, 0x80, 0x80)
    } else if i == 9 {
        (0x00, 0x00, 0xFF)
    } else if i == 10 {
        (0x00, 0xFF, 0x00)
    } else if i == 11 {
        (0x00, 0xFF, 0xFF)
    } else if i == 12 {
        (0xFF, 0x00, 0x00)
    } else if i == 13 {
        (0xFF, 0x00, 0xFF)
    } else if i == 14 {
        (0xFF, 0xFF, 0x00)
    } else {
        (0xFF, 0xFF, 0xFF)
    }
}

/// The palette register of text colour `i` (0 to 15): the first six and
/// the eighth are their own register, brown uses register 0x14 and the
/// bright colours registers 0x38 to 0x3F.
pub open spec fn color_register(i: int) -> int {
    if i == 6 {
        0x14
    } else if i < 8 {
        i
    } else {
        0x30 + i
    }
}

/// The sixteen standard VGA colours of the game palette.
pub open spec fn standard_vga_color(i: int) -> (u8, u8, u8) {
    if i == 0 {
        (0x00, 0x00, 0x00)
    } else if i == 1 {
        (0x00, 0x00, 0xAA)
    } else if i == 2 {
        (0x00, 0xAA, 0x00)
    } else if i == 3 {
        (0x00, 0xAA, 0xAA)
    } else if i == 4 {
        (0xAA, 0x00, 0x00)
    } else if i == 5 {
        (0xAA, 0x00, 0xAA)
    } else if i == 6 {
        (0xAA, 0x55, 0x00)
    } else if i == 7 {
        (0xAA, 0xAA, 0xAA)
    } else if i == 8 {
        (0x55, 0x55, 0x55)
    } else if i == 9 {
        (0x55, 0x55, 0xFF)
    } else if i == 10 {
        (0x55, 0xFF, 0x55)
    } else if i == 11 {
        (0x55, 0xFF, 0xFF)
    } else if i == 12 {
        (0xFF, 0x55, 0x55)
    } else if i == 13 {
        (0xFF, 0x55, 0xFF)
    } else if i == 14 {
        (0xFF, 0xFF, 0x55)
    } else {
        (0xFF, 0xFF, 0xFF)
    }
}

/// The intensity of level `v` (0 to 5) of the colour cube: 0, or
/// `v * 40 + 55`.
pub open spec fn cube_level(v: int) -> u8 {
    if v == 0 {
        0
    } else {
        (v * 40 + 55) as u8
    }
}

/// Colour `i` of the game palette: the standard colours at 0 to 15, the
/// 6 by 6 by 6 colour cube at 16 to 231 (red slowest, blue fastest) and 24
/// grays from 8 in steps of 10 at 232 to 255.
pub open spec fn vga_256_color(i: int) -> (u8, u8, u8) {
    if i < 16 {
        standard_vga_color(i)
    } else if i < 232 {
        let c = i - 16;
        (cube_level(c / 36), cube_level((c / 6) % 6), cube_level(c % 6))
    } else {
        let v = ((i - 232) * 10 + 8) as u8;
        (v, v, v)
    }
}

/// The byte form of colours: red, green and blue of each colour in turn.
pub open spec fn colors_bytes(colors: Seq<(u8, u8, u8)>) -> Seq<u8> {
    Seq::new(
        3 * colors.len(),
        |i: int|
            {
                let c = colors[i / 3];
                if i % 3 == 0 {
                    c.0
                } else if i % 3 == 1 {
                    c.1
                } else {
                    c.2
                }
            },
    )
}

/// The colours whose byte form is `buf`.
pub open spec fn bytes_colors(buf: Seq<u8>) -> Seq<(u8, u8, u8)> {
    Seq::new(buf.len() / 3, |i: int| (buf[3 * i], buf[3 * i + 1], buf[3 * i + 2]))
}

/// A palette of 256 colours, each as red, green and blue.
pub struct Palette {
    pub colors: Vec<(u8, u8, u8)>,
}

impl Clone for Palette {
    /// Copies the palette.
    fn clone(&self) -> (res: Self)
        ensures
            res.colors@ == self.colors@,
    {
        let mut colors: Vec<(u8, u8, u8)> = Vec::new();
        let mut i: usize = 0;
        while i < self.colors.len()
            invariant
                0 <= i <= self.colors@.len(),
                colors@ == self.colors@.subrange(0, i as int),
            decreases self.colors@.len() - i,
        {
            colors.push(self.colors[i]);
            assert(self.colors@.subrange(0, i + 1) =~= self.colors@.subrange(0, i as int).push(self.colors@[i as int]));
            i = i + 1;
        }
        assert(self.colors@.subrange(0, self.colors@.len() as int) =~= self.colors@);
        Palette { colors }
    }
}

impl Palette {
    /// The palette has 256 colours.
    pub open spec fn well_formed(&self) -> bool {
        self.colors@.len() == PALETTE_COLORS
    }

    /// An all-black palette.
    pub fn new() -> (p: Palette)
        ensures
            p.well_formed(),
            forall|i: int| 0 <= i < 256 ==> #[trigger] p.colors@[i] == (0u8, 0u8, 0u8),
    {
        let mut colors: Vec<(u8, u8, u8)> = Vec::new();
        let mut i: usize = 0;
        while i < 256
            invariant
                0 <= i <= 256,
                colors@.len() == i,
                forall|k: int| 0 <= k < i ==> #[trigger] colors@[k] == (0u8, 0u8, 0u8),
            decreases 256 - i,
        {
            colors.push((0, 0, 0));
            i = i + 1;
        }
        Palette { colors }
    }

    /// The text-mode palette: text colour `i` (see `default_color`) at its
    /// palette register (see `color_register`), black elsewhere.
    pub fn default() -> (p: Palette)
        ensures
            p.well_formed(),
            forall|i: int| 0 <= i < 16 ==> #[trigger] p.colors@[color_register(i)] == default_color(i),
            forall|j: int|
                0 <= j < 256 && !(exists|i: int| 0 <= i < 16 && #[trigger] color_register(i) == j)
                    ==> #[trigger] p.colors@[j] == (0u8, 0u8, 0u8),
    {
        let default_colors: [(u8, u8, u8); 16] = [
            (0x00, 0x00, 0x00),
            (0x00, 0x00, 0x80),
            (0x00, 0x80, 0x00),
            (0x00, 0x80, 0x80),
            (0x80, 0x00, 0x00),
            (0x80, 0x00, 0x80),
            (0x80, 0x80, 0x00),
            (0xC0, 0xC0, 0xC0),
            (0x80, 0x80, 0x80),
            (0x00, 0x00, 0xFF),
            (0x00, 0xFF, 0x00),
            (0x00, 0xFF, 0xFF),
            (0xFF, 0x00, 0x00),
            (0xFF, 0x00, 0xFF),
            (0xFF, 0xFF, 0x00),
            (0xFF, 0xFF, 0xFF),
        ];
        let registers: [usize; 16] = [
            0x00,
            0x01,
            0x02,
            0x03,
            0x04,
            0x05,
            0x14,
            0x07,
            0x38,
            0x39,
            0x3A,
            0x3B,
            0x3C,
            0x3D,
            0x3E,
            0x3F,
        ];
        assert(forall|i: int| 0 <= i < 16 ==> #[trigger] default_colors@[i] == default_color(i));
        assert(forall|i: int| 0 <= i < 16 ==> #[trigger] registers@[i] == color_register(i));
        let mut palette = Palette::new();
        let mut i: usize = 0;
        while i < 16
            invariant
                0 <= i <= 16,
                palette.well_formed(),
                forall|k: int| 0 <= k < 16 ==> #[trigger] default_colors@[k] == default_color(k),
                forall|k: int| 0 <= k < 16 ==> #[trigger] registers@[k] == color_register(k),
                forall|k: int| 0 <= k < i ==> #[trigger] palette.colors@[color_register(k)] == default_color(k),
                forall|j: int|
                    0 <= j < 256 && !(exists|k: int| 0 <= k < i && #[trigger] color_register(k) == j)
                        ==> #[trigger] palette.colors@[j] == (0u8, 0u8, 0u8),
            decreases 16 - i,
        {
            let r = registers[i];
            let ghost before = palette.colors@;
            palette.colors.set(r, default_colors[i]);
            proof {
                assert forall|k: int| 0 <= k < i + 1 implies #[trigger] palette.colors@[color_register(k)]
                    == default_color(k) by {
                    if k < i {
                        assert(color_register(k) != color_register(i as int));
                    }
                }
                assert forall|j: int|
                    0 <= j < 256 && !(exists|k: int| 0 <= k < i + 1 && #[trigger] color_register(k) == j)
                        implies #[trigger] palette.colors@[j] == (0u8, 0u8, 0u8) by {
                    assert(color_register(i as int) != j);
                    if exists|k: int| 0 <= k < i && #[trigger] color_register(k) == j {
                        let k = choose|k: int| 0 <= k < i && #[trigger] color_register(k) == j;
                        assert(0 <= k < i + 1 && color_register(k) == j);
                    }
                    assert(before[j] == (0u8, 0u8, 0u8));
                }
            }
            i = i + 1;
        }
        palette
    }

    /// The byte form (see `colors_bytes`), 768 bytes.
    pub fn to_bytes(&self) -> (buf: Vec<u8>)
        requires
            self.well_formed(),
        ensures
            buf@ == colors_bytes(self.colors@),
            buf@.len() == 768,
    {
        let mut buf: Vec<u8> = Vec::new();
        let mut i: usize = 0;
        while i < self.colors.len()
            invariant
                0 <= i <= self.colors@.len(),
                self.colors@.len() == 256,
                buf@ == colors_bytes(self.colors@.subrange(0, i as int)),
            decreases self.colors@.len() - i,
        {
            let (r, g, b) = self.colors[i];
            let ghost pre = self.colors@.subrange(0, i as int);
            let ghost nxt = self.colors@.subrange(0, i + 1);
            buf.push(r);
            buf.push(g);
            buf.push(b);
            proof {
                assert forall|k: int| 0 <= k < 3 * nxt.len() implies #[trigger] buf@[k] == colors_bytes(nxt)[k] by {
                    assert(k / 3 <= i) by (nonlinear_arith)
                        requires
                            0 <= k < 3 * (i + 1),
                    ;
                    if k < 3 * i {
                        assert(k / 3 < i) by (nonlinear_arith)
                            requires
                                0 <= k < 3 * i,
                        ;
                        assert(nxt[k / 3] == pre[k / 3]);
                    } else {
                        assert(k / 3 == i && k % 3 == k - 3 * i) by (nonlinear_arith)
                            requires
                                3 * i <= k < 3 * i + 3,
                        ;
                    }
                }
                assert(buf@ =~= colors_bytes(nxt));
            }
            i = i + 1;
        }
        assert(self.colors@.subrange(0, 256) =~= self.colors@);
        buf
    }

    /// The length of a palette's byte form.
    pub fn size() -> (n: usize)
        ensures
            n == 768,
    {
        256 * 3
    }

    /// The game palette: colour `i` is `vga_256_color(i)`.
    pub fn vga_256() -> (p: Palette)
        ensures
            p.well_formed(),
            forall|i: int| 0 <= i < 256 ==> #[trigger] p.colors@[i] == vga_256_color(i),
    {
        let standard: [(u8, u8, u8); 16] = [
            (0x00, 0x00, 0x00),
            (0x00, 0x00, 0xAA),
            (0x00, 0xAA, 0x00),
            (0x00, 0xAA, 0xAA),
            (0xAA, 0x00, 0x00),
            (0xAA, 0x00, 0xAA),
            (0xAA, 0x55, 0x00),
            (0xAA, 0xAA, 0xAA),
            (0x55, 0x55, 0x55),
            (0x55, 0x55, 0xFF),
            (0x55, 0xFF, 0x55),
            (0x55, 0xFF, 0xFF),
            (0xFF, 0x55, 0x55),
            (0xFF, 0x55, 0xFF),
            (0xFF, 0xFF, 0x55),
            (0xFF, 0xFF, 0xFF),
        ];
        assert(forall|i: int| 0 <= i < 16 ==> #[trigger] standard@[i] == standard_vga_color(i));
        let mut colors: Vec<(u8, u8, u8)> = Vec::new();
        let mut i: usize = 0;
        while i < 16
            invariant
                0 <= i <= 16,
                colors@.len() == i,
                forall|k: int| 0 <= k < 16 ==> #[trigger] standard@[k] == standard_vga_color(k),
                forall|k: int| 0 <= k < i ==> #[trigger] colors@[k] == vga_256_color(k),
            decreases 16 - i,
        {
            colors.push(standard[i]);
            i = i + 1;
        }
        let mut r: u8 = 0;
        while r < 6
            invariant
                0 <= r <= 6,
                colors@.len() == 16 + 36 * r,
                forall|k: int| 0 <= k < colors@.len() ==> #[trigger] colors@[k] == vga_256_color(k),
            decreases 6 - r,
        {
            let mut g: u8 = 0;
            while g < 6
                invariant
                    0 <= r < 6,
                    0 <= g <= 6,
                    colors@.len() == 16 + 36 * r + 6 * g,
                    forall|k: int| 0 <= k < colors@.len() ==> #[trigger] colors@[k] == vga_256_color(k),
                decreases 6 - g,
            {
                let mut b: u8 = 0;
                while b < 6
                    invariant
                        0 <= r < 6,
                        0 <= g < 6,
                        0 <= b <= 6,
                        colors@.len() == 16 + 36 * r + 6 * g + b,
                        forall|k: int| 0 <= k < colors@.len() ==> #[trigger] colors@[k] == vga_256_color(k),
                    decreases 6 - b,
                {
                    let ghost idx = colors@.len() as int;
                    let red = if r == 0 { 0 } else { r * 40 + 55 };
                    let green = if g == 0 { 0 } else { g * 40 + 55 };
                    let blue = if b == 0 { 0 } else { b * 40 + 55 };
                    proof {
                        let c = idx - 16;
                        assert(c / 36 == r && (c / 6) % 6 == g && c % 6 == b) by (nonlinear_arith)
                            requires
                                c == 36 * r + 6 * g + b,
                                0 <= r < 6,
                                0 <= g < 6,
                                0 <= b < 6,
                        ;
                    }
                    colors.push((red, green, blue));
                    b = b + 1;
                }
                g = g + 1;
            }
            r = r + 1;
        }
        let mut k: u8 = 0;
        while k < 24
            invariant
                0 <= k <= 24,
                colors@.len() == 232 + k,
                forall|j: int| 0 <= j < colors@.len() ==> #[trigger] colors@[j] == vga_256_color(j),
            decreases 24 - k,
        {
            let value = k * 10 + 8;
            colors.push((value, value, value));
            k = k + 1;
        }
        Palette { colors }
    }

    /// The palette whose byte form is `buf` (see `bytes_colors`); an error
    /// when `buf` does not hold exactly 768 bytes.
    pub fn try_from(buf: &[u8]) -> (r: Result<Palette, ()>)
        ensures
            r is Ok <==> buf@.len() == 768,
            r matches Ok(p) ==> p.well_formed() && p.colors@ == bytes_colors(buf@),
    {
        if buf.len() != Palette::size() {
            return Err(());
        }
        let mut colors: Vec<(u8, u8, u8)> = Vec::new();
        let mut i: usize = 0;
        while i < 256
            invariant
                0 <= i <= 256,
                buf@.len() == 768,
                colors@.len() == i,
                forall|k: int| 0 <= k < i ==> #[trigger] colors@[k] == bytes_colors(buf@)[k],
            decreases 256 - i,
        {
            colors.push((buf[3 * i], buf[3 * i + 1], buf[3 * i + 2]));
            i = i + 1;
        }
        assert(colors@ =~= bytes_colors(buf@));
        Ok(Palette { colors })
    }
}

/// Decoding the byte form of a palette gives its colours back, and
/// encoding the colours decoded from 768 bytes gives the bytes back.
pub proof fn lemma_palette_round_trip(colors: Seq<(u8, u8, u8)>, buf: Seq<u8>)
    requires
        colors.len() == 256,
        buf.len() == 768,
    ensures
        colors_bytes(colors).len() == 768,
        bytes_colors(colors_bytes(colors)) == colors,
        colors_bytes(bytes_colors(buf)) == buf,
{
    let b = colors_bytes(colors);
    assert forall|i: int| 0 <= i < 256 implies #[trigger] bytes_colors(b)[i] == colors[i] by {
        assert((3 * i) / 3 == i && (3 * i) % 3 == 0) by (nonlinear_arith);
        assert((3 * i + 1) / 3 == i && (3 * i + 1) % 3 == 1) by (nonlinear_arith);
        assert((3 * i + 2) / 3 == i && (3 * i + 2) % 3 == 2) by (nonlinear_arith);
    }
    assert(bytes_colors(b) =~= colors);
    let c = bytes_colors(buf);
    assert forall|k: int| 0 <= k < 768 implies #[trigger] colors_bytes(c)[k] == buf[k] by {
        let q = k / 3;
        let m = k % 3;
        assert(k == 3 * q + m && 0 <= m < 3 && 0 <= q < 256) by (nonlinear_arith)
            requires
                q == k / 3,
                m == k % 3,
                0 <= k < 768,
        ;
    }
    assert(colors_bytes(c) =~= buf);
}

} // verus!
