use vstd::prelude::*;

verus! {

/// An RGBA colour with premultiplied alpha, stored as four bytes `[r, g, b, a]`.
#[derive(Clone, Copy, Debug, PartialEq, Eq, Hash)]
pub struct Color(pub [u8; 4]);

/// The four channels of a colour as a sequence `[r, g, b, a]`.
pub open spec fn channels(c: Color) -> Seq<u8> {
    c.0@
}

/// The sequence of channels `[r, g, b, a]`.
pub open spec fn rgba_seq(r: u8, g: u8, b: u8, a: u8) -> Seq<u8> {
    seq![r, g, b, a]
}

impl Color {
    /// Fully transparent black, `[0, 0, 0, 0]`.
    pub fn transparent() -> (c: Color)
        ensures
            channels(c) == rgba_seq(0, 0, 0, 0),
    {
        Color([0, 0, 0, 0])
    }

    /// Opaque black.
    pub fn black() -> (c: Color)
        ensures
            channels(c) == rgba_seq(0, 0, 0, 255),
    {
        Color([0, 0, 0, 255])
    }

    /// Opaque mid gray, `[160, 160, 160, 255]`.
    pub fn gray() -> (c: Color)
        ensures
            channels(c) == rgba_seq(160, 160, 160, 255),
    {
        Color([160, 160, 160, 255])
    }

    /// Opaque white.
    pub fn white() -> (c: Color)
        ensures
            channels(c) == rgba_seq(255, 255, 255, 255),
    {
        Color([255, 255, 255, 255])
    }

    /// Opaque red.
    pub fn red() -> (c: Color)
        ensures
            channels(c) == rgba_seq(255, 0, 0, 255),
    {
        Color([255, 0, 0, 255])
    }

    /// Opaque green.
    pub fn green() -> (c: Color)
        ensures
            channels(c) == rgba_seq(0, 255, 0, 255),
    {
        Color([0, 255, 0, 255])
    }

    /// Opaque blue.
    pub fn blue() -> (c: Color)
        ensures
            channels(c) == rgba_seq(0, 0, 255, 255),
    {
        Color([0, 0, 255, 255])
    }

    /// Opaque yellow.
    pub fn yellow() -> (c: Color)
        ensures
            channels(c) == rgba_seq(255, 255, 0, 255),
    {
        Color([255, 255, 0, 255])
    }

    /// An opaque colour.
    pub fn from_rgb(r: u8, g: u8, b: u8) -> (c: Color)
        ensures
            channels(c) == rgba_seq(r, g, b, 255),
    {
        Color([r, g, b, 255])
    }

    /// A colour from unmultiplied channels.
    ///
    /// Opaque and fully transparent colours are handled here. For any other
    /// alpha the gamma-space premultiplication of `r, g, b` by `a` is a
    /// floating-point computation; `premultiply` performs it and returns the
    /// premultiplied `(r, g, b)`, which is combined with `a`.
    pub fn from_rgba<F: Fn(u8, u8, u8, u8) -> (u8, u8, u8)>(
        r: u8,
        g: u8,
        b: u8,
        a: u8,
        premultiply: F,
    ) -> (c: Color)
        requires
            a != 0 && a != 255 ==> premultiply.requires((r, g, b, a)),
        ensures
            a == 255 ==> channels(c) == rgba_seq(r, g, b, 255),
            a == 0 ==> channels(c) == rgba_seq(0, 0, 0, 0),
            a != 0 && a != 255 ==> exists|p: (u8, u8, u8)|
                #[trigger] premultiply.ensures((r, g, b, a), p) && channels(c) == rgba_seq(
                    p.0,
                    p.1,
                    p.2,
                    a,
                ),
    {
        if a == 255 {
            Self::from_rgb(r, g, b)
        } else if a == 0 {
            Self::transparent()
        } else {
            let p = premultiply(r, g, b, a);
            Self::from_rgba_premultiplied(p.0, p.1, p.2, a)
        }
    }

    /// A colour whose channels are taken as given (already premultiplied).
    pub fn from_rgba_premultiplied(r: u8, g: u8, b: u8, a: u8) -> (c: Color)
        ensures
            channels(c) == rgba_seq(r, g, b, a),
    {
        Color([r, g, b, a])
    }

    /// An opaque gray of lightness `l`.
    pub fn from_gray(l: u8) -> (c: Color)
        ensures
            channels(c) == rgba_seq(l, l, l, 255),
    {
        Color([l, l, l, 255])
    }

    /// Black with alpha `a` (premultiplied, so all colour channels are zero).
    pub fn from_alpha(a: u8) -> (c: Color)
        ensures
            channels(c) == rgba_seq(0, 0, 0, a),
    {
        Color([0, 0, 0, a])
    }

    /// Whether the alpha channel is at its maximum.
    pub fn is_opaque(self) -> (res: bool)
        ensures
            res == (channels(self)[3] == 255),
    {
        self.a() == 255
    }

    /// The red channel.
    pub fn r(self) -> (v: u8)
        ensures
            v == channels(self)[0],
    {
        self.0[0]
    }

    /// The green channel.
    pub fn g(self) -> (v: u8)
        ensures
            v == channels(self)[1],
    {
        self.0[1]
    }

    /// The blue channel.
    pub fn b(self) -> (v: u8)
        ensures
            v == channels(self)[2],
    {
        self.0[2]
    }

    /// The alpha channel.
    pub fn a(self) -> (v: u8)
        ensures
            v == channels(self)[3],
    {
        self.0[3]
    }

    /// The same colour with its alpha channel set to 255.
    pub fn to_opaque(self) -> (c: Color)
        ensures
            channels(c) == channels(self).update(3, 255u8),
    {
        let r = self.r();
        let g = self.g();
        let b = self.b();
        let c = Color([r, g, b, 255]);
        assert(channels(c) =~= channels(self).update(3, 255u8));
        c
    }

    /// The channels as an array `[r, g, b, a]`.
    pub fn to_array(self) -> (arr: [u8; 4])
        ensures
            arr@ == channels(self),
    {
        let arr = [self.r(), self.g(), self.b(), self.a()];
        assert(arr@ =~= channels(self));
        arr
    }

    /// Mutable access to the four channels.
    pub fn mut_array(&mut self) -> (arr: &mut [u8; 4])
        ensures
            *arr == old(self).0,
            final(self).0 == *final(arr),
    {
        &mut self.0
    }

    /// The channels as a tuple `(r, g, b, a)`.
    pub fn to_tuple(self) -> (t: (u8, u8, u8, u8))
        ensures
            t == (channels(self)[0], channels(self)[1], channels(self)[2], channels(self)[3]),
    {
        (self.r(), self.g(), self.b(), self.a())
    }
}

/// A colour made opaque is opaque and keeps its red, green and blue;
/// making it opaque again changes nothing.
pub proof fn lemma_to_opaque_idempotent(c: Color)
    ensures
        channels(c).update(3, 255u8)[3] == 255,
        channels(c).update(3, 255u8).take(3) == channels(c).take(3),
        channels(c).update(3, 255u8).update(3, 255u8) == channels(c).update(3, 255u8),
{
    assert(channels(c).update(3, 255u8).take(3) =~= channels(c).take(3));
    assert(channels(c).update(3, 255u8).update(3, 255u8) =~= channels(c).update(3, 255u8));
}

impl Default for Color {
    /// Transparent black, `[0, 0, 0, 0]`.
    fn default() -> (c: Color)
        ensures
            channels(c) == rgba_seq(0, 0, 0, 0),
    {
        Color([0, 0, 0, 0])
    }
}

} // verus!
