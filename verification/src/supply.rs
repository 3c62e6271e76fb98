use vstd::prelude::*;

use crate::color::Rgba;

verus! {

/// An ordered, finite supply of colors, consumed strictly front to back, one
/// color per placement.
pub struct ColorSupply {
    colors: Vec<Rgba>,
    cursor: usize,
}

impl View for ColorSupply {
    type V = Seq<Rgba>;

    /// The colors not yet consumed, in the order they will be handed out.
    closed spec fn view(&self) -> Seq<Rgba> {
        self.colors@.skip(self.cursor as int)
    }
}

impl ColorSupply {
    /// The cursor never runs past the end of the backing list.
    pub closed spec fn inv(self) -> bool {
        self.cursor <= self.colors@.len()
    }

    /// A supply that will hand out exactly the given colors, in order.
    pub fn new(colors: Vec<Rgba>) -> (s: ColorSupply)
        ensures
            s.inv(),
            s@ == colors@,
    {
        let s = ColorSupply { colors, cursor: 0 };
        proof {
            assert(s@ =~= s.colors@);
        }
        s
    }

    /// How many colors are still unconsumed.
    pub fn remaining(&self) -> (r: usize)
        requires
            self.inv(),
        ensures
            r == self@.len(),
    {
        self.colors.len() - self.cursor
    }

    /// Hands out the next color and advances the cursor, so that no color is
    /// ever returned twice; `None` once the supply is exhausted.
    pub fn next(&mut self) -> (r: Option<Rgba>)
        requires
            old(self).inv(),
        ensures
            final(self).inv(),
            old(self)@.len() == 0 ==> r is None && final(self)@ == old(self)@,
            old(self)@.len() > 0 ==> r == Some(old(self)@[0]) && final(self)@ == old(
                self,
            )@.drop_first(),
    {
        if self.cursor < self.colors.len() {
            let c = self.colors[self.cursor];
            self.cursor = self.cursor + 1;
            proof {
                assert(self@ =~= old(self)@.drop_first());
            }
            Some(c)
        } else {
            None
        }
    }
}

/// Relies on rand::random: draws one byte from the thread-local generator.
/// Nothing is promised of the value.
#[verifier::external_body]
fn random_byte() -> u8 {
    rand::random()
}

/// A random fully opaque color: random red, green and blue channels.
pub fn random_color() -> (c: Rgba)
    ensures
        c.a == 255,
{
    Rgba { r: random_byte(), g: random_byte(), b: random_byte(), a: 255u8 }
}

/// A supply of `n` random fully opaque colors.
pub fn random_supply(n: usize) -> (s: ColorSupply)
    ensures
        s.inv(),
        s@.len() == n,
        forall|i: int| 0 <= i < n ==> s@[i].a == 255,
{
    let mut colors: Vec<Rgba> = Vec::new();
    let mut k: usize = 0;
    while k < n
        invariant
            k <= n,
            colors@.len() == k,
            forall|i: int| 0 <= i < k ==> colors@[i].a == 255,
        decreases n - k,
    {
        colors.push(random_color());
        k = k + 1;
    }
    ColorSupply::new(colors)
}

} // verus!
