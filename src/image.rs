//! Layered images: a string of digits split into layers of
//! `width * height` pixels, where 2 is transparent.
use itertools::Itertools;
use vstd::prelude::*;

use crate::program::{trim_end, trim_start, trimmed_chars};

verus! {

/// `items` cut into consecutive pieces of `size`, the last one possibly shorter.
pub open spec fn chunked(items: Seq<u8>, size: nat) -> Seq<Seq<u8>>
    recommends
        size > 0,
{
    Seq::new(
        ((items.len() + size - 1) / size as int) as nat,
        |i: int|
            items.subrange(
                i * size,
                if (i + 1) * size <= items.len() {
                    (i + 1) * size
                } else {
                    items.len() as int
                },
            ),
    )
}

/// Relies on itertools' `Itertools::chunks`: consecutive chunks of `size`
/// items, the last one shorter if the items run out.
#[verifier::external_body]
fn chunks_of(items: &Vec<u8>, size: usize) -> (r: Vec<Vec<u8>>)
    requires
        size > 0,
    ensures
        r@.len() == chunked(items@, size as nat).len(),
        forall|i: int| 0 <= i < r@.len() ==> #[trigger] r@[i]@ == chunked(items@, size as nat)[i],
{
    items.iter().copied().chunks(size).into_iter().map(|c| c.collect()).collect()
}

/// The pixel values of a run of decimal digits, or `None` if one is not a digit.
pub open spec fn digit_pixels(s: Seq<char>) -> Option<Seq<u8>>
    decreases s.len(),
{
    if s.len() == 0 {
        Some(Seq::<u8>::empty())
    } else {
        match digit_pixels(s.drop_last()) {
            Some(p) => if '0' <= s.last() && s.last() <= '9' {
                Some(p.push((s.last() as int - '0' as int) as u8))
            } else {
                None
            },
            None => None,
        }
    }
}

/// How often `v` occurs in `s`.
pub open spec fn count_of(s: Seq<u8>, v: u8) -> nat
    decreases s.len(),
{
    if s.len() == 0 {
        0
    } else {
        count_of(s.drop_last(), v) + if s.last() == v {
            1nat
        } else {
            0nat
        }
    }
}

/// The first layer with the fewest zeros.
pub open spec fn fewest_zeros(layers: Seq<Seq<u8>>) -> int
    decreases layers.len(),
{
    if layers.len() <= 1 {
        0
    } else {
        let j = fewest_zeros(layers.drop_last());
        if count_of(layers.last(), 0) < count_of(layers[j], 0) {
            layers.len() - 1
        } else {
            j
        }
    }
}

/// Ones times twos in the layer with the fewest zeros; zero without layers.
pub open spec fn best_layer_sum(layers: Seq<Seq<u8>>) -> int {
    if layers.len() == 0 {
        0
    } else {
        let l = layers[fewest_zeros(layers)];
        count_of(l, 1) as int * count_of(l, 2) as int
    }
}

/// The visible pixel at `idx`: the first layer's pixel there that is not
/// transparent, else transparent.
pub open spec fn merged_pixel(layers: Seq<Seq<u8>>, idx: int) -> u8
    decreases layers.len(),
{
    if layers.len() == 0 {
        2
    } else if idx < layers[0].len() && layers[0][idx] != 2 {
        layers[0][idx]
    } else {
        merged_pixel(layers.drop_first(), idx)
    }
}

/// How a pixel is drawn.
pub open spec fn glyph(pixel: u8) -> char {
    if pixel == 0 {
        ' '
    } else if pixel == 1 {
        '*'
    } else {
        '.'
    }
}

/// The pixels as text, `width` to a line.
pub open spec fn render(pixels: Seq<u8>, width: nat) -> Seq<char>
    decreases pixels.len(),
{
    if pixels.len() == 0 {
        Seq::<char>::empty()
    } else {
        let i = pixels.len() - 1;
        let prefix = render(pixels.drop_last(), width);
        let line = if i > 0 && i % (width as int) == 0 {
            prefix.push('\n')
        } else {
            prefix
        };
        line.push(glyph(pixels.last()))
    }
}

/// An image of `width * height` pixels in layers, front first.
#[derive(Debug)]
pub struct Image {
    width: usize,
    height: usize,
    layers: Vec<Vec<u8>>,
}

/// The abstract value of an image.
pub struct ImageModel {
    pub width: nat,
    pub height: nat,
    pub layers: Seq<Seq<u8>>,
}

impl View for Image {
    type V = ImageModel;

    closed spec fn view(&self) -> ImageModel {
        ImageModel {
            width: self.width as nat,
            height: self.height as nat,
            layers: self.layers@.map_values(|l: Vec<u8>| l@),
        }
    }
}

impl Image {
    /// Layers are no longer than `width * height`, which is positive.
    pub open spec fn wf(&self) -> bool {
        &&& 0 < self@.width * self@.height <= usize::MAX
        &&& forall|k: int|
            0 <= k < self@.layers.len() ==> #[trigger] self@.layers[k].len() <= self@.width
                * self@.height
    }

    /// Reads an image from its digits, with surrounding whitespace trimmed.
    /// `None` when a character is not a decimal digit.
    pub fn decode(data: &str, width: usize, height: usize) -> (r: Option<Image>)
        requires
            0 < width * height <= usize::MAX,
        ensures
            match digit_pixels(trim_end(trim_start(data@))) {
                Some(p) => r is Some && r->0.wf() && r->0@ == (ImageModel {
                    width: width as nat,
                    height: height as nat,
                    layers: chunked(p, (width * height) as nat),
                }),
                None => r is None,
            },
    {
        let (chars, lo, hi) = trimmed_chars(data);
        let mut pixels: Vec<u8> = Vec::new();
        let mut i = lo;
        while i < hi
            invariant
                lo <= i <= hi <= chars@.len(),
                chars@.subrange(lo as int, hi as int) == trim_end(trim_start(data@)),
                digit_pixels(chars@.subrange(lo as int, i as int)) == Some(pixels@),
            decreases hi - i,
        {
            let c = chars[i];
            proof {
                assert(chars@.subrange(lo as int, i + 1).drop_last() =~= chars@.subrange(
                    lo as int,
                    i as int,
                ));
            }
            if '0' <= c && c <= '9' {
                pixels.push((c as u32 - '0' as u32) as u8);
                proof {
                    assert(chars@.subrange(lo as int, i + 1).last() == c);
                }
            } else {
                proof {
                    let prefix = chars@.subrange(lo as int, i + 1);
                    let all = chars@.subrange(lo as int, hi as int);
                    assert(prefix.last() == c);
                    assert(digit_pixels(prefix) is None);
                    assert(all.subrange(0, prefix.len() as int) =~= prefix);
                    lemma_digit_pixels_extends(prefix, all);
                }
                return None;
            }
            i = i + 1;
        }
        let size = width * height;
        let chunks = chunks_of(&pixels, size);
        let ghost layers = chunked(pixels@, size as nat);
        proof {
            let n = pixels@.len() as int;
            let sz = size as int;
            assert forall|k: int| 0 <= k < layers.len() implies #[trigger] layers[k].len() <= size by {
                assert(k * sz + sz == (k + 1) * sz) by (nonlinear_arith);
                assert(k * sz <= n - 1) by (nonlinear_arith)
                    requires
                        0 <= k < (n + sz - 1) / sz,
                        sz > 0,
                        n >= 0,
                ;
            }
            assert(pixels@.len() == 0 || (n + sz - 1) / sz >= 1) by (nonlinear_arith)
                requires
                    n == pixels@.len(),
                    sz > 0,
            ;
        }
        let image = Image { width, height, layers: chunks };
        assert(image@.layers =~= layers);
        Some(image)
    }

    /// Ones times twos in the layer with the fewest zeros (the first such
    /// layer); zero without layers. `None` if the product overflows.
    pub fn find_best_layer_sum(&self) -> (r: Option<usize>)
        ensures
            best_layer_sum(self@.layers) <= usize::MAX ==> r == Some(best_layer_sum(self@.layers) as usize),
            best_layer_sum(self@.layers) > usize::MAX ==> r is None,
    {
        let ghost ls = self@.layers;
        if self.layers.len() == 0 {
            return Some(0);
        }
        let (z0, o0, t0) = layer_counts(&self.layers[0]);
        let mut best = (z0, o0, t0);
        let ghost mut best_index: int = 0;
        let mut k: usize = 1;
        while k < self.layers.len()
            invariant
                ls == self@.layers,
                1 <= k <= ls.len(),
                best_index == fewest_zeros(ls.subrange(0, k as int)),
                0 <= best_index < k,
                best.0 == count_of(ls[best_index], 0),
                best.1 == count_of(ls[best_index], 1),
                best.2 == count_of(ls[best_index], 2),
            decreases self.layers.len() - k,
        {
            let (z, o, t) = layer_counts(&self.layers[k]);
            proof {
                assert(ls.subrange(0, k + 1).drop_last() =~= ls.subrange(0, k as int));
                assert(ls.subrange(0, k as int)[best_index] == ls[best_index]);
            }
            if z < best.0 {
                best = (z, o, t);
                proof {
                    best_index = k as int;
                }
            }
            k = k + 1;
        }
        proof {
            assert(ls.subrange(0, ls.len() as int) =~= ls);
        }
        best.1.checked_mul(best.2)
    }

    /// The visible image: each pixel from the front-most layer that is not
    /// transparent there.
    pub fn merge_layers(&self) -> (r: Vec<u8>)
        requires
            self.wf(),
        ensures
            r@.len() == self@.width * self@.height,
            forall|idx: int| 0 <= idx < r@.len() ==> #[trigger] r@[idx] == merged_pixel(self@.layers, idx),
    {
        let ghost ls = self@.layers;
        let size = self.width * self.height;
        let mut rv: Vec<u8> = vec![2; size];
        let mut k = self.layers.len();
        while k > 0
            invariant
                ls == self@.layers,
                self.wf(),
                size == self@.width * self@.height,
                k <= ls.len(),
                rv@.len() == size,
                forall|idx: int|
                    0 <= idx < size ==> #[trigger] rv@[idx] == merged_pixel(ls.subrange(k as int, ls.len() as int), idx),
            decreases k,
        {
            k = k - 1;
            let layer = &self.layers[k];
            let ghost rest = ls.subrange(k + 1, ls.len() as int);
            let ghost here = ls.subrange(k as int, ls.len() as int);
            proof {
                assert(here.drop_first() =~= rest);
                assert(here[0] == ls[k as int]);
                assert(layer@ == ls[k as int]);
            }
            let mut idx: usize = 0;
            while idx < layer.len()
                invariant
                    ls == self@.layers,
                    layer@ == ls[k as int],
                    layer@.len() <= size,
                    here.drop_first() == rest,
                    here[0] == layer@,
                    here.len() > 0,
                    idx <= layer@.len(),
                    rv@.len() == size,
                    forall|j: int|
                        0 <= j < size ==> #[trigger] rv@[j] == if j < idx {
                            merged_pixel(here, j)
                        } else {
                            merged_pixel(rest, j)
                        },
                decreases layer.len() - idx,
            {
                let pixel = layer[idx];
                if pixel != 2 {
                    rv.set(idx, pixel);
                }
                idx = idx + 1;
            }
        }
        proof {
            assert(ls.subrange(0, ls.len() as int) =~= ls);
        }
        rv
    }

    /// The visible image as text: a space for 0, `*` for 1, `.` otherwise,
    /// `width` pixels to a line.
    pub fn draw(&self) -> (r: String)
        requires
            self.wf(),
        ensures
            exists|p: Seq<u8>|
                p.len() == self@.width * self@.height && (forall|idx: int|
                    0 <= idx < p.len() ==> #[trigger] p[idx] == merged_pixel(self@.layers, idx)) && r@
                    == render(p, self@.width),
    {
        let pixels = self.merge_layers();
        let mut rv = String::new();
        assert(self@.width > 0) by (nonlinear_arith)
            requires
                self@.width * self@.height > 0,
        ;
        let mut idx: usize = 0;
        while idx < pixels.len()
            invariant
                self.wf(),
                self.width > 0,
                idx <= pixels@.len(),
                rv@ == render(pixels@.subrange(0, idx as int), self@.width),
            decreases pixels.len() - idx,
        {
            proof {
                assert(pixels@.subrange(0, idx + 1).drop_last() =~= pixels@.subrange(0, idx as int));
            }
            proof {
                reveal_strlit("\n");
                reveal_strlit(" ");
                reveal_strlit("*");
                reveal_strlit(".");
            }
            let ghost sub = pixels@.subrange(0, idx + 1);
            let ghost prefix = render(pixels@.subrange(0, idx as int), self@.width);
            assert(sub.last() == pixels@[idx as int]);
            if idx > 0 && idx % self.width == 0 {
                rv.append("\n");
                assert(rv@ =~= prefix.push('\n'));
            } else {
                assert(rv@ == prefix);
            }
            let ghost line = rv@;
            let pixel = pixels[idx];
            if pixel == 0 {
                rv.append(" ");
            } else if pixel == 1 {
                rv.append("*");
            } else {
                rv.append(".");
            }
            assert(rv@ =~= line.push(glyph(pixel)));
            idx = idx + 1;
        }
        proof {
            assert(pixels@.subrange(0, pixels@.len() as int) =~= pixels@);
        }
        rv
    }
}

/// Zeros, ones and twos in a layer.
fn layer_counts(layer: &Vec<u8>) -> (r: (usize, usize, usize))
    ensures
        r.0 == count_of(layer@, 0),
        r.1 == count_of(layer@, 1),
        r.2 == count_of(layer@, 2),
{
    let mut z: usize = 0;
    let mut o: usize = 0;
    let mut t: usize = 0;
    let mut i: usize = 0;
    while i < layer.len()
        invariant
            i <= layer@.len(),
            z == count_of(layer@.subrange(0, i as int), 0),
            o == count_of(layer@.subrange(0, i as int), 1),
            t == count_of(layer@.subrange(0, i as int), 2),
            z + o + t <= i,
        decreases layer.len() - i,
    {
        proof {
            assert(layer@.subrange(0, i + 1).drop_last() =~= layer@.subrange(0, i as int));
        }
        let x = layer[i];
        if x == 0 {
            z = z + 1;
        } else if x == 1 {
            o = o + 1;
        } else if x == 2 {
            t = t + 1;
        }
        i = i + 1;
    }
    proof {
        assert(layer@.subrange(0, layer@.len() as int) =~= layer@);
    }
    (z, o, t)
}

/// Once a prefix holds a character that is not a digit, so does every
/// longer text.
proof fn lemma_digit_pixels_extends(prefix: Seq<char>, s: Seq<char>)
    requires
        prefix.len() <= s.len(),
        prefix == s.subrange(0, prefix.len() as int),
        digit_pixels(prefix) is None,
    ensures
        digit_pixels(s) is None,
    decreases s.len(),
{
    if s.len() > prefix.len() {
        assert(s.drop_last().subrange(0, prefix.len() as int) =~= prefix);
        lemma_digit_pixels_extends(prefix, s.drop_last());
    } else {
        assert(s =~= prefix);
    }
}

} // verus!
