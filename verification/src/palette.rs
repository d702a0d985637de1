//! The palette mapper: gives every label a color of a fixed palette, in the
//! order in which the labels are first met on the way through the image, and
//! paints the pixels with the colors of their labels.

use crate::raster::Rgba;
use std::collections::HashMap;
use vstd::prelude::*;

verus! {

broadcast use vstd::std_specs::hash::group_hash_axioms;

/// The number of colors in the palette.
pub const PALETTE_SIZE: usize = 23;

/// The colors of the palette, each as `0xRRGGBB`.
pub open spec fn palette_codes() -> Seq<u32> {
    seq![
        0x580000u32,
        0xff4040u32,
        0xfd6a6au32,
        0x001d72u32,
        0x0645ffu32,
        0x5681ffu32,
        0x004d02u32,
        0x09d20fu32,
        0x76ff7au32,
        0x816102u32,
        0xffbf00u32,
        0xffd558u32,
        0x813f00u32,
        0xff8615u32,
        0xffbf83u32,
        0xffd7b2u32,
        0x130f0bu32,
        0x420056u32,
        0x8a00b4u32,
        0xde74ffu32,
        0xbababau32,
        0x7a7a7au32,
        0x4b4b4bu32,
    ]
}

/// The opaque pixel of the color `0xRRGGBB`.
pub open spec fn color_of_code(code: u32) -> Rgba {
    Rgba {
        red: ((code / 0x10000) % 0x100) as u8,
        green: ((code / 0x100) % 0x100) as u8,
        blue: (code % 0x100) as u8,
        alpha: 255,
    }
}

/// The palette as pixels.
pub open spec fn palette() -> Seq<Rgba> {
    Seq::new(palette_codes().len(), |k: int| color_of_code(palette_codes()[k]))
}

/// The label occurs among the first `n` cells.
pub open spec fn occurs_before(labels: Seq<i32>, n: int, label: i32) -> bool {
    exists|k: int| 0 <= k < n && #[trigger] labels[k] == label
}

/// The label of cell `i` is a component's label that an earlier cell holds
/// too.
pub open spec fn met_before(labels: Seq<i32>, i: int) -> bool {
    labels[i] >= 0 && occurs_before(labels, i, labels[i])
}

/// The number of different component labels among the first `n` cells.
pub open spec fn labels_met(labels: Seq<i32>, n: int) -> nat
    decreases n,
{
    if n <= 0 {
        0
    } else if labels[n - 1] >= 0 && !met_before(labels, n - 1) {
        labels_met(labels, n - 1) + 1
    } else {
        labels_met(labels, n - 1)
    }
}

/// The colors of the component labels among the first `n` cells: the label
/// that is met as the `k`-th new one gets color `k` of the palette, counted
/// from zero and starting over when the palette is used up.
pub open spec fn color_table(labels: Seq<i32>, n: int) -> Map<i32, Rgba>
    decreases n,
{
    if n <= 0 {
        Map::empty()
    } else {
        let before = color_table(labels, n - 1);
        let label = labels[n - 1];
        if label >= 0 && !met_before(labels, n - 1) {
            before.insert(label, palette()[(labels_met(labels, n - 1) % palette().len()) as int])
        } else {
            before
        }
    }
}

/// The image once it is painted: every foreground pixel has the color of its
/// label, and every background pixel keeps its own.
pub open spec fn painted(labels: Seq<i32>, pixels: Seq<Rgba>) -> Seq<Rgba> {
    Seq::new(
        pixels.len(),
        |i: int|
            if labels[i] >= 0 {
                color_table(labels, i + 1)[labels[i]]
            } else {
                pixels[i]
            },
    )
}

/// The color table of the first `n` cells holds the component labels that
/// occur among them, and there are at most `n` of these.
pub proof fn lemma_color_table_domain(labels: Seq<i32>, n: int)
    requires
        0 <= n <= labels.len(),
    ensures
        labels_met(labels, n) <= n,
        forall|label: i32|
            #![trigger color_table(labels, n).dom().contains(label)]
            #![trigger occurs_before(labels, n, label)]
            color_table(labels, n).dom().contains(label) <==> label >= 0 && occurs_before(
                labels,
                n,
                label,
            ),
    decreases n,
{
    if n > 0 {
        lemma_color_table_domain(labels, n - 1);
        let earlier = color_table(labels, n - 1);
        let last = labels[n - 1];
        assert forall|label: i32|
            color_table(labels, n).dom().contains(label) <==> label >= 0 && occurs_before(
                labels,
                n,
                label,
            ) by {
            assert(earlier.dom().contains(label) <==> label >= 0 && occurs_before(
                labels,
                n - 1,
                label,
            ));
            assert(earlier.dom().contains(last) <==> last >= 0 && occurs_before(
                labels,
                n - 1,
                last,
            ));
            if occurs_before(labels, n - 1, label) {
                let k = choose|k: int| 0 <= k < n - 1 && #[trigger] labels[k] == label;
                assert(0 <= k < n && labels[k] == label);
            }
            if occurs_before(labels, n, label) {
                let k = choose|k: int| 0 <= k < n && #[trigger] labels[k] == label;
                if k < n - 1 {
                    assert(occurs_before(labels, n - 1, label));
                }
            }
            if label == last {
                assert(labels[n - 1] == label);
            }
        }
    }
}

/// A label keeps the color that it was given when it was first met.
pub proof fn lemma_color_table_keeps(labels: Seq<i32>, n: int, m: int, label: i32)
    requires
        0 <= n <= m <= labels.len(),
        color_table(labels, n).dom().contains(label),
    ensures
        color_table(labels, m).dom().contains(label),
        color_table(labels, m)[label] == color_table(labels, n)[label],
    decreases m - n,
{
    if n < m {
        lemma_color_table_keeps(labels, n, m - 1, label);
        lemma_color_table_domain(labels, m - 1);
        assert(label >= 0 && occurs_before(labels, m - 1, label));
    }
}

/// The color of a label is decided by its rank, the number of different
/// component labels that are met before its first pixel: the label has color
/// `rank % 23` of the palette.
pub proof fn lemma_color_by_rank(labels: Seq<i32>, n: int, first: int)
    requires
        0 <= first < n <= labels.len(),
        labels[first] >= 0,
        !met_before(labels, first),
    ensures
        color_table(labels, n).dom().contains(labels[first]),
        color_table(labels, n)[labels[first]] == palette()[(labels_met(labels, first)
            % PALETTE_SIZE as nat) as int],
{
    assert(palette().len() == PALETTE_SIZE);
    assert(color_table(labels, first + 1).dom().contains(labels[first]));
    lemma_color_table_keeps(labels, first + 1, n, labels[first]);
}

/// In the painted image every foreground pixel has the color that the whole
/// table gives its label, so pixels of one label have one color.
pub proof fn lemma_painted_by_table(labels: Seq<i32>, pixels: Seq<Rgba>, k: int)
    requires
        pixels.len() <= labels.len(),
        0 <= k < pixels.len(),
        labels[k] >= 0,
    ensures
        color_table(labels, pixels.len() as int).dom().contains(labels[k]),
        painted(labels, pixels)[k] == color_table(labels, pixels.len() as int)[labels[k]],
{
    lemma_color_table_domain(labels, k + 1);
    assert(occurs_before(labels, k + 1, labels[k]));
    lemma_color_table_keeps(labels, k + 1, pixels.len() as int, labels[k]);
}

/// Makes the opaque pixel of the color `0xRRGGBB`.
pub fn color_from_code(code: u32) -> (color: Rgba)
    ensures
        color == color_of_code(code),
{
    let red = (code >> 16) & 0xff;
    let green = (code >> 8) & 0xff;
    let blue = code & 0xff;
    assert((code >> 16) & 0xff == (code / 0x10000) % 0x100) by (bit_vector);
    assert((code >> 8) & 0xff == (code / 0x100) % 0x100) by (bit_vector);
    assert(code & 0xff == code % 0x100) by (bit_vector);
    Rgba { red: red as u8, green: green as u8, blue: blue as u8, alpha: 255 }
}

/// Makes the palette.
pub fn palette_colors() -> (colors: Vec<Rgba>)
    ensures
        colors@ == palette(),
        colors@.len() == PALETTE_SIZE,
{
    let codes: Vec<u32> = vec![
        0x580000,
        0xff4040,
        0xfd6a6a,
        0x001d72,
        0x0645ff,
        0x5681ff,
        0x004d02,
        0x09d20f,
        0x76ff7a,
        0x816102,
        0xffbf00,
        0xffd558,
        0x813f00,
        0xff8615,
        0xffbf83,
        0xffd7b2,
        0x130f0b,
        0x420056,
        0x8a00b4,
        0xde74ff,
        0xbababa,
        0x7a7a7a,
        0x4b4b4b,
    ];
    assert(codes@ =~= palette_codes());
    let mut colors: Vec<Rgba> = Vec::with_capacity(codes.len());
    let mut k: usize = 0;
    while k < codes.len()
        invariant
            k <= codes.len(),
            codes@ == palette_codes(),
            colors@ == palette().subrange(0, k as int),
        decreases codes.len() - k,
    {
        colors.push(color_from_code(codes[k]));
        assert(colors@ =~= palette().subrange(0, k + 1));
        k = k + 1;
    }
    assert(colors@ =~= palette());
    colors
}

/// Colors an image by its labels. Goes through the pixels in order; a label
/// that is met for the first time gets the next color of the palette, and
/// every foreground pixel is painted with the color of its label. Background
/// pixels are left as they are. Returns the color of every label.
pub fn colorize(labels: &Vec<i32>, pixels: &mut Vec<Rgba>) -> (colors: HashMap<i32, Rgba>)
    requires
        labels@.len() >= old(pixels)@.len(),
    ensures
        colors@ == color_table(labels@, old(pixels)@.len() as int),
        final(pixels)@ == painted(labels@, old(pixels)@),
        forall|k: int|
            #![trigger labels@[k]]
            0 <= k < old(pixels)@.len() && labels@[k] >= 0 ==> colors@.dom().contains(labels@[k])
                && final(pixels)@[k] == colors@[labels@[k]],
        forall|k: int|
            #![trigger labels@[k]]
            0 <= k < old(pixels)@.len() && labels@[k] < 0 ==> final(pixels)@[k] == old(pixels)@[k],
{
    let palette = palette_colors();
    let ghost before = pixels@;
    let mut color_index: usize = 0;
    let mut colors: HashMap<i32, Rgba> = HashMap::new();
    let mut index: usize = 0;
    assert(pixels@ =~= Seq::new(
        before.len(),
        |i: int|
            if i < 0 {
                painted(labels@, before)[i]
            } else {
                before[i]
            },
    ));
    while index < pixels.len()
        invariant
            index <= before.len() <= labels@.len(),
            palette@ == self::palette(),
            palette@.len() == PALETTE_SIZE,
            color_index == labels_met(labels@, index as int) <= index,
            colors@ == color_table(labels@, index as int),
            pixels@ == Seq::new(
                before.len(),
                |i: int|
                    if i < index {
                        painted(labels@, before)[i]
                    } else {
                        before[i]
                    },
            ),
        decreases before.len() - index,
    {
        let label = labels[index];
        proof {
            lemma_color_table_domain(labels@, index as int);
            lemma_color_table_domain(labels@, index + 1);
        }
        if label >= 0 {
            match colors.get(&label) {
                Some(color) => {
                    pixels[index] = *color;
                },
                None => {
                    let color = palette[color_index % palette.len()];
                    colors.insert(label, color);
                    pixels[index] = color;
                    color_index = color_index + 1;
                },
            }
        }
        assert(pixels@ =~= Seq::new(
            before.len(),
            |i: int|
                if i < index + 1 {
                    painted(labels@, before)[i]
                } else {
                    before[i]
                },
        ));
        index = index + 1;
    }
    assert(pixels@ =~= painted(labels@, before));
    proof {
        assert forall|k: int|
            #![trigger labels@[k]]
            0 <= k < before.len() && labels@[k] >= 0 implies colors@.dom().contains(labels@[k])
            && pixels@[k] == colors@[labels@[k]] by {
            lemma_painted_by_table(labels@, before, k);
        }
    }
    colors
}

} // verus!
