//! What turning a picture and reading its samples keep.

use vstd::arithmetic::div_mod::lemma_fundamental_div_mod_converse;
use vstd::prelude::*;

use crate::bytes::{be32, lemma_ascii, occurs_at, utf8};
use crate::images::decode::{animation_declared_from, declares_animation};
use crate::images::model::{
    eight_bits, oriented, rgb8, rgba8, rgba_channel, turned_from, turned_samples, Layout,
    PictureValue, SamplesValue,
};
use crate::metadata::png_laws::{chunks_from, Chunk};

verus! {

/// The place of a channel of a pixel among the samples of a picture.
pub open spec fn sample_place(width: int, channels: int, x: int, y: int, channel: int) -> int {
    (y * width + x) * channels + channel
}

/// The column and the row to which an EXIF orientation moves a pixel of a picture: 2 mirrors
/// left and right, 3 turns by half, 4 mirrors top and bottom, 5 mirrors along the falling
/// diagonal, 6 turns clockwise by a quarter, 7 mirrors along the rising diagonal, and 8 turns
/// counterclockwise by a quarter.
pub open spec fn moved_to(width: int, height: int, orientation: u8, x: int, y: int) -> (int, int) {
    if orientation == 2 {
        (width - 1 - x, y)
    } else if orientation == 3 {
        (width - 1 - x, height - 1 - y)
    } else if orientation == 4 {
        (x, height - 1 - y)
    } else if orientation == 5 {
        (y, x)
    } else if orientation == 6 {
        (height - 1 - y, x)
    } else if orientation == 7 {
        (height - 1 - y, width - 1 - x)
    } else if orientation == 8 {
        (y, width - 1 - x)
    } else {
        (x, y)
    }
}

proof fn lemma_bounds(width: int, height: int, channels: int, x: int, y: int, channel: int)
    requires
        0 <= x < width,
        0 <= y < height,
        0 <= channel < channels,
    ensures
        0 <= sample_place(width, channels, x, y, channel) < width * height * channels,
{
    let pixel = y * width + x;
    assert(0 <= pixel < width * height) by (nonlinear_arith)
        requires
            0 <= x < width,
            0 <= y < height,
            pixel == y * width + x,
    ;
    assert(0 <= pixel * channels + channel < width * height * channels) by (nonlinear_arith)
        requires
            0 <= pixel < width * height,
            0 <= channel < channels,
    ;
}

proof fn lemma_moved<T>(
    samples: Seq<T>,
    width: int,
    height: int,
    channels: int,
    orientation: u8,
    x: int,
    y: int,
    channel: int,
)
    requires
        0 <= x < width,
        0 <= y < height,
        0 <= channel < channels,
        samples.len() == width * height * channels,
        orientation <= 8,
    ensures
        ({
            let (column, line) = moved_to(width, height, orientation, x, y);
            let row = if orientation <= 4 {
                width
            } else {
                height
            };
            turned_samples(samples, width, height, channels, orientation)[sample_place(
                row,
                channels,
                column,
                line,
                channel,
            )] == samples[sample_place(width, channels, x, y, channel)]
        }),
{
    let (column, line) = moved_to(width, height, orientation, x, y);
    let row = if orientation <= 4 {
        width
    } else {
        height
    };
    let rows = if orientation <= 4 {
        height
    } else {
        width
    };
    assert(0 <= column < row);
    assert(0 <= line < rows);
    lemma_bounds(row, rows, channels, column, line, channel);
    assert(row * rows * channels == width * height * channels) by (nonlinear_arith)
        requires
            (row == width && rows == height) || (row == height && rows == width),
    ;
    let pixel = line * row + column;
    let i = sample_place(row, channels, column, line, channel);
    assert(i == pixel * channels + channel);
    assert(i == channels * pixel + channel) by (nonlinear_arith)
        requires
            i == pixel * channels + channel,
    ;
    lemma_fundamental_div_mod_converse(i, channels, pixel, channel);
    assert(pixel == row * line + column) by (nonlinear_arith)
        requires
            pixel == line * row + column,
    ;
    lemma_fundamental_div_mod_converse(pixel, row, line, column);
    assert(i / channels == pixel);
    assert(i % channels == channel);
    assert(turned_from(width, height, orientation, column, line) == (x, y));
}

/// Turning a picture as an EXIF orientation says moves every channel of every pixel to its new
/// place, and the picture takes the new shape.
pub proof fn turning_moves_every_pixel(
    picture: PictureValue,
    orientation: u8,
    x: int,
    y: int,
    channel: int,
)
    requires
        picture.is_whole(),
        1 <= orientation <= 8,
        0 <= x < picture.width,
        0 <= y < picture.height,
        0 <= channel < picture.layout.channels(),
    ensures
        ({
            let turned = oriented(picture, orientation);
            let channels = picture.layout.channels() as int;
            let (column, line) = moved_to(
                picture.width as int,
                picture.height as int,
                orientation,
                x,
                y,
            );
            let from = sample_place(picture.width as int, channels, x, y, channel);
            let to = sample_place(turned.width as int, channels, column, line, channel);
            &&& 0 <= column < turned.width
            &&& 0 <= line < turned.height
            &&& turned.width == if orientation <= 4 {
                picture.width
            } else {
                picture.height
            }
            &&& turned.height == if orientation <= 4 {
                picture.height
            } else {
                picture.width
            }
            &&& match (picture.samples, turned.samples) {
                (SamplesValue::Eight(before), SamplesValue::Eight(after)) => after[to]
                    == before[from],
                (SamplesValue::Sixteen(before), SamplesValue::Sixteen(after)) => after[to]
                    == before[from],
                _ => false,
            }
        }),
{
    let (width, height) = (picture.width as int, picture.height as int);
    let channels = picture.layout.channels() as int;
    match picture.samples {
        SamplesValue::Eight(samples) => {
            lemma_moved(samples, width, height, channels, orientation, x, y, channel);
        },
        SamplesValue::Sixteen(samples) => {
            lemma_moved(samples, width, height, channels, orientation, x, y, channel);
        },
    }
}

/// A 16-bit sample becomes the 8-bit one that is nearest to it: none is nearer, since the
/// scales are 257 steps apart. An 8-bit sample stays.
pub proof fn samples_are_rounded_to_the_nearest(samples: SamplesValue, at: int)
    requires
        0 <= at < samples.len(),
    ensures
        match samples {
            SamplesValue::Eight(own) => eight_bits(samples, at) == own[at],
            SamplesValue::Sixteen(own) => -128 <= 257 * eight_bits(samples, at) - own[at] <= 128,
        },
{
}

/// The RGB and RGBA samples of a picture are four and three for each pixel: its own colours in
/// order, grey as the same in all three, its own alpha, and full alpha where it has none.
pub proof fn colours_are_read_in_order(picture: PictureValue, pixel: int, channel: int)
    requires
        picture.is_whole(),
        0 <= pixel < picture.pixels(),
        0 <= channel < 4,
    ensures
        rgba8(picture).len() == picture.pixels() * 4,
        rgb8(picture).len() == picture.pixels() * 3,
        channel < 3 ==> rgb8(picture)[pixel * 3 + channel] == rgba8(picture)[pixel * 4 + channel],
        rgba8(picture)[pixel * 4 + channel] == (match picture.layout {
            Layout::Luma => if channel < 3 {
                eight_bits(picture.samples, pixel)
            } else {
                255
            },
            Layout::LumaAlpha => eight_bits(
                picture.samples,
                if channel < 3 {
                    pixel * 2
                } else {
                    pixel * 2 + 1
                },
            ),
            Layout::Rgb => if channel < 3 {
                eight_bits(picture.samples, pixel * 3 + channel)
            } else {
                255
            },
            Layout::Rgba => eight_bits(picture.samples, pixel * 4 + channel),
        }),
{
    assert(rgba8(picture)[pixel * 4 + channel] == rgba_channel(picture, pixel, channel));
    if channel < 3 {
        assert(rgb8(picture)[pixel * 3 + channel] == rgba_channel(picture, pixel, channel));
    }
}

proof fn lemma_chunk_kinds()
    ensures
        utf8("acTL"@).len() == 4,
        utf8("IDAT"@).len() == 4,
        utf8("IEND"@).len() == 4,
        utf8("acTL"@) != utf8("IDAT"@),
        utf8("acTL"@) != utf8("IEND"@),
{
    reveal_strlit("acTL");
    reveal_strlit("IDAT");
    reveal_strlit("IEND");
    lemma_ascii("acTL");
    lemma_ascii("IDAT");
    lemma_ascii("IEND");
    assert(utf8("acTL"@)[0] == 0x61);
    assert(utf8("IDAT"@)[0] == 0x49);
    assert(utf8("IEND"@)[0] == 0x49);
}

/// Whether one of these chunks controls an animation, and none before it holds image data.
pub open spec fn controls_animation(chunks: Seq<Chunk>) -> bool {
    exists|k: int|
        0 <= k < chunks.len() && (#[trigger] chunks[k]).0 == utf8("acTL"@) && forall|j: int|
            0 <= j < k ==> (#[trigger] chunks[j]).0 != utf8("IDAT"@)
}

proof fn lemma_controls(first: Chunk, rest: Seq<Chunk>)
    ensures
        controls_animation(seq![first] + rest) == (first.0 == utf8("acTL"@) || (first.0 != utf8(
            "IDAT"@,
        ) && controls_animation(rest))),
{
    let all = seq![first] + rest;
    assert(all[0] == first);
    if first.0 == utf8("acTL"@) {
        assert(controls_animation(all));
    }
    if first.0 != utf8("IDAT"@) && controls_animation(rest) {
        let k = choose|k: int|
            0 <= k < rest.len() && (#[trigger] rest[k]).0 == utf8("acTL"@) && forall|j: int|
                0 <= j < k ==> (#[trigger] rest[j]).0 != utf8("IDAT"@);
        assert(all[k + 1] == rest[k]);
        assert forall|j: int| 0 <= j < k + 1 implies (#[trigger] all[j]).0 != utf8("IDAT"@) by {
            if j > 0 {
                assert(all[j] == rest[j - 1]);
            }
        }
        assert(controls_animation(all));
    }
    if controls_animation(all) && first.0 != utf8("acTL"@) {
        let k = choose|k: int|
            0 <= k < all.len() && (#[trigger] all[k]).0 == utf8("acTL"@) && forall|j: int|
                0 <= j < k ==> (#[trigger] all[j]).0 != utf8("IDAT"@);
        assert(all[0].0 != utf8("IDAT"@));
        assert(rest[k - 1] == all[k]);
        assert forall|j: int| 0 <= j < k - 1 implies (#[trigger] rest[j]).0 != utf8("IDAT"@) by {
            assert(all[j + 1] == rest[j]);
        }
        assert(controls_animation(rest));
    }
}

proof fn lemma_animated(bytes: Seq<u8>, from: int)
    requires
        0 <= from,
        is_ended(bytes, from),
    ensures
        animation_declared_from(bytes, from) == controls_animation(chunks_from(bytes, from)),
    decreases bytes.len() - from,
{
    lemma_chunk_kinds();
    let end = from + 12 + be32(bytes, from);
    let kind = bytes.subrange(from + 4, from + 8);
    assert(from + 12 <= bytes.len());
    assert(occurs_at(bytes, utf8("acTL"@), from + 4) == (kind == utf8("acTL"@)));
    assert(occurs_at(bytes, utf8("IDAT"@), from + 4) == (kind == utf8("IDAT"@)));
    assert(occurs_at(bytes, utf8("IEND"@), from + 4) == (kind == utf8("IEND"@)));
    if kind == utf8("IEND"@) {
        assert(chunks_from(bytes, from) =~= Seq::empty());
    } else {
        let chunk: Chunk = (kind, bytes.subrange(from + 8, end - 4));
        lemma_controls(chunk, chunks_from(bytes, end));
        lemma_animated(bytes, end);
    }
}

/// Whether the chunks from `from` on are whole and end with an end chunk.
pub open spec fn is_ended(bytes: Seq<u8>, from: int) -> bool
    decreases bytes.len() - from,
{
    if from < 0 || from + 12 > bytes.len() || from + 12 + be32(bytes, from) > bytes.len() {
        false
    } else {
        bytes.subrange(from + 4, from + 8) == utf8("IEND"@) || is_ended(
            bytes,
            from + 12 + be32(bytes, from),
        )
    }
}

/// A PNG is taken for an animation exactly when one of its chunks in front of the image data
/// controls an animation.
pub proof fn animated_pngs_are_told(bytes: Seq<u8>)
    requires
        is_ended(bytes, 8),
    ensures
        declares_animation(bytes) <==> controls_animation(chunks_from(bytes, 8)),
{
    lemma_animated(bytes, 8);
}

} // verus!
