//! What the dumps hold: images of palettes and screens as rows of RGB
//! pixels, and the header of a sound file.

use crate::archive::rescale_6_bit_color_to_8_bit;
use crate::bytes_ext::{le_bytes_u16, le_bytes_u32, write_le_u16, write_le_u32};
use crate::rnc_decompress::append_bytes;
use vstd::prelude::*;

verus! {

/// The number of bytes in a palette: 256 colours of three components.
pub const PALETTE_LEN: usize = 768;

/// The number of bytes in a screen: 320 by 200 pixels, one byte each.
pub const SCREEN_LEN: usize = 64000;

/// The number of bytes in the image of a palette: 256 by 256 RGB pixels.
pub const PALETTE_IMAGE_LEN: usize = 196608;

/// The number of bytes in the image of a screen: 320 by 200 RGB pixels.
pub const SCREEN_IMAGE_LEN: usize = 192000;

/// A colour component of six bits scaled to eight bits.
pub open spec fn rescaled(c: u8) -> u8 {
    (((255 * c) / 63) % 256) as u8
}

/// Byte `k` of the image of a palette. The image is a grid of 16 by 16
/// squares, one for each colour in index order, each 16 by 16 pixels.
pub open spec fn palette_image_byte(data: Seq<u8>, k: int) -> u8 {
    let y = k / 768;
    let x = (k / 3) % 256;
    rescaled(data[3 * (16 * (y / 16) + x / 16) + k % 3])
}

/// The image of the palette `data`, as 256 rows of 256 RGB pixels.
pub fn palette_image(data: &[u8]) -> (image: Vec<u8>)
    requires
        data@.len() >= 768,
    ensures
        image@.len() == 196608,
        forall|k: int| 0 <= k < 196608 ==> #[trigger] image@[k] == palette_image_byte(data@, k),
{
    let mut image: Vec<u8> = Vec::with_capacity(PALETTE_IMAGE_LEN);
    let mut k: usize = 0;
    while k < PALETTE_IMAGE_LEN
        invariant
            k <= 196608,
            data@.len() >= 768,
            image@.len() == k,
            forall|i: int| 0 <= i < k ==> #[trigger] image@[i] == palette_image_byte(data@, i),
        decreases 196608 - k,
    {
        let y: usize = k / 768;
        let x: usize = (k / 3) % 256;
        let in_ofs: usize = 16 * (y / 16) + x / 16;
        image.push(rescale_6_bit_color_to_8_bit(data[3 * in_ofs + k % 3]));
        k = k + 1;
    }
    image
}

/// The image of the screen `data` in shades of grey: each pixel has its byte
/// as all three components.
pub fn grayscale_image(data: &[u8]) -> (image: Vec<u8>)
    requires
        data@.len() >= 64000,
    ensures
        image@.len() == 192000,
        forall|k: int| 0 <= k < 192000 ==> #[trigger] image@[k] == data@[k / 3],
{
    let mut image: Vec<u8> = Vec::with_capacity(SCREEN_IMAGE_LEN);
    let mut k: usize = 0;
    while k < SCREEN_IMAGE_LEN
        invariant
            k <= 192000,
            data@.len() >= 64000,
            image@.len() == k,
            forall|i: int| 0 <= i < k ==> #[trigger] image@[i] == data@[i / 3],
        decreases 192000 - k,
    {
        image.push(data[k / 3]);
        k = k + 1;
    }
    image
}

/// The image of the screen `screen` in the colours of the palette `pal`:
/// each pixel has the three components of the colour that its byte names,
/// scaled to eight bits. The palette must hold every colour that a pixel
/// names; it need not hold the others.
pub fn paletted_image(screen: &[u8], pal: &[u8]) -> (image: Vec<u8>)
    requires
        screen@.len() >= 64000,
        forall|k: int| 0 <= k < 192000 ==> 3 * #[trigger] screen@[k / 3] + k % 3 < pal@.len(),
    ensures
        image@.len() == 192000,
        forall|k: int|
            0 <= k < 192000 ==> #[trigger] image@[k] == rescaled(pal@[3 * screen@[k / 3] + k % 3]),
{
    let mut image: Vec<u8> = Vec::with_capacity(SCREEN_IMAGE_LEN);
    let mut k: usize = 0;
    while k < SCREEN_IMAGE_LEN
        invariant
            k <= 192000,
            screen@.len() >= 64000,
            forall|i: int| 0 <= i < 192000 ==> 3 * #[trigger] screen@[i / 3] + i % 3 < pal@.len(),
            image@.len() == k,
            forall|i: int|
                0 <= i < k ==> #[trigger] image@[i] == rescaled(pal@[3 * screen@[i / 3] + i % 3]),
        decreases 192000 - k,
    {
        let c: usize = screen[k / 3] as usize;
        image.push(rescale_6_bit_color_to_8_bit(pal[3 * c + k % 3]));
        k = k + 1;
    }
    image
}

/// The sample rate of the sounds, in samples per second.
pub const SAMPLE_RATE: u32 = 11025;

/// The header of a sound file for `data_len` bytes of samples: one channel
/// of unsigned 8-bit samples in a RIFF container.
pub open spec fn wav_header_bytes(data_len: u32) -> Seq<u8> {
    seq![0x52u8, 0x49u8, 0x46u8, 0x46u8] + le_bytes_u32((data_len + 36) as u32) + seq![
        0x57u8,
        0x41u8,
        0x56u8,
        0x45u8,
    ] + seq![0x66u8, 0x6du8, 0x74u8, 0x20u8] + le_bytes_u32(16) + le_bytes_u16(1) + le_bytes_u16(1)
        + le_bytes_u32(11025) + le_bytes_u32(11025) + le_bytes_u16(1) + le_bytes_u16(8) + seq![
        0x64u8,
        0x61u8,
        0x74u8,
        0x61u8,
    ] + le_bytes_u32(data_len)
}

/// Builds the header of a sound file for `data_len` bytes of samples.
pub fn wav_header(data_len: u32) -> (header: Vec<u8>)
    requires
        data_len + 36 <= u32::MAX,
    ensures
        header@ == wav_header_bytes(data_len),
        header@.len() == 44,
{
    let audio_format: u16 = 1;
    let num_channels: u16 = 1;
    let bytes_per_sample: u16 = 1;
    let byte_rate: u32 = SAMPLE_RATE * (num_channels as u32) * (bytes_per_sample as u32);
    let block_align: u16 = num_channels * bytes_per_sample;
    let bits_per_sample: u16 = bytes_per_sample * 8;

    let mut header: Vec<u8> = Vec::new();
    let riff: [u8; 4] = [0x52, 0x49, 0x46, 0x46];
    let wave: [u8; 4] = [0x57, 0x41, 0x56, 0x45];
    let fmt: [u8; 4] = [0x66, 0x6d, 0x74, 0x20];
    let data: [u8; 4] = [0x64, 0x61, 0x74, 0x61];
    append_bytes(&mut header, riff.as_slice());
    write_le_u32(&mut header, data_len + 36);
    append_bytes(&mut header, wave.as_slice());
    append_bytes(&mut header, fmt.as_slice());
    write_le_u32(&mut header, 16);
    write_le_u16(&mut header, audio_format);
    write_le_u16(&mut header, num_channels);
    write_le_u32(&mut header, SAMPLE_RATE);
    write_le_u32(&mut header, byte_rate);
    write_le_u16(&mut header, block_align);
    write_le_u16(&mut header, bits_per_sample);
    append_bytes(&mut header, data.as_slice());
    write_le_u32(&mut header, data_len);
    header
}

} // verus!
