//! Joy-Con 1 HD Rumble frame packing.
//!
//! Joy-Con 1 vibration is driven by an 8-byte packed frame (4 bytes per
//! side). Each side encodes a high-band and a low-band frequency plus
//! amplitude. The bridge drives a fixed buzz (320 Hz high band, 160 Hz low
//! band) and varies only the amplitude; the low-band amplitude word is
//! derived from the encoded high-band amplitude.

use vstd::prelude::*;

verus! {

/// Documented silent frame — produces no vibration.
pub const NEUTRAL_RUMBLE_FRAME: [u8; 4] = [0x00, 0x01, 0x40, 0x40];

/// Encoded high-band frequency of the fixed 320 Hz buzz:
/// `(round(32 * log2(320 / 10)) - 0x60) * 4`.
pub const HF_CODE: u32 = 0x100;

/// Encoded low-band frequency of the fixed 160 Hz buzz:
/// `round(32 * log2(160 / 10)) - 0x40`.
pub const LF_CODE: u32 = 0x40;

/// Largest encoded high-band amplitude; keeps the second byte within a byte.
pub const MAX_HF_AMP: u8 = 0xC8;

/// The 4-byte frame for an encoded high-band amplitude `hf_amp`: the
/// amplitude rides on the high-band frequency byte, and the low-band word is
/// `0x40 + hf_amp / 4` with its parity flag (`0x8000`) set when `hf_amp / 2`
/// is odd.
pub open spec fn rumble_frame_for_amplitude(hf_amp: int) -> Seq<u8> {
    let half = hf_amp / 2;
    seq![
        0x00u8,
        (1 + hf_amp) as u8,
        if half % 2 == 1 { 0xC0u8 } else { 0x40u8 },
        (0x40 + half / 2) as u8,
    ]
}

/// Pack one side's frame for the encoded high-band amplitude `hf_amp`.
pub fn pack_rumble_frame(hf_amp: u8) -> (frame: [u8; 4])
    requires
        hf_amp <= MAX_HF_AMP,
    ensures
        frame@ == rumble_frame_for_amplitude(hf_amp as int),
{
    let hf: u32 = HF_CODE;
    let lf: u32 = LF_CODE;
    let amp: u32 = hf_amp as u32;
    assert((hf & 0xFF) == 0 && ((hf >> 8) & 0xFF) == 1 && (lf & 0xFF) == 0x40) by (bit_vector)
        requires
            hf == 0x100,
            lf == 0x40,
    ;
    let mut lf_amp: u32 = amp / 2;
    let parity: u32 = lf_amp % 2;
    if parity != 0 {
        lf_amp = lf_amp - 1;
    }
    let base = lf_amp;
    assert(base >> 1 == base / 2) by (bit_vector);
    lf_amp = lf_amp >> 1;
    assert(lf_amp == amp / 4);
    lf_amp = lf_amp + 0x40;
    let word: u32 = if parity != 0 { lf_amp | 0x8000 } else { lf_amp };
    let b0 = (hf & 0xFF) as u8;
    let b1 = (((hf >> 8) & 0xFF) + amp) as u8;
    let hi: u32 = (word >> 8) & 0xFF;
    assert(hi == (if parity != 0 { 0x80u32 } else { 0u32 })) by (bit_vector)
        requires
            lf_amp <= 0x40 + 50,
            word == (if parity != 0 { lf_amp | 0x8000 } else { lf_amp }),
            hi == (word >> 8) & 0xFF,
    ;
    let b2 = ((lf & 0xFF) + hi) as u8;
    let lo: u32 = word & 0xFF;
    assert(lo == lf_amp) by (bit_vector)
        requires
            lf_amp <= 0x40 + 50,
            word == (if parity != 0 { lf_amp | 0x8000 } else { lf_amp }),
            lo == word & 0xFF,
    ;
    let b3 = lo as u8;
    let frame = [b0, b1, b2, b3];
    assert(frame@ =~= rumble_frame_for_amplitude(hf_amp as int));
    frame
}

/// A frame is the silent one exactly when its encoded amplitude is zero.
pub proof fn lemma_frame_silent_iff_zero(hf_amp: int)
    requires
        0 <= hf_amp <= MAX_HF_AMP,
    ensures
        (rumble_frame_for_amplitude(hf_amp) == NEUTRAL_RUMBLE_FRAME@) <==> hf_amp == 0,
{
    let f = rumble_frame_for_amplitude(hf_amp);
    if hf_amp == 0 {
        assert(f =~= NEUTRAL_RUMBLE_FRAME@);
    } else {
        assert(f[1] != NEUTRAL_RUMBLE_FRAME@[1]);
    }
}

/// The amplitude byte strictly increases with the encoded amplitude.
pub proof fn lemma_amplitude_byte_increasing(a: int, b: int)
    requires
        0 <= a < b <= MAX_HF_AMP,
    ensures
        rumble_frame_for_amplitude(a)[1] < rumble_frame_for_amplitude(b)[1],
{
}

} // verus!

verus! {

/// The encoded amplitude can be read back from the frame: byte 1 is one
/// above it, and the low-band amplitude `hf_amp / 2` is twice the low byte's
/// offset from `0x40` plus the parity flag carried in byte 2 (`0xC0` when
/// set, `0x40` when clear).
pub proof fn lemma_frame_decodes(hf_amp: int)
    requires
        0 <= hf_amp <= MAX_HF_AMP,
    ensures
        rumble_frame_for_amplitude(hf_amp)[0] == 0,
        rumble_frame_for_amplitude(hf_amp)[1] == hf_amp + 1,
        rumble_frame_for_amplitude(hf_amp)[2] == 0x40 || rumble_frame_for_amplitude(hf_amp)[2]
            == 0xC0,
        rumble_frame_for_amplitude(hf_amp)[2] == 0xC0 <==> (hf_amp / 2) % 2 == 1,
        2 * (rumble_frame_for_amplitude(hf_amp)[3] - 0x40) + (if rumble_frame_for_amplitude(
            hf_amp,
        )[2] == 0xC0 {
            1int
        } else {
            0int
        }) == hf_amp / 2,
{
}

} // verus!
