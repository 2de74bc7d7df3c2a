use crate::bits::{bit_of, u32_bit_length, u32_get_bit, u32_get_bits, u32_set_bit, u8_get_bits};
use crate::stream::{
    bit_change, destuffed, lemma_destuff_frame, insert_bit, insert_words, lemma_get_bit, lemma_insert_words, lemma_stuff_at_standard, lemma_stuffed_no_six_run, no_six_run, lemma_window_value,
    shift_tail, stream, stuff_at, stuffed, window_value, word_insert,
};
use crate::layout::{bin_digits, data_clear, lemma_control_word_bits, lemma_data_in_stream, lemma_new_word, lemma_read_from_stream, control_word, hex_digits, dlc, lemma_or_zero, lemma_write_keeps_control, order_key, read_byte, read_data, write_data};
use vstd::prelude::*;

verus! {

/// A standard CAN data frame held as 96 bits in three 32-bit words, most
/// significant bit first: start-of-frame bit, 11-bit identifier, control bits,
/// up to eight data bytes.
#[derive(Clone, Copy, Debug)]
pub struct CANFrame {
    frame: [u32; 3],
}

/// `format!` of std with `{:032b}` for each word, joined by `_`: std documents
/// `b` as binary digits and `032` as padding with zeros to 32 places.
#[verifier::external_body]
fn format_bin_words(a: u32, b: u32, c: u32) -> (s: String)
    ensures
        s@ == bin_digits(a) + seq!['_'] + bin_digits(b) + seq!['_'] + bin_digits(c),
{
    format!("{:032b}_{:032b}_{:032b}", a, b, c)
}

/// `format!` of std with `{:X}` for each word, joined by `_`: std documents `X`
/// as upper-case hexadecimal digits, with no padding asked for.
#[verifier::external_body]
fn format_hex_words(a: u32, b: u32, c: u32) -> (s: String)
    ensures
        s@ == hex_digits(a as nat) + seq!['_'] + hex_digits(b as nat) + seq!['_'] + hex_digits(c as nat),
{
    format!("{:X}_{:X}_{:X}", a, b, c)
}

impl CANFrame {
    /// The three words of the frame.
    pub closed spec fn words(&self) -> Seq<u32> {
        self.frame@
    }

    /// The 96 bits of the frame, in the order they go on the bus.
    pub open spec fn bits(&self) -> Seq<bool> {
        stream(self.words())
    }

    /// The number of data bytes that the control bits of the frame announce.
    pub open spec fn data_len(&self) -> u32 {
        dlc(self.words()[0])
    }

    /// The key by which frames are ordered; the lower key wins the bus.
    pub open spec fn key(&self) -> u32 {
        order_key(self.words()[0])
    }

    /// A frame has three words.
    pub proof fn lemma_words_len(&self)
        ensures
            self.words().len() == 3,
    {
    }

    /// Builds a frame with the start-of-frame bit set and `id` in the 11
    /// identifier bits that follow it.
    pub fn new(id: usize) -> (f: CANFrame)
        requires
            id <= 0x7FF,
        ensures
            f.words() == seq![0x8000_0000u32 | ((id as u32) << 20u32), 0u32, 0u32],
            f.words()[0] >> 31u32 == 1,
            (f.words()[0] >> 20u32) & 0x7FFu32 == id,
            f.words()[0] & 0x000F_FFFFu32 == 0,
            f.key() == (id as u32) & 0x4FFu32,
    {
        let mut sender: u32 = id as u32;
        sender = sender << 20;
        let length = u32_bit_length();
        let ghost shifted = sender;
        u32_set_bit(&mut sender, length - 1, true);
        assert(shifted | (1u32 << 31u32) == 0x8000_0000u32 | shifted) by (bit_vector);
        proof {
            lemma_new_word(id as u32);
        }
        let f = CANFrame { frame: [sender, 0, 0] };
        assert(f.frame@ =~= seq![sender, 0u32, 0u32]);
        f
    }

    /// Sets the RTR, IDE and reserved bits and the data length code to
    /// `data_length`.
    #[allow(non_snake_case)]
    pub fn set_RTR_and_ctr_bits(&mut self, data_length: usize)
        requires
            data_length <= 8,
        ensures
            final(self).words() == old(self).words().update(0, control_word(old(self).words()[0], data_length as u32)),
            final(self).data_len() == data_length,
            final(self).words()[0] & !0x000F_E000u32 == old(self).words()[0] & !0x000F_E000u32,
            (final(self).words()[0] >> 17u32) & 7u32 == 7u32,
            (final(self).words()[0] >> 13u32) & 15u32 == data_length,
            final(self).words()[1] == old(self).words()[1],
            final(self).words()[2] == old(self).words()[2],
            final(self).key() == old(self).key(),
    {
        let mut w0 = self.frame[0];
        w0 &= !0x0007E000u32;
        w0 |= 1u32 << (32u32 - 13);
        w0 |= (1u32 << (32u32 - 14)) | (1u32 << (32u32 - 15));
        w0 |= (data_length as u32) << (32u32 - 19);
        let ghost old_w0 = self.frame[0];
        proof {
            let len = data_length as u32;
            assert(w0 == control_word(old_w0, len)) by (bit_vector)
                requires
                    w0 == (((old_w0 & !0x0007E000u32) | (1u32 << 19u32)) | ((1u32 << 18u32) | (1u32 << 17u32))) | (len << 13u32);
            assert(dlc(control_word(old_w0, len)) == len) by (bit_vector)
                requires len <= 8;
            lemma_control_word_bits(old_w0, len);
        }
        self.frame[0] = w0;
        assert(self.frame@ =~= old(self).frame@.update(0, w0));
    }

    /// The data length code of the frame.
    pub fn data_size(&self) -> (n: usize)
        ensures
            n == self.data_len(),
    {
        let mut data_length: u32 = 0;
        data_length |= (self.frame[0] & 0x0001E000u32) >> 13u32;
        proof {
            let w0 = self.frame[0];
            assert(0u32 | ((w0 & 0x0001E000u32) >> 13u32) == dlc(w0)) by (bit_vector);
        }
        data_length as usize
    }

    /// Writes the data bytes: byte `i` of `data` is ORed into its place for each
    /// `i` below both the data length code and the length of `data`; bytes from
    /// the ninth on have no place and are skipped.
    pub fn set_data(&mut self, data: &[u8])
        ensures
            final(self).words() == write_data(
                old(self).words(),
                data@,
                vstd::math::min(old(self).data_len() as int, data@.len() as int),
            ),
            final(self).data_len() == old(self).data_len(),
            final(self).key() == old(self).key(),
            data_clear(old(self).words()) ==> forall|i: int, k: int|
                0 <= i < 8 && 0 <= k < 8 ==> #[trigger] final(self).bits()[19 + 8 * i + k] == (i < vstd::math::min(
                    old(self).data_len() as int,
                    data@.len() as int,
                ) && bit_of(data@[i] as u32, (7 - k) as u32)),
    {
        let n = self.data_size();
        let ghost ow = self.frame@;
        let mut i: usize = 0;
        proof {
            lemma_or_zero();
            assert(self.frame@ =~= write_data(ow, data@, 0));
        }
        while i < n && i < data.len()
            invariant
                n == dlc(ow[0]),
                ow.len() == 3,
                i <= n,
                i <= data.len(),
                self.frame@ == write_data(ow, data@, i as int),
            decreases n - i,
        {
            let onebyte = data[i];
            let w0 = self.frame[0];
            let w1 = self.frame[1];
            let w2 = self.frame[2];
            if i == 0 {
                self.frame[0] = w0 | (onebyte as u32) << 5u32;
            } else if i == 1 {
                self.frame[0] = w0 | u8_get_bits(onebyte, 3, 8) as u32;
                self.frame[1] = w1 | (u8_get_bits(onebyte, 0, 3) as u32) << 29u32;
            } else if i == 2 {
                self.frame[1] = w1 | (onebyte as u32) << 21u32;
            } else if i == 3 {
                self.frame[1] = w1 | (onebyte as u32) << 13u32;
            } else if i == 4 {
                self.frame[1] = w1 | (onebyte as u32) << 5u32;
            } else if i == 5 {
                self.frame[1] = w1 | u8_get_bits(onebyte, 3, 8) as u32;
                self.frame[2] = w2 | (u8_get_bits(onebyte, 0, 3) as u32) << 29u32;
            } else if i == 6 {
                self.frame[2] = w2 | (onebyte as u32) << 21u32;
            } else if i == 7 {
                self.frame[2] = w2 | (onebyte as u32) << 13u32;
            }
            proof {
                let b = onebyte;
                assert(((b << 0u8) >> 0u8) >> 3u8 == b >> 3u8) by (bit_vector);
                assert(((b << 5u8) >> 5u8) >> 0u8 == b & 7u8) by (bit_vector);
                lemma_or_zero();
                assert(self.frame@ =~= write_data(ow, data@, i + 1));
            }
            i += 1;
        }
        proof {
            lemma_write_keeps_control(ow, data@, i as int);
            if data_clear(ow) {
                lemma_data_in_stream(ow, data@, i as int);
            }
        }
    }

    /// Reads the data bytes back: as many as the data length code announces, up
    /// to eight, and zeros behind them.
    pub fn get_data(&self) -> (r: [u8; 8])
        ensures
            r@ == read_data(self.words(), self.data_len() as int),
            forall|i: int, k: int|
                0 <= i < 8 && 0 <= k < 8 ==> #[trigger] bit_of(r@[i] as u32, (7 - k) as u32) == (i < self.data_len()
                    && self.bits()[19 + 8 * i + k] && !(k == 0 && (i == 3 || i == 4 || i == 7))),
    {
        let data_len = self.data_size();
        let ghost w = self.frame@;
        let mut array: [u8; 8] = [0; 8];
        for i in 0..data_len
            invariant
                w == self.frame@,
                data_len == self.data_len(),
                forall|j: int| 0 <= j < 8 ==> #[trigger] array@[j] == (if j < i { read_byte(w, j) } else { 0u8 }),
        {
            let w0 = self.frame[0];
            let w1 = self.frame[1];
            let w2 = self.frame[2];
            if i == 0 {
                array[i] = u32_get_bits(w0, 5, 13) as u8;
                assert((((w0 << 19u32) >> 19u32) >> 5u32) as u8 == ((w0 >> 5u32) & 0xffu32) as u8) by (bit_vector);
            } else if i == 1 {
                let mut tmp = (u32_get_bits(w0, 0, 5) << 3u32) as u8;
                tmp |= u32_get_bits(w1, 29, 32) as u8;
                array[i] = tmp;
                assert(((((w0 << 27u32) >> 27u32) >> 0u32) << 3u32) as u8 | (((w1 << 0u32) >> 0u32) >> 29u32) as u8
                    == (((w0 & 0x1fu32) << 3u32) | (w1 >> 29u32)) as u8) by (bit_vector);
            } else if i == 2 {
                array[i] = u32_get_bits(w1, 21, 29) as u8;
                assert((((w1 << 3u32) >> 3u32) >> 21u32) as u8 == ((w1 >> 21u32) & 0xffu32) as u8) by (bit_vector);
            } else if i == 3 {
                array[i] = u32_get_bits(w1, 13, 20) as u8;
                assert((((w1 << 12u32) >> 12u32) >> 13u32) as u8 == ((w1 >> 13u32) & 0x7fu32) as u8) by (bit_vector);
            } else if i == 4 {
                array[i] = u32_get_bits(w1, 5, 12) as u8;
                assert((((w1 << 20u32) >> 20u32) >> 5u32) as u8 == ((w1 >> 5u32) & 0x7fu32) as u8) by (bit_vector);
            } else if i == 5 {
                let mut tmp = (u32_get_bits(w1, 0, 5) << 3u32) as u8;
                tmp |= u32_get_bits(w2, 29, 32) as u8;
                array[i] = tmp;
                assert(((((w1 << 27u32) >> 27u32) >> 0u32) << 3u32) as u8 | (((w2 << 0u32) >> 0u32) >> 29u32) as u8
                    == (((w1 & 0x1fu32) << 3u32) | (w2 >> 29u32)) as u8) by (bit_vector);
            } else if i == 6 {
                array[i] = u32_get_bits(w2, 21, 29) as u8;
                assert((((w2 << 3u32) >> 3u32) >> 21u32) as u8 == ((w2 >> 21u32) & 0xffu32) as u8) by (bit_vector);
            } else if i == 7 {
                array[i] = u32_get_bits(w2, 13, 20) as u8;
                assert((((w2 << 12u32) >> 12u32) >> 13u32) as u8 == ((w2 >> 13u32) & 0x7fu32) as u8) by (bit_vector);
            }
        }
        assert(array@ =~= read_data(w, data_len as int));
        proof {
            lemma_read_from_stream(w, data_len as int);
        }
        array
    }

    /// The three words in binary, 32 digits each, joined by `_`.
    pub fn to_bin_string(&self) -> (s: String)
        ensures
            s@ == bin_digits(self.words()[0]) + seq!['_'] + bin_digits(self.words()[1]) + seq!['_'] + bin_digits(
                self.words()[2],
            ),
    {
        format_bin_words(self.frame[0], self.frame[1], self.frame[2])
    }

    /// The three words in upper-case hexadecimal, joined by `_`.
    pub fn to_hex_string(&self) -> (s: String)
        ensures
            s@ == hex_digits(self.words()[0] as nat) + seq!['_'] + hex_digits(self.words()[1] as nat) + seq!['_']
                + hex_digits(self.words()[2] as nat),
    {
        format_hex_words(self.frame[0], self.frame[1], self.frame[2])
    }

    /// The key by which frames are ordered.
    pub fn order_key(&self) -> (k: u32)
        ensures
            k == self.key(),
    {
        (self.frame[0] & 0x4FF00000u32) >> 20u32
    }

    /// The three words of the frame.
    pub fn view(&self) -> (r: &[u32])
        ensures
            r@ == self.words(),
    {
        self.frame.as_slice()
    }

    /// Bit stuffing for the bus: wherever five bits in a row are equal, the
    /// opposite bit is inserted behind them, and it counts towards the next run.
    /// The frame keeps its 96 bits, so the bits pushed past the end are lost.
    pub fn prepare_send(&mut self)
        ensures
            final(self).bits() == stuffed(old(self).bits(), false, 0).take(96),
            no_six_run(final(self).bits()),
            ({
                let d = destuffed(final(self).bits(), false, 0);
                d.len() <= 96 && d == old(self).bits().take(d.len() as int)
            }),
    {
        let ghost init = self.bits();
        proof {
            lemma_destuff_frame(init);
            lemma_stuff_at_standard(init);
            lemma_stuffed_no_six_run(init, 96);
        }
        let mut cursor: usize = 0;
        let mask: u32 = 0b11111;
        let mut masked_data: u32 = 0;
        while cursor < 64 * 3
            invariant
                mask == 31,
                init == old(self).bits(),
                stuff_at(init, 0) == stuffed(init, false, 0).take(96),
                no_six_run(stuffed(init, false, 0).take(96)),
                ({
                    let d = destuffed(stuffed(init, false, 0).take(96), false, 0);
                    d.len() <= 96 && d == init.take(d.len() as int)
                }),
                stuff_at(self.bits(), cursor as int) == stuff_at(init, 0),
            decreases 192 - cursor,
        {
            if cursor <= 27 {
                masked_data = (self.frame[0] & (mask << ((32 - cursor - 5) as u32))) >> ((32 - cursor - 5) as u32);
            } else if cursor <= 31 {
                let first_frame = self.frame[0] & (mask >> ((5 - (32 - cursor)) as u32));
                let second_frame = (self.frame[1] & (mask << 27u32)) >> ((27 + (32 - cursor)) as u32);
                masked_data = first_frame << ((5 - (32 - cursor)) as u32) | second_frame;
            } else if cursor <= 59 {
                masked_data = (self.frame[1] & (mask << ((64 - cursor - 5) as u32))) >> ((64 - cursor - 5) as u32);
            } else if cursor <= 63 {
                let first_frame = self.frame[1] & (mask >> ((5 - (64 - cursor)) as u32));
                let second_frame = (self.frame[2] & (mask << 27u32)) >> ((27 + (64 - cursor)) as u32);
                masked_data = first_frame << ((5 - (64 - cursor)) as u32) | second_frame;
            } else if cursor <= 90 {
                masked_data = (self.frame[2] & (mask << ((96 - cursor - 5) as u32))) >> ((96 - cursor - 5) as u32);
            } else {
                return;
            }
            proof {
                assert(masked_data == window_value(self.frame@, cursor as int));
                lemma_window_value(self.frame@, cursor as int);
            }
            match CANFrame::check_bit_change(&masked_data) {
                Ok(change_point) => {
                    cursor += change_point;
                },
                Err(bit) => {
                    self.add_bit_at(cursor + 5, !bit);
                    cursor += 5;
                },
            }
        }
    }

    /// Looks at one window of five bits, the first of them in bit 4: `Ok(n)` when
    /// they differ, where `n` leads from the start of the window to the start of
    /// its last run, `Err(b)` when all five are `b`.
    fn check_bit_change(data: &u32) -> (r: Result<usize, bool>)
        ensures
            r == bit_change(*data),
    {
        let prev_bit = u32_get_bit(*data, 0);
        proof {
            lemma_get_bit(*data, 0);
        }
        for i in 1..5
            invariant
                prev_bit == bit_of(*data, 0),
                forall|j: u32| 1 <= j < i ==> bit_of(*data, j) == prev_bit,
        {
            let bit = u32_get_bit(*data, i);
            proof {
                lemma_get_bit(*data, i as u32);
            }
            if prev_bit != bit {
                return Ok(5 - i);
            }
        }
        return Err(prev_bit);
    }

    /// Inserts `bit` into the stream at position `at`; the bits from `at` on move
    /// one place back and the last bit of the frame falls off.
    fn add_bit_at(&mut self, at: usize, bit: bool)
        requires
            at <= 96,
        ensures
            final(self).bits() == insert_bit(old(self).bits(), at as int, bit),
    {
        let ghost ow = self.frame@;
        let rcursor = 96 - at;
        if rcursor > 0 {
            let data = self.frame[2];
            let rocal_cur = 32usize.saturating_sub(rcursor);
            let mask: u32 = 0xffff_ffffu32 >> (rocal_cur as u32);
            let mut w: u32 = data & !mask | (data & mask) >> 1u32;
            assert(w == shift_tail(data, rocal_cur as u32));
            u32_set_bit(&mut w, 31 - rocal_cur, bit);
            assert(w == word_insert(data, rocal_cur as u32, bit));
            self.frame[2] = w;
        }
        if rcursor > 32 {
            let data = self.frame[1];
            let rocal_cur = 64usize.saturating_sub(rcursor);
            let lastbit = u32_get_bit(data, 0);
            proof {
                lemma_get_bit(data, 0);
            }
            let mut w2 = self.frame[2];
            u32_set_bit(&mut w2, 31, lastbit);
            self.frame[2] = w2;
            let mask: u32 = 0xffff_ffffu32 >> (rocal_cur as u32);
            let mut w: u32 = data & !mask | (data & mask) >> 1u32;
            assert(w == shift_tail(data, rocal_cur as u32));
            u32_set_bit(&mut w, 31 - rocal_cur, bit);
            assert(w == word_insert(data, rocal_cur as u32, bit));
            self.frame[1] = w;
        }
        if rcursor > 64 {
            let data = self.frame[0];
            let rocal_cur = 96usize.saturating_sub(rcursor);
            let lastbit = u32_get_bit(data, 0);
            proof {
                lemma_get_bit(data, 0);
            }
            let mut w1 = self.frame[1];
            u32_set_bit(&mut w1, 31, lastbit);
            self.frame[1] = w1;
            let mask: u32 = 0xffff_ffffu32 >> (rocal_cur as u32);
            let mut w: u32 = data & !mask | (data & mask) >> 1u32;
            assert(w == shift_tail(data, rocal_cur as u32));
            u32_set_bit(&mut w, 31 - rocal_cur, bit);
            assert(w == word_insert(data, rocal_cur as u32, bit));
            self.frame[0] = w;
        }
        proof {
            assert(self.frame@ =~= insert_words(ow, at as int, bit));
            lemma_insert_words(ow, at as int, bit);
        }
    }
}

} // verus!
