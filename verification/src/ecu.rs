use crate::bus::{arbitrate, Bus};
use crate::canframe::CANFrame;
use crate::encoder::{ascii_bytes, lemma_encode_reverse, Encoder};
use crate::layout::{control_word, dlc, lemma_control_word_bits, lemma_new_word, lemma_write_keeps_control, lemma_fresh_frame, lemma_write_read, order_key, read_data, write_data};
use crate::stream::{lemma_words_of, stream, stuffed, words_of};
use vstd::prelude::*;
use vstd::string::is_ascii;
use vstd::utf8::{decode_utf8, valid_utf8};

verus! {

/// The words of the frame that an ECU with identifier `id` builds for `data`,
/// before stuffing: start-of-frame bit and identifier, control bits for
/// `data.len()` bytes, then the data.
pub open spec fn built_words(id: usize, data: Seq<u8>) -> Seq<u32> {
    write_data(
        seq![control_word(0x8000_0000u32 | ((id as u32) << 20u32), data.len() as u32), 0u32, 0u32],
        data,
        data.len() as int,
    )
}

/// The words of the frame that an ECU with identifier `id` sends for `data`:
/// those of the built frame after bit stuffing.
pub open spec fn sent_words(id: usize, data: Seq<u8>) -> Seq<u32> {
    words_of(stuffed(stream(built_words(id, data)), false, 0).take(96))
}

/// The text that comes back for `input`: its characters, padded with NULs to
/// the eight data bytes of a frame.
pub open spec fn padded(input: Seq<char>) -> Seq<char> {
    Seq::new(8, |i: int| if i < input.len() { input[i] } else { '\0' })
}

/// The data bytes that the frame as sent, after bit stuffing, reads back.
pub open spec fn echoed(id: usize, data: Seq<u8>) -> Seq<u8> {
    let w = sent_words(id, data);
    read_data(w, dlc(w[0]) as int)
}

/// The text that `ECU::send` returns when its frame holds the bus: the bytes
/// read back from the frame as sent, decoded as UTF-8; where they are not valid
/// UTF-8, the text as written into the frame before stuffing, padded with NULs.
pub open spec fn reply_text(id: usize, input: Seq<char>) -> Seq<char> {
    let echo = echoed(id, ascii_bytes(input));
    if valid_utf8(echo) {
        decode_utf8(echo)
    } else {
        padded(input)
    }
}

/// What `ECU::send` needs of its input: an 11-bit identifier and ASCII text of
/// at most eight characters.
pub open spec fn sendable(id: usize, input: &str) -> bool {
    &&& id <= 0x7FF
    &&& is_ascii(input)
    &&& input@.len() <= 8
}

/// A node on the bus that sends text as data frames under its identifier.
pub struct ECU {
    id: usize,
}

impl ECU {
    /// The identifier of the node.
    pub closed spec fn id(&self) -> usize {
        self.id
    }

    /// A node with identifier `id`.
    pub fn new(id: usize) -> (ecu: ECU)
        ensures
            ecu.id() == id,
    {
        ECU { id }
    }

    /// Sends `input` as a data frame and reads the bus back. When the frame on
    /// the bus is the frame sent, the result is `Ok` with the data bytes that
    /// frame reads back after bit stuffing, decoded as UTF-8; stuffing moves
    /// the data bits, so this text differs from `input` in general. Where those
    /// bytes are not valid UTF-8, the result is `Ok` with `input` as written
    /// before stuffing, padded with NULs to eight characters. When another frame
    /// kept the bus, the result is `Err("Failed to send")`.
    pub fn send(&self, bus: &mut Bus, input: &str) -> (r: Result<String, &'static str>)
        requires
            sendable(self.id(), input),
        ensures
            ({
                let sent = sent_words(self.id(), ascii_bytes(input@));
                &&& final(bus)@ is Some
                &&& match old(bus)@ {
                    Some(c) => if c.key() < order_key(sent[0]) {
                        final(bus)@ == old(bus)@
                    } else {
                        final(bus)@->0.words() == sent
                    },
                    None => final(bus)@->0.words() == sent,
                }
                &&& final(bus)@->0.words() == sent ==> (r matches Ok(s) && s@ == reply_text(self.id(), input@))
                &&& final(bus)@->0.words() != sent ==> (r matches Err(e) && e@ == "Failed to send"@)
            }),
    {
        let (frame_sended, data_frame) = self.send_sub(bus, input);
        proof {
            lemma_encode_reverse(padded(input@));
        }
        self.check(bus, &frame_sended, &data_frame)
    }

    /// Whether `send` can take `input`: the same test as its precondition, made
    /// by building the frame without sending it.
    pub fn can_send(&self, input: &str) -> (b: bool)
        ensures
            b == sendable(self.id(), input),
    {
        if self.id > 0x7FF || !input.is_ascii() {
            return false;
        }
        let bytes = input.as_bytes();
        proof {
            vstd::string::is_ascii_spec_bytes(input);
            assert(bytes@.len() == input@.len());
        }
        bytes.len() <= 8
    }

    /// Builds the frame for `input`, sends it, and returns it as sent together
    /// with the frame as it was before bit stuffing.
    fn send_sub(&self, bus: &mut Bus, input: &str) -> (r: (CANFrame, CANFrame))
        requires
            sendable(self.id(), input),
        ensures
            r.0.words() == sent_words(self.id(), ascii_bytes(input@)),
            r.1.words() == built_words(self.id(), ascii_bytes(input@)),
            read_data(r.1.words(), r.1.data_len() as int) == ascii_bytes(padded(input@)),
            final(bus)@ == arbitrate(old(bus)@, r.0),
    {
        let mut canframe = CANFrame::new(self.id);
        let input_byte = Encoder::encode(input).unwrap();
        canframe.set_RTR_and_ctr_bits(input_byte.len());
        let ghost fresh = canframe.words();
        canframe.set_data(input_byte);
        let data_frame = canframe.clone();
        canframe.prepare_send();
        proof {
            let d = ascii_bytes(input@);
            let len = d.len() as u32;
            let w0 = 0x8000_0000u32 | ((self.id() as u32) << 20u32);
            assert(fresh =~= seq![control_word(w0, len), 0u32, 0u32]);
            assert(data_frame.words() =~= built_words(self.id(), d));
            canframe.lemma_words_len();
            lemma_words_of(canframe.words());
            lemma_fresh_frame(self.id() as u32, len);
            lemma_write_read(fresh, d);
            assert forall|i: int| 0 <= i < d.len() implies d[i] < 0x80 by {
                assert(input@[i] <= '\u{7f}');
            }
            assert(read_data(data_frame.words(), data_frame.data_len() as int) =~= ascii_bytes(padded(input@)));
        }
        let ret_val = canframe.clone();
        bus.send(canframe);
        (ret_val, data_frame)
    }

    /// Reads the bus back: when the bus holds `input_frame`, the text that
    /// `input_frame` reads back, or that of `data_frame` where the former is not
    /// valid UTF-8; an error otherwise.
    fn check(&self, bus: &Bus, input_frame: &CANFrame, data_frame: &CANFrame) -> (r: Result<String, &'static str>)
        requires
            valid_utf8(read_data(data_frame.words(), data_frame.data_len() as int)),
        ensures
            bus@ is None ==> (r matches Err(e) && e@ == "Bus is empty"@),
            bus@ matches Some(b) && b.words() == input_frame.words() ==> (r matches Ok(s) && s@ == ({
                let echo = read_data(input_frame.words(), input_frame.data_len() as int);
                if valid_utf8(echo) {
                    decode_utf8(echo)
                } else {
                    decode_utf8(read_data(data_frame.words(), data_frame.data_len() as int))
                }
            })),
            bus@ matches Some(b) && b.words() != input_frame.words() ==> (r matches Err(e) && e@ == "Failed to send"@),
    {
        let bus_frame = match bus.recieve() {
            Some(f) => f,
            None => {
                return Err("Bus is empty");
            },
        };
        if bus_frame == input_frame {
            let data = input_frame.get_data();
            match Encoder::reverse(&data) {
                Ok(text) => Ok(text.to_owned()),
                Err(_) => {
                    let written = data_frame.get_data();
                    let text = Encoder::reverse(&written).unwrap();
                    Ok(text.to_owned())
                },
            }
        } else {
            Err("Failed to send")
        }
    }
}

} // verus!

verus! {

/// The frame an ECU builds carries its whole identifier, as `CANFrame::new(id)`
/// puts it: the start-of-frame bit, then the 11 bits of `id`, and the order
/// key `id & 0x4FF`.
pub proof fn lemma_built_identifier(id: usize, d: Seq<u8>)
    requires
        id <= 0x7FF,
        d.len() <= 8,
    ensures
        built_words(id, d)[0] >> 31u32 == 1,
        (built_words(id, d)[0] >> 20u32) & 0x7FFu32 == id,
        order_key(built_words(id, d)[0]) == (id as u32) & 0x4FFu32,
{
    let i = id as u32;
    let len = d.len() as u32;
    let w0 = 0x8000_0000u32 | (i << 20u32);
    lemma_new_word(i);
    lemma_control_word_bits(w0, len);
    lemma_write_keeps_control(seq![control_word(w0, len), 0u32, 0u32], d, d.len() as int);
    let v0 = built_words(id, d)[0];
    let c = control_word(w0, len);
    assert(v0 == c | crate::layout::when(d.len() > 0, (d[0] as u32) << 5u32) | crate::layout::when(d.len() > 1, (d[1] >> 3u8) as u32));
    let c0 = d.len() > 0;
    let c1 = d.len() > 1;
    let d0 = d[0];
    let d1 = d[1];
    let a = crate::layout::when(c0, (d0 as u32) << 5u32);
    let b = crate::layout::when(c1, (d1 >> 3u8) as u32);
    assert(v0 == (c | a) | b);
    assert(a < 0x2000u32 && b < 0x2000u32) by (bit_vector)
        requires
            a == crate::layout::when(c0, (d0 as u32) << 5u32),
            b == crate::layout::when(c1, (d1 >> 3u8) as u32);
    assert(v0 >> 31u32 == 1 && (v0 >> 20u32) & 0x7FFu32 == i) by (bit_vector)
        requires
            v0 == (c | a) | b,
            a < 0x2000u32,
            b < 0x2000u32,
            c & !0x000F_E000u32 == w0 & !0x000F_E000u32,
            w0 >> 31u32 == 1,
            (w0 >> 20u32) & 0x7FFu32 == i;
}

} // verus!
