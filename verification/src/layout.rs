use crate::bits::bit_of;
use crate::stream::{msb, stream};
use vstd::prelude::*;

verus! {

/// The data length code of a frame: the four bits 13..=16 of its first word.
pub open spec fn dlc(w0: u32) -> u32 {
    (w0 & 0x0001_E000u32) >> 13u32
}

/// The first word after the arbitration and control bits are set for `len` data
/// bytes: bits 13..=18 cleared, then the RTR bit (19), the IDE and reserved bits
/// (18, 17) and the length in bits 13..=16 set.
pub open spec fn control_word(w0: u32, len: u32) -> u32 {
    (w0 & !0x0007_E000u32) | 0x0008_0000u32 | 0x0004_0000u32 | 0x0002_0000u32 | (len << 13u32)
}

/// `x` when `c` holds, no bits otherwise.
pub open spec fn when(c: bool, x: u32) -> u32 {
    if c {
        x
    } else {
        0
    }
}

/// The words `w` with the first `n` bytes of `d` ORed into their places: byte 0
/// in bits 5..=12 of the first word, byte 1 split over the low five bits of the
/// first word and the top three of the second, bytes 2, 3 and 4 from bit 21, 13
/// and 5 of the second word, byte 5 split like byte 1 over the second and third
/// words, bytes 6 and 7 from bit 21 and 13 of the third word.
pub open spec fn write_data(w: Seq<u32>, d: Seq<u8>, n: int) -> Seq<u32> {
    seq![
        w[0] | when(n > 0, (d[0] as u32) << 5u32) | when(n > 1, (d[1] >> 3u8) as u32),
        w[1] | when(n > 1, ((d[1] & 7u8) as u32) << 29u32) | when(n > 2, (d[2] as u32) << 21u32) | when(
            n > 3,
            (d[3] as u32) << 13u32,
        ) | when(n > 4, (d[4] as u32) << 5u32) | when(n > 5, (d[5] >> 3u8) as u32),
        w[2] | when(n > 5, ((d[5] & 7u8) as u32) << 29u32) | when(n > 6, (d[6] as u32) << 21u32) | when(
            n > 7,
            (d[7] as u32) << 13u32,
        ),
    ]
}

/// Data byte `i` as the frame reads it back from the words `w`. Bytes 3, 4 and 7
/// are read from seven bits only, so their top bit never comes back.
pub open spec fn read_byte(w: Seq<u32>, i: int) -> u8 {
    if i == 0 {
        ((w[0] >> 5u32) & 0xffu32) as u8
    } else if i == 1 {
        (((w[0] & 0x1fu32) << 3u32) | (w[1] >> 29u32)) as u8
    } else if i == 2 {
        ((w[1] >> 21u32) & 0xffu32) as u8
    } else if i == 3 {
        ((w[1] >> 13u32) & 0x7fu32) as u8
    } else if i == 4 {
        ((w[1] >> 5u32) & 0x7fu32) as u8
    } else if i == 5 {
        (((w[1] & 0x1fu32) << 3u32) | (w[2] >> 29u32)) as u8
    } else if i == 6 {
        ((w[2] >> 21u32) & 0xffu32) as u8
    } else {
        ((w[2] >> 13u32) & 0x7fu32) as u8
    }
}

/// The eight data bytes that the frame reads back: the first `len` of them, and
/// zeros behind.
pub open spec fn read_data(w: Seq<u32>, len: int) -> Seq<u8> {
    Seq::new(8, |i: int| if i < len { read_byte(w, i) } else { 0u8 })
}

/// ORing in no bits changes nothing.
pub proof fn lemma_or_zero()
    ensures
        forall|x: u32| #[trigger] (x | 0u32) == x,
{
    assert forall|x: u32| #[trigger] (x | 0u32) == x by {
        assert((x | 0u32) == x) by (bit_vector);
    }
}

} // verus!

verus! {

/// What two frames are ordered by: bits 20..=27 and bit 30 of the first word,
/// moved down by 20 places.
pub open spec fn order_key(w0: u32) -> u32 {
    (w0 & 0x4FF0_0000u32) >> 20u32
}

} // verus!

verus! {

/// No data bit of the words is set: bits 0..=12 of the first word, the second
/// word, and bits 13..=31 of the third word are clear.
pub open spec fn data_clear(w: Seq<u32>) -> bool {
    &&& w[0] & 0x1fffu32 == 0
    &&& w[1] == 0
    &&& w[2] & 0xffff_e000u32 == 0
}

/// The bits of data byte `i` that have a place in the frame: all eight, but
/// seven for bytes 3, 4 and 7.
pub open spec fn kept_bits(i: int) -> u8 {
    if i == 3 || i == 4 || i == 7 {
        0x7f
    } else {
        0xff
    }
}

/// The word-level facts behind `lemma_write_read`, one variable per word, byte
/// and written-or-not flag.
proof fn lemma_read_back_bits(
    w0: u32,
    w1: u32,
    w2: u32,
    d0: u8,
    d1: u8,
    d2: u8,
    d3: u8,
    d4: u8,
    d5: u8,
    d6: u8,
    d7: u8,
    c0: bool,
    c1: bool,
    c2: bool,
    c3: bool,
    c4: bool,
    c5: bool,
    c6: bool,
    c7: bool,
) by (bit_vector)
    requires
        w0 & 0x1fffu32 == 0,
        w1 == 0,
        w2 & 0xffff_e000u32 == 0,
    ensures
        ({
            let v0 = w0 | when(c0, (d0 as u32) << 5u32) | when(c1, (d1 >> 3u8) as u32);
            let v1 = w1 | when(c1, ((d1 & 7u8) as u32) << 29u32) | when(c2, (d2 as u32) << 21u32) | when(
                c3,
                (d3 as u32) << 13u32,
            ) | when(c4, (d4 as u32) << 5u32) | when(c5, (d5 >> 3u8) as u32);
            let v2 = w2 | when(c5, ((d5 & 7u8) as u32) << 29u32) | when(c6, (d6 as u32) << 21u32) | when(
                c7,
                (d7 as u32) << 13u32,
            );
            &&& (v0 & 0x0001_E000u32) >> 13u32 == (w0 & 0x0001_E000u32) >> 13u32
            &&& (v0 & 0x4FF0_0000u32) >> 20u32 == (w0 & 0x4FF0_0000u32) >> 20u32
            &&& ((v0 >> 5u32) & 0xffu32) as u8 == if c0 { d0 } else { 0 }
            &&& (((v0 & 0x1fu32) << 3u32) | (v1 >> 29u32)) as u8 == if c1 { d1 } else { 0 }
            &&& ((v1 >> 21u32) & 0xffu32) as u8 == if c2 { d2 } else { 0 }
            &&& ((v1 >> 13u32) & 0x7fu32) as u8 == if c3 { d3 & 0x7f } else { 0 }
            &&& ((v1 >> 5u32) & 0x7fu32) as u8 == if c4 { d4 & 0x7f } else { 0 }
            &&& (((v1 & 0x1fu32) << 3u32) | (v2 >> 29u32)) as u8 == if c5 { d5 } else { 0 }
            &&& ((v2 >> 21u32) & 0xffu32) as u8 == if c6 { d6 } else { 0 }
            &&& ((v2 >> 13u32) & 0x7fu32) as u8 == if c7 { d7 & 0x7f } else { 0 }
        }),
{
}

/// Writing data into a frame whose data bits are clear, and reading it back: the
/// first `n` bytes come back, `n` being the data length code or the number of
/// bytes given if that is smaller, each but for the bits that have no place
/// (the top bit of bytes 3, 4 and 7), and zeros behind them. The data length
/// code and the order key stay as they were. ASCII data comes back whole.
pub proof fn lemma_write_read(w: Seq<u32>, d: Seq<u8>)
    requires
        w.len() == 3,
        data_clear(w),
        dlc(w[0]) <= 8,
    ensures
        ({
            let len = dlc(w[0]) as int;
            let n = vstd::math::min(len, d.len() as int);
            let v = write_data(w, d, n);
            &&& dlc(v[0]) == dlc(w[0])
            &&& order_key(v[0]) == order_key(w[0])
            &&& read_data(v, len) == Seq::new(8, |i: int| if i < n { d[i] & kept_bits(i) } else { 0u8 })
            &&& (forall|i: int| 0 <= i < d.len() ==> d[i] < 0x80) ==> read_data(v, len) == Seq::new(
                8,
                |i: int| if i < n { d[i] } else { 0u8 },
            )
        }),
{
    let len = dlc(w[0]) as int;
    let n = vstd::math::min(len, d.len() as int);
    let v = write_data(w, d, n);
    lemma_read_back_bits(
        w[0], w[1], w[2], d[0], d[1], d[2], d[3], d[4], d[5], d[6], d[7],
        n > 0, n > 1, n > 2, n > 3, n > 4, n > 5, n > 6, n > 7,
    );
    let expect = Seq::new(8, |i: int| if i < n { d[i] & kept_bits(i) } else { 0u8 });
    assert forall|i: int| 0 <= i < 8 implies #[trigger] read_data(v, len)[i] == expect[i] by {
        let b = d[i];
        assert(b & 0xff == b) by (bit_vector);
    }
    assert(read_data(v, len) =~= expect);
    if forall|i: int| 0 <= i < d.len() ==> d[i] < 0x80 {
        assert forall|i: int| 0 <= i < 8 implies #[trigger] expect[i] == (if i < n { d[i] } else { 0u8 }) by {
            if i < n {
                let b = d[i];
                assert(b < 0x80 ==> b & 0x7f == b) by (bit_vector);
                assert(b & 0xff == b) by (bit_vector);
            }
        }
        assert(expect =~= Seq::new(8, |i: int| if i < n { d[i] } else { 0u8 }));
    }
}

/// The first word of a frame fresh from `CANFrame::new` and
/// `set_RTR_and_ctr_bits` leaves the data bits clear and announces `len` bytes.
pub proof fn lemma_fresh_frame(id: u32, len: u32)
    requires
        id <= 0x7FF,
        len <= 8,
    ensures
        data_clear(seq![control_word(0x8000_0000u32 | (id << 20u32), len), 0u32, 0u32]),
        dlc(control_word(0x8000_0000u32 | (id << 20u32), len)) == len,
{
    assert(control_word(0x8000_0000u32 | (id << 20u32), len) & 0x1fffu32 == 0
        && dlc(control_word(0x8000_0000u32 | (id << 20u32), len)) == len) by (bit_vector)
        requires
            id <= 0x7FF,
            len <= 8;
    assert(0u32 & 0xffff_e000u32 == 0) by (bit_vector);
}

/// Setting the control bits again replaces what the last call set.
pub proof fn lemma_control_word_again(w0: u32, a: u32, b: u32)
    requires
        a <= 8,
        b <= 8,
    ensures
        control_word(control_word(w0, a), b) == control_word(w0, b),
{
    assert(control_word(control_word(w0, a), b) == control_word(w0, b)) by (bit_vector)
        requires
            a <= 8,
            b <= 8;
}

} // verus!

verus! {

/// The 32 binary digits of `w`, most significant first.
pub open spec fn bin_digits(w: u32) -> Seq<char> {
    Seq::new(32, |i: int| if (w >> ((31 - i) as u32)) & 1u32 == 1u32 { '1' } else { '0' })
}

/// The upper-case hexadecimal digit for `v` below 16.
pub open spec fn hex_digit(v: nat) -> char {
    if v < 10 {
        ((v + 48) as u8) as char
    } else {
        ((v + 55) as u8) as char
    }
}

/// The upper-case hexadecimal digits of `v`, without leading zeros.
pub open spec fn hex_digits(v: nat) -> Seq<char>
    decreases v,
{
    if v < 16 {
        seq![hex_digit(v)]
    } else {
        hex_digits(v / 16).push(hex_digit(v % 16))
    }
}

} // verus!

verus! {

proof fn lemma_data_keeps_control_bits(w0: u32, d0: u8, d1: u8, c0: bool, c1: bool) by (bit_vector)
    ensures
        ({
            let v0 = w0 | when(c0, (d0 as u32) << 5u32) | when(c1, (d1 >> 3u8) as u32);
            &&& (v0 & 0x0001_E000u32) >> 13u32 == (w0 & 0x0001_E000u32) >> 13u32
            &&& (v0 & 0x4FF0_0000u32) >> 20u32 == (w0 & 0x4FF0_0000u32) >> 20u32
        }),
{
}

/// Writing data leaves the data length code and the order key of any frame as
/// they were.
pub proof fn lemma_write_keeps_control(w: Seq<u32>, d: Seq<u8>, n: int)
    ensures
        dlc(write_data(w, d, n)[0]) == dlc(w[0]),
        order_key(write_data(w, d, n)[0]) == order_key(w[0]),
{
    lemma_data_keeps_control_bits(w[0], d[0], d[1], n > 0, n > 1);
}

} // verus!

verus! {

/// Setting the control bits touches bits 13..=19 of the first word only: the
/// RTR bit (19) and the IDE and reserved bits (18, 17) end up set, bits
/// 13..=16 hold the data length, and every other bit stays as it was.
pub proof fn lemma_control_word_bits(w0: u32, len: u32)
    requires
        len <= 8,
    ensures
        control_word(w0, len) & !0x000F_E000u32 == w0 & !0x000F_E000u32,
        (control_word(w0, len) >> 17u32) & 7u32 == 7u32,
        (control_word(w0, len) >> 13u32) & 15u32 == len,
        order_key(control_word(w0, len)) == order_key(w0),
{
    assert(control_word(w0, len) & !0x000F_E000u32 == w0 & !0x000F_E000u32 && (control_word(w0, len) >> 17u32)
        & 7u32 == 7u32 && (control_word(w0, len) >> 13u32) & 15u32 == len && order_key(control_word(w0, len))
        == order_key(w0)) by (bit_vector)
        requires
            len <= 8;
}

proof fn lemma_data_word0(w0: u32, d0: u8, d1: u8, c0: bool, c1: bool) by (bit_vector)
    requires
        w0 & 0x1fffu32 == 0,
    ensures
        forall|j: u32| #![trigger bit_of(w0 | when(c0, (d0 as u32) << 5u32) | when(c1, (d1 >> 3u8) as u32), j)]
            j < 13 ==> bit_of(w0 | when(c0, (d0 as u32) << 5u32) | when(c1, (d1 >> 3u8) as u32), j) == (if j >= 5 {
                c0 && bit_of(d0 as u32, (j - 5) as u32)
            } else {
                c1 && bit_of(d1 as u32, (j + 3) as u32)
            }),
{
}

proof fn lemma_data_word1(d1: u8, d2: u8, d3: u8, d4: u8, d5: u8, c1: bool, c2: bool, c3: bool, c4: bool, c5: bool) by (bit_vector)
    ensures
        forall|j: u32| #![trigger bit_of(0u32 | when(c1, ((d1 & 7u8) as u32) << 29u32) | when(c2, (d2 as u32) << 21u32) | when(c3, (d3 as u32) << 13u32) | when(c4, (d4 as u32) << 5u32) | when(c5, (d5 >> 3u8) as u32), j)]
            j < 32 ==> bit_of(0u32 | when(c1, ((d1 & 7u8) as u32) << 29u32) | when(c2, (d2 as u32) << 21u32) | when(c3, (d3 as u32) << 13u32) | when(c4, (d4 as u32) << 5u32) | when(c5, (d5 >> 3u8) as u32), j)
                == (if j >= 29 {
                c1 && bit_of(d1 as u32, (j - 29) as u32)
            } else if j >= 21 {
                c2 && bit_of(d2 as u32, (j - 21) as u32)
            } else if j >= 13 {
                c3 && bit_of(d3 as u32, (j - 13) as u32)
            } else if j >= 5 {
                c4 && bit_of(d4 as u32, (j - 5) as u32)
            } else {
                c5 && bit_of(d5 as u32, (j + 3) as u32)
            }),
{
}

proof fn lemma_data_word2(w2: u32, d5: u8, d6: u8, d7: u8, c5: bool, c6: bool, c7: bool) by (bit_vector)
    requires
        w2 & 0xffff_e000u32 == 0,
    ensures
        forall|j: u32| #![trigger bit_of(w2 | when(c5, ((d5 & 7u8) as u32) << 29u32) | when(c6, (d6 as u32) << 21u32) | when(c7, (d7 as u32) << 13u32), j)]
            13 <= j < 32 ==> bit_of(w2 | when(c5, ((d5 & 7u8) as u32) << 29u32) | when(c6, (d6 as u32) << 21u32) | when(c7, (d7 as u32) << 13u32), j)
                == (if j >= 29 {
                c5 && bit_of(d5 as u32, (j - 29) as u32)
            } else if j >= 21 {
                c6 && bit_of(d6 as u32, (j - 21) as u32)
            } else {
                c7 && bit_of(d7 as u32, (j - 13) as u32)
            }),
{
}

} // verus!

verus! {

/// Writing data into a frame whose data bits are clear puts each of the first
/// `n` bytes whole into the stream, most significant bit first, in the eight
/// bits from position `19 + 8 * i`; the bits of the bytes behind them stay
/// clear.
pub proof fn lemma_data_in_stream(w: Seq<u32>, d: Seq<u8>, n: int)
    requires
        w.len() == 3,
        data_clear(w),
        0 <= n <= d.len(),
    ensures
        forall|i: int, k: int|
            0 <= i < 8 && 0 <= k < 8 ==> #[trigger] stream(write_data(w, d, n))[19 + 8 * i + k] == (i < n
                && bit_of(d[i] as u32, (7 - k) as u32)),
{
    let v = write_data(w, d, n);
    lemma_data_word0(w[0], d[0], d[1], n > 0, n > 1);
    lemma_data_word1(d[1], d[2], d[3], d[4], d[5], n > 1, n > 2, n > 3, n > 4, n > 5);
    lemma_data_word2(w[2], d[5], d[6], d[7], n > 5, n > 6, n > 7);
    assert(v[1] == 0u32 | when(n > 1, ((d[1] & 7u8) as u32) << 29u32) | when(n > 2, (d[2] as u32) << 21u32) | when(
        n > 3,
        (d[3] as u32) << 13u32,
    ) | when(n > 4, (d[4] as u32) << 5u32) | when(n > 5, (d[5] >> 3u8) as u32));
    assert forall|i: int, k: int| 0 <= i < 8 && 0 <= k < 8 implies #[trigger] stream(v)[19 + 8 * i + k] == (i
        < n && bit_of(d[i] as u32, (7 - k) as u32)) by {
        let p = 19 + 8 * i + k;
        assert(stream(v)[p] == msb(v[p / 32], p % 32));
        if p < 32 {
            assert(p / 32 == 0 && p % 32 == p);
            let j = (31 - p) as u32;
            assert(bit_of(v[0], j) == msb(v[0], p));
        } else if p < 64 {
            assert(p / 32 == 1 && p % 32 == p - 32);
            let j = (63 - p) as u32;
            assert(bit_of(v[1], j) == msb(v[1], p - 32));
        } else {
            assert(p / 32 == 2 && p % 32 == p - 64);
            let j = (95 - p) as u32;
            assert(bit_of(v[2], j) == msb(v[2], p - 64));
        }
    }
}

} // verus!

verus! {

/// The first word of a new frame holds the start-of-frame bit, then `id` in the
/// 11 identifier bits, and nothing below; its order key is the identifier less
/// the two bits (0x100 and 0x200) that the key mask leaves out.
pub proof fn lemma_new_word(id: u32)
    requires
        id <= 0x7FF,
    ensures
        (0x8000_0000u32 | (id << 20u32)) >> 31u32 == 1,
        ((0x8000_0000u32 | (id << 20u32)) >> 20u32) & 0x7FFu32 == id,
        (0x8000_0000u32 | (id << 20u32)) & 0x000F_FFFFu32 == 0,
        order_key(0x8000_0000u32 | (id << 20u32)) == id & 0x4FFu32,
{
    assert((0x8000_0000u32 | (id << 20u32)) >> 31u32 == 1 && ((0x8000_0000u32 | (id << 20u32)) >> 20u32) & 0x7FFu32
        == id && (0x8000_0000u32 | (id << 20u32)) & 0x000F_FFFFu32 == 0 && ((0x8000_0000u32 | (id << 20u32))
        & 0x4FF0_0000u32) >> 20u32 == id & 0x4FFu32) by (bit_vector)
        requires
            id <= 0x7FF;
}

} // verus!

verus! {

proof fn lemma_read_bits(v0: u32, v1: u32, v2: u32) by (bit_vector)
    ensures
        forall|j: u32| #![trigger bit_of(((v0 >> 5u32) & 0xffu32) as u8 as u32, j)]
            j < 8 ==> bit_of(((v0 >> 5u32) & 0xffu32) as u8 as u32, j) == bit_of(v0, (j + 5) as u32),
        forall|j: u32| #![trigger bit_of((((v0 & 0x1fu32) << 3u32) | (v1 >> 29u32)) as u8 as u32, j)]
            j < 8 ==> bit_of((((v0 & 0x1fu32) << 3u32) | (v1 >> 29u32)) as u8 as u32, j) == if j >= 3 {
                bit_of(v0, (j - 3) as u32)
            } else {
                bit_of(v1, (j + 29) as u32)
            },
        forall|j: u32| #![trigger bit_of(((v1 >> 21u32) & 0xffu32) as u8 as u32, j)]
            j < 8 ==> bit_of(((v1 >> 21u32) & 0xffu32) as u8 as u32, j) == bit_of(v1, (j + 21) as u32),
        forall|j: u32| #![trigger bit_of(((v1 >> 13u32) & 0x7fu32) as u8 as u32, j)]
            j < 8 ==> bit_of(((v1 >> 13u32) & 0x7fu32) as u8 as u32, j) == (j < 7 && bit_of(v1, (j + 13) as u32)),
        forall|j: u32| #![trigger bit_of(((v1 >> 5u32) & 0x7fu32) as u8 as u32, j)]
            j < 8 ==> bit_of(((v1 >> 5u32) & 0x7fu32) as u8 as u32, j) == (j < 7 && bit_of(v1, (j + 5) as u32)),
        forall|j: u32| #![trigger bit_of((((v1 & 0x1fu32) << 3u32) | (v2 >> 29u32)) as u8 as u32, j)]
            j < 8 ==> bit_of((((v1 & 0x1fu32) << 3u32) | (v2 >> 29u32)) as u8 as u32, j) == if j >= 3 {
                bit_of(v1, (j - 3) as u32)
            } else {
                bit_of(v2, (j + 29) as u32)
            },
        forall|j: u32| #![trigger bit_of(((v2 >> 21u32) & 0xffu32) as u8 as u32, j)]
            j < 8 ==> bit_of(((v2 >> 21u32) & 0xffu32) as u8 as u32, j) == bit_of(v2, (j + 21) as u32),
        forall|j: u32| #![trigger bit_of(((v2 >> 13u32) & 0x7fu32) as u8 as u32, j)]
            j < 8 ==> bit_of(((v2 >> 13u32) & 0x7fu32) as u8 as u32, j) == (j < 7 && bit_of(v2, (j + 13) as u32)),
{
}

/// Reading data back takes byte `i` from the eight stream bits from position
/// `19 + 8 * i`, most significant bit first, for each of the first `len` bytes
/// (at most eight); the top bit of bytes 3, 4 and 7 is not read and comes back
/// clear, and the bytes behind the first `len` come back zero.
pub proof fn lemma_read_from_stream(w: Seq<u32>, len: int)
    requires
        w.len() == 3,
    ensures
        forall|i: int, k: int|
            0 <= i < 8 && 0 <= k < 8 ==> #[trigger] bit_of(read_data(w, len)[i] as u32, (7 - k) as u32) == (i < len
                && stream(w)[19 + 8 * i + k] && !(k == 0 && (i == 3 || i == 4 || i == 7))),
{
    lemma_read_bits(w[0], w[1], w[2]);
    assert forall|i: int, k: int| 0 <= i < 8 && 0 <= k < 8 implies #[trigger] bit_of(
        read_data(w, len)[i] as u32,
        (7 - k) as u32,
    ) == (i < len && stream(w)[19 + 8 * i + k] && !(k == 0 && (i == 3 || i == 4 || i == 7))) by {
        let p = 19 + 8 * i + k;
        let j = (7 - k) as u32;
        if i < len {
            assert(read_data(w, len)[i] == read_byte(w, i));
            assert(stream(w)[p] == msb(w[p / 32], p % 32));
            if p < 32 {
                assert(p / 32 == 0 && p % 32 == p);
                assert(msb(w[0], p) == bit_of(w[0], (31 - p) as u32));
            } else if p < 64 {
                assert(p / 32 == 1 && p % 32 == p - 32);
                assert(msb(w[1], p - 32) == bit_of(w[1], (63 - p) as u32));
            } else {
                assert(p / 32 == 2 && p % 32 == p - 64);
                assert(msb(w[2], p - 64) == bit_of(w[2], (95 - p) as u32));
            }
        } else {
            assert(read_data(w, len)[i] == 0u8);
            assert(bit_of(0u8 as u32, j) == false) by (bit_vector);
        }
    }
}

} // verus!
