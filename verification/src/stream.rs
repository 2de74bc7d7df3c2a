use crate::bits::bit_of;
use vstd::prelude::*;

verus! {

/// Bit `k` of a word counted from the most significant end (`k == 0` is bit 31).
pub open spec fn msb(w: u32, k: int) -> bool {
    bit_of(w, (31 - k) as u32)
}

/// The 96-bit stream held by three words, most significant bit of the first word
/// first.
pub open spec fn stream(w: Seq<u32>) -> Seq<bool> {
    Seq::new(96, |p: int| msb(w[p / 32], p % 32))
}

/// `s` with `b` inserted at position `at`; the bits behind it move one place on
/// and the last bit falls off, so the length stays the same.
pub open spec fn insert_bit(s: Seq<bool>, at: int, b: bool) -> Seq<bool> {
    (s.take(at).push(b) + s.skip(at)).take(s.len() as int)
}

/// The bits of `w` from position `r` (counted from the most significant end) on,
/// moved one place towards the least significant end; the bits before `r` stay.
pub open spec fn shift_tail(w: u32, r: u32) -> u32 {
    (w & !(0xffff_ffffu32 >> r)) | ((w & (0xffff_ffffu32 >> r)) >> 1u32)
}

/// `x` with bit `j` (from the least significant end) set to `v`.
pub open spec fn with_bit(x: u32, j: u32, v: bool) -> u32 {
    if v {
        x | (1u32 << j)
    } else {
        x & !(1u32 << j)
    }
}

/// Setting one bit leaves the others.
pub proof fn lemma_with_bit(x: u32, j: u32, v: bool)
    requires
        j < 32,
    ensures
        forall|i: u32| #![auto] i < 32 ==> bit_of(with_bit(x, j, v), i) == (if i == j { v } else { bit_of(x, i) }),
{
    assert(forall|i: u32| #![auto] i < 32 ==> bit_of(with_bit(x, j, v), i) == (if i == j { v } else { bit_of(x, i) })) by (bit_vector)
        requires j < 32;
}

/// `shift_tail` bit by bit.
pub proof fn lemma_shift_tail(w: u32, r: u32)
    requires
        r < 32,
    ensures
        forall|i: u32| #![auto] i < 32 && i > 31 - r ==> bit_of(shift_tail(w, r), i) == bit_of(w, i),
        forall|i: u32| #![auto] i < 31 - r ==> bit_of(shift_tail(w, r), i) == bit_of(w, (i + 1) as u32),
{
    assert(forall|i: u32| #![auto] i < 32 && i > 31 - r ==> bit_of(shift_tail(w, r), i) == bit_of(w, i)) by (bit_vector)
        requires r < 32;
    assert(forall|i: u32| #![auto] i < 31 - r ==> bit_of(shift_tail(w, r), i) == bit_of(w, (i + 1) as u32)) by (bit_vector)
        requires r < 32;
}

/// Inserting `v` at position `r` of one word: the word-level step of inserting a
/// bit into the stream.
pub open spec fn word_insert(w: u32, r: u32, v: bool) -> u32 {
    with_bit(shift_tail(w, r), (31 - r) as u32, v)
}

/// `word_insert` bit by bit, counted from the most significant end.
pub proof fn lemma_word_insert(w: u32, r: u32, v: bool)
    requires
        r < 32,
    ensures
        forall|k: int| 0 <= k < 32 ==> #[trigger] msb(word_insert(w, r, v), k) == (if k < r {
            msb(w, k)
        } else if k == r {
            v
        } else {
            msb(w, k - 1)
        }),
{
    lemma_shift_tail(w, r);
    lemma_with_bit(shift_tail(w, r), (31 - r) as u32, v);
    assert forall|k: int| 0 <= k < 32 implies #[trigger] msb(word_insert(w, r, v), k) == (if k < r {
        msb(w, k)
    } else if k == r {
        v
    } else {
        msb(w, k - 1)
    }) by {
        let i = (31 - k) as u32;
        assert(bit_of(word_insert(w, r, v), i) == (if i == 31 - r { v } else { bit_of(shift_tail(w, r), i) }));
        if k > r {
            assert(((i + 1) as u32) == (31 - (k - 1)) as u32);
        }
    }
}

/// Setting the top bit leaves the others.
pub proof fn lemma_set_top(w: u32, v: bool)
    ensures
        forall|k: int| 0 <= k < 32 ==> #[trigger] msb(with_bit(w, 31, v), k) == (if k == 0 { v } else { msb(w, k) }),
{
    lemma_with_bit(w, 31, v);
    assert forall|k: int| 0 <= k < 32 implies #[trigger] msb(with_bit(w, 31, v), k) == (if k == 0 { v } else { msb(w, k) }) by {
        let i = (31 - k) as u32;
        assert(bit_of(with_bit(w, 31, v), i) == (if i == 31 { v } else { bit_of(w, i) }));
    }
}

} // verus!

verus! {

/// Testing a bit by a mask reads that bit.
pub proof fn lemma_get_bit(w: u32, j: u32)
    requires
        j < 32,
    ensures
        (w & (1u32 << j) != 0u32) == bit_of(w, j),
{
    assert((w & (1u32 << j) != 0u32) == bit_of(w, j)) by (bit_vector)
        requires j < 32;
}

/// `insert_bit` position by position.
pub proof fn lemma_insert_bit_index(s: Seq<bool>, at: int, b: bool)
    requires
        0 <= at <= s.len(),
    ensures
        insert_bit(s, at, b).len() == s.len(),
        forall|p: int| 0 <= p < s.len() ==> #[trigger] insert_bit(s, at, b)[p] == (if p < at {
            s[p]
        } else if p == at {
            b
        } else {
            s[p - 1]
        }),
{
}

/// Position by position, the words `nw` hold the stream of `ow` with `b` inserted
/// at `at`.
pub proof fn lemma_stream_insert(nw: Seq<u32>, ow: Seq<u32>, at: int, b: bool)
    requires
        nw.len() == 3,
        ow.len() == 3,
        0 <= at <= 96,
        forall|p: int| 0 <= p < 96 ==> #[trigger] msb(nw[p / 32], p % 32) == (if p < at {
            msb(ow[p / 32], p % 32)
        } else if p == at {
            b
        } else {
            msb(ow[(p - 1) / 32], (p - 1) % 32)
        }),
    ensures
        stream(nw) == insert_bit(stream(ow), at, b),
{
    lemma_insert_bit_index(stream(ow), at, b);
    assert forall|p: int| 0 <= p < 96 implies #[trigger] stream(nw)[p] == insert_bit(stream(ow), at, b)[p] by {
        assert(msb(nw[p / 32], p % 32) == stream(nw)[p]);
    }
    assert(stream(nw) =~= insert_bit(stream(ow), at, b));
}

} // verus!

verus! {

/// Words whose stream is that of `w` with `b` inserted at `at`, built word by word
/// as the frame does it: the word that holds `at` takes the bit, each word behind
/// it moves one place and takes the last bit of the word before it.
pub open spec fn insert_words(w: Seq<u32>, at: int, b: bool) -> Seq<u32> {
    if at >= 96 {
        w
    } else if at >= 64 {
        seq![w[0], w[1], word_insert(w[2], (at - 64) as u32, b)]
    } else if at >= 32 {
        seq![
            w[0],
            word_insert(w[1], (at - 32) as u32, b),
            with_bit(word_insert(w[2], 0, b), 31, bit_of(w[1], 0)),
        ]
    } else {
        seq![
            word_insert(w[0], at as u32, b),
            with_bit(word_insert(w[1], 0, b), 31, bit_of(w[0], 0)),
            with_bit(word_insert(w[2], 0, b), 31, bit_of(w[1], 0)),
        ]
    }
}

/// A word after the one that takes the bit: it moves one place and takes the
/// last bit of the word before it.
proof fn lemma_msb_carry(prev: u32, w: u32, v: bool)
    ensures
        msb(with_bit(word_insert(w, 0, v), 31, bit_of(prev, 0)), 0) == msb(prev, 31),
        forall|k: int| 1 <= k < 32 ==> #[trigger] msb(with_bit(word_insert(w, 0, v), 31, bit_of(prev, 0)), k) == msb(w, k - 1),
{
    lemma_word_insert(w, 0, v);
    lemma_set_top(word_insert(w, 0, v), bit_of(prev, 0));
    assert forall|k: int| 1 <= k < 32 implies #[trigger] msb(with_bit(word_insert(w, 0, v), 31, bit_of(prev, 0)), k) == msb(w, k - 1) by {
        assert(msb(word_insert(w, 0, v), k) == msb(w, k - 1));
    }
}

/// `insert_words` inserts the bit into the stream.
pub proof fn lemma_insert_words(w: Seq<u32>, at: int, b: bool)
    requires
        w.len() == 3,
        0 <= at <= 96,
    ensures
        insert_words(w, at, b).len() == 3,
        stream(insert_words(w, at, b)) == insert_bit(stream(w), at, b),
{
    let nw = insert_words(w, at, b);
    if at < 96 {
        if at >= 64 {
            lemma_word_insert(w[2], (at - 64) as u32, b);
        } else if at >= 32 {
            lemma_word_insert(w[1], (at - 32) as u32, b);
            lemma_msb_carry(w[1], w[2], b);
        } else {
            lemma_word_insert(w[0], at as u32, b);
            lemma_msb_carry(w[0], w[1], b);
            lemma_msb_carry(w[1], w[2], b);
        }
    }
    assert forall|p: int| 0 <= p < 96 implies #[trigger] msb(nw[p / 32], p % 32) == (if p < at {
        msb(w[p / 32], p % 32)
    } else if p == at {
        b
    } else {
        msb(w[(p - 1) / 32], (p - 1) % 32)
    }) by {
        let wi = p / 32;
        let k = p % 32;
        if at < 96 {
            if wi == 0 {
                assert(msb(nw[0], k) == msb(nw[p / 32], p % 32));
            } else if wi == 1 {
                assert(msb(nw[1], k) == msb(nw[p / 32], p % 32));
            } else {
                assert(msb(nw[2], k) == msb(nw[p / 32], p % 32));
            }
            if p > at && k == 0 {
                assert((p - 1) % 32 == 31 && (p - 1) / 32 == wi - 1);
            } else if p > at {
                assert((p - 1) % 32 == k - 1 && (p - 1) / 32 == wi);
            }
        }
    }
    lemma_stream_insert(nw, w, at, b);
}

} // verus!

verus! {

/// The five bits of `s` from `c` on are all equal.
pub open spec fn window_same(s: Seq<bool>, c: int) -> bool {
    &&& s[c] == s[c + 4]
    &&& s[c + 1] == s[c + 4]
    &&& s[c + 2] == s[c + 4]
    &&& s[c + 3] == s[c + 4]
}

/// Where the run of bits that ends the window `c..c + 5` starts, when the window
/// holds bits of both values.
pub open spec fn next_run(s: Seq<bool>, c: int) -> int {
    if s[c + 3] != s[c + 4] {
        c + 4
    } else if s[c + 2] != s[c + 4] {
        c + 3
    } else if s[c + 1] != s[c + 4] {
        c + 2
    } else {
        c + 1
    }
}

/// Bit stuffing of a 96-bit stream from position `c` on, window by window: where
/// the five bits from `c` are equal, the opposite bit goes in behind them and the
/// next window starts at it; otherwise the next window starts where the last run
/// of the window starts. Windows that would start after position 90 are not
/// looked at.
pub open spec fn stuff_at(s: Seq<bool>, c: int) -> Seq<bool>
    decreases 96 - c,
{
    if c < 0 || c > 90 {
        s
    } else if window_same(s, c) {
        stuff_at(insert_bit(s, c + 5, !s[c + 4]), c + 5)
    } else {
        stuff_at(s, next_run(s, c))
    }
}

} // verus!

verus! {

/// Five bits of `w` from bit `sh` on (least significant end), moved down to the
/// bottom.
pub open spec fn window_in_word(w: u32, sh: u32) -> u32 {
    (w & (31u32 << sh)) >> sh
}

/// The low `5 - t` bits of `a` followed by the top `t` bits of `b`.
pub open spec fn window_across(a: u32, b: u32, t: u32) -> u32 {
    ((a & (31u32 >> t)) << t) | ((b & (31u32 << 27u32)) >> ((32 - t) as u32))
}

/// `window_in_word` bit by bit.
pub proof fn lemma_window_in_word(w: u32, sh: u32)
    requires
        sh <= 27,
    ensures
        window_in_word(w, sh) < 32,
        forall|j: u32| j < 5 ==> #[trigger] bit_of(window_in_word(w, sh), j) == bit_of(w, (sh + j) as u32),
{
    assert(window_in_word(w, sh) < 32) by (bit_vector)
        requires sh <= 27;
    assert(forall|j: u32| j < 5 ==> #[trigger] bit_of(window_in_word(w, sh), j) == bit_of(w, (sh + j) as u32)) by (bit_vector)
        requires sh <= 27;
}

/// `window_across` bit by bit.
pub proof fn lemma_window_across(a: u32, b: u32, t: u32)
    requires
        1 <= t <= 4,
    ensures
        window_across(a, b, t) < 32,
        forall|j: u32| j < 5 ==> #[trigger] bit_of(window_across(a, b, t), j)
            == (if j >= t { bit_of(a, (j - t) as u32) } else { bit_of(b, (32 - t + j) as u32) }),
{
    assert(window_across(a, b, t) < 32) by (bit_vector)
        requires 1 <= t <= 4;
    assert(forall|j: u32| j < 5 ==> #[trigger] bit_of(window_across(a, b, t), j)
            == (if j >= t { bit_of(a, (j - t) as u32) } else { bit_of(b, (32 - t + j) as u32) })) by (bit_vector)
        requires 1 <= t <= 4;
}

} // verus!

verus! {

/// The five bits of the stream of `w` from position `c` on, the first of them in
/// bit 4 and the last in bit 0, as the frame reads them one window at a time.
pub open spec fn window_value(w: Seq<u32>, c: int) -> u32 {
    if c <= 27 {
        window_in_word(w[0], (27 - c) as u32)
    } else if c <= 31 {
        window_across(w[0], w[1], (c - 27) as u32)
    } else if c <= 59 {
        window_in_word(w[1], (59 - c) as u32)
    } else if c <= 63 {
        window_across(w[1], w[2], (c - 59) as u32)
    } else {
        window_in_word(w[2], (91 - c) as u32)
    }
}

/// The window the frame reads at `c` holds bits `c..c + 5` of the stream.
pub proof fn lemma_window_value(w: Seq<u32>, c: int)
    requires
        w.len() == 3,
        0 <= c <= 90,
    ensures
        window_value(w, c) < 32,
        forall|j: u32| j < 5 ==> #[trigger] bit_of(window_value(w, c), j) == stream(w)[c + 4 - j],
{
    let m = window_value(w, c);
    if c <= 27 {
        lemma_window_in_word(w[0], (27 - c) as u32);
    } else if c <= 31 {
        lemma_window_across(w[0], w[1], (c - 27) as u32);
    } else if c <= 59 {
        lemma_window_in_word(w[1], (59 - c) as u32);
    } else if c <= 63 {
        lemma_window_across(w[1], w[2], (c - 59) as u32);
    } else {
        lemma_window_in_word(w[2], (91 - c) as u32);
    }
    assert forall|j: u32| j < 5 implies #[trigger] bit_of(m, j) == stream(w)[c + 4 - j] by {
        let p = c + 4 - j;
        assert(stream(w)[p] == msb(w[p / 32], p % 32));
        if p < 32 {
            assert(p / 32 == 0 && p % 32 == p);
        } else if p < 64 {
            assert(p / 32 == 1 && p % 32 == p - 32);
        } else {
            assert(p / 32 == 2 && p % 32 == p - 64);
        }
    }
}

/// What the frame learns from one window `m`: `Ok(n)` when its bits differ,
/// with `n` the distance from the start of the window to the start of its last
/// run; `Err(b)` when all five bits are `b`.
pub open spec fn bit_change(m: u32) -> Result<usize, bool> {
    if bit_of(m, 1) != bit_of(m, 0) {
        Ok(4)
    } else if bit_of(m, 2) != bit_of(m, 0) {
        Ok(3)
    } else if bit_of(m, 3) != bit_of(m, 0) {
        Ok(2)
    } else if bit_of(m, 4) != bit_of(m, 0) {
        Ok(1)
    } else {
        Err(bit_of(m, 0))
    }
}

} // verus!

verus! {

/// Bit stuffing as the CAN standard states it: the bits of `s` go out in order,
/// and after five equal bits in a row the opposite bit goes out too, which counts
/// as the first bit of the next run. `last` is the bit that went out before and
/// `run` how many equal bits in a row ended with it.
pub open spec fn stuffed(s: Seq<bool>, last: bool, run: nat) -> Seq<bool>
    decreases s.len(), (if run >= 5 { 1int } else { 0int }),
{
    if run >= 5 {
        seq![!last] + stuffed(s, !last, 1)
    } else if s.len() == 0 {
        seq![]
    } else {
        seq![s[0]] + stuffed(s.drop_first(), s[0], if s[0] == last { run + 1 } else { 1 })
    }
}

/// The run length after the first `m` bits of `s` went out without stuffing.
pub open spec fn run_after(s: Seq<bool>, last: bool, run: nat, m: nat) -> nat
    decreases m,
{
    if m == 0 || s.len() == 0 {
        run
    } else {
        run_after(s.drop_first(), s[0], if s[0] == last { run + 1 } else { 1 }, (m - 1) as nat)
    }
}

/// Stuffing drops no bit.
proof fn lemma_stuffed_len(s: Seq<bool>, last: bool, run: nat)
    ensures
        stuffed(s, last, run).len() >= s.len(),
    decreases s.len(), (if run >= 5 { 1int } else { 0int }),
{
    if run >= 5 {
        lemma_stuffed_len(s, !last, 1);
    } else if s.len() > 0 {
        lemma_stuffed_len(s.drop_first(), s[0], if s[0] == last { run + 1 } else { 1 });
    }
}

/// The first `n` bits that go out depend on the first `n` bits that come in only.
proof fn lemma_stuffed_prefix(s: Seq<bool>, n: int, last: bool, run: nat)
    requires
        0 <= n <= s.len(),
    ensures
        stuffed(s.take(n), last, run).take(n) == stuffed(s, last, run).take(n),
    decreases s.len(), (if run >= 5 { 1int } else { 0int }),
{
    lemma_stuffed_len(s.take(n), last, run);
    lemma_stuffed_len(s, last, run);
    if n == 0 {
        assert(stuffed(s.take(n), last, run).take(n) =~= stuffed(s, last, run).take(n));
    } else if run >= 5 {
        lemma_stuffed_prefix(s, n, !last, 1);
        lemma_stuffed_len(s.take(n), !last, 1);
        lemma_stuffed_len(s, !last, 1);
        let a = stuffed(s.take(n), !last, 1);
        let b = stuffed(s, !last, 1);
        assert(stuffed(s.take(n), last, run) == seq![!last] + a);
        assert(stuffed(s, last, run) == seq![!last] + b);
        let sa = seq![!last] + a;
        let sb = seq![!last] + b;
        assert forall|i: int| 0 <= i < n implies #[trigger] sa[i] == sb[i] by {
            if i > 0 {
                assert(a.take(n)[i - 1] == b.take(n)[i - 1]);
            }
        }
        assert(stuffed(s.take(n), last, run).take(n) =~= stuffed(s, last, run).take(n));
    } else {
        let nr: nat = if s[0] == last { run + 1 } else { 1 };
        let t = s.drop_first();
        assert(s.take(n).drop_first() =~= t.take(n - 1));
        lemma_stuffed_prefix(t, n - 1, s[0], nr);
        lemma_stuffed_len(t.take(n - 1), s[0], nr);
        lemma_stuffed_len(t, s[0], nr);
        let a = stuffed(t.take(n - 1), s[0], nr);
        let b = stuffed(t, s[0], nr);
        assert(s.take(n)[0] == s[0]);
        assert(stuffed(s.take(n), last, run) == seq![s[0]] + a);
        assert(stuffed(s, last, run) == seq![s[0]] + b);
        let sa = seq![s[0]] + a;
        let sb = seq![s[0]] + b;
        assert forall|i: int| 0 <= i < n implies #[trigger] sa[i] == sb[i] by {
            if i > 0 {
                assert(a.take(n - 1)[i - 1] == b.take(n - 1)[i - 1]);
            }
        }
        assert(stuffed(s.take(n), last, run).take(n) =~= stuffed(s, last, run).take(n));
    }
}

/// While fewer than five equal bits have gone out, nothing is stuffed.
proof fn lemma_stuffed_short(s: Seq<bool>, last: bool, run: nat)
    requires
        run + s.len() <= 5,
    ensures
        stuffed(s, last, run).take(s.len() as int) == s,
    decreases s.len(),
{
    lemma_stuffed_len(s, last, run);
    if s.len() > 0 {
        let nr: nat = if s[0] == last { run + 1 } else { 1 };
        let t = s.drop_first();
        lemma_stuffed_short(t, s[0], nr);
        lemma_stuffed_len(t, s[0], nr);
        let a = stuffed(t, s[0], nr);
        assert(stuffed(s, last, run) == seq![s[0]] + a);
        let sa = seq![s[0]] + a;
        assert forall|i: int| 0 <= i < s.len() implies #[trigger] sa[i] == s[i] by {
            if i > 0 {
                assert(a.take(t.len() as int)[i - 1] == t[i - 1]);
            }
        }
        assert(stuffed(s, last, run).take(s.len() as int) =~= s);
    } else {
        assert(stuffed(s, last, run).take(s.len() as int) =~= s);
    }
}

/// The first `m` bits go out as they are when the run cannot reach five.
proof fn lemma_stuffed_unroll(s: Seq<bool>, last: bool, run: nat, m: nat)
    requires
        m <= s.len(),
        run + m <= 4,
    ensures
        run_after(s, last, run, m) <= run + m,
        stuffed(s, last, run) == s.take(m as int) + stuffed(
            s.skip(m as int),
            if m == 0 { last } else { s[m - 1] },
            run_after(s, last, run, m),
        ),
    decreases m,
{
    if m == 0 {
        assert(s.skip(0) =~= s);
        assert(stuffed(s, last, run) =~= s.take(0) + stuffed(s, last, run));
    } else {
        let nr: nat = if s[0] == last { run + 1 } else { 1 };
        let t = s.drop_first();
        lemma_stuffed_unroll(t, s[0], nr, (m - 1) as nat);
        assert(t.skip(m - 1) =~= s.skip(m as int));
        if m >= 2 {
            assert(t[m - 2] == s[m - 1]);
        }
        assert(s.take(m as int) =~= seq![s[0]] + t.take(m - 1));
        assert(stuffed(s, last, run) =~= s.take(m as int) + stuffed(
            s.skip(m as int),
            if m == 0 { last } else { s[m - 1] },
            run_after(s, last, run, m),
        ));
    }
}

/// Five equal bits `v` in a row: the opposite bit goes out behind the last of them.
proof fn lemma_stuffed_five(s: Seq<bool>, v: bool, run: nat)
    requires
        1 <= run <= 5,
        s.len() >= 5 - run,
        forall|i: int| 0 <= i < 5 - run ==> s[i] == v,
    ensures
        stuffed(s, v, run) == s.take(5 - run) + seq![!v] + stuffed(s.skip(5 - run), !v, 1),
    decreases 5 - run,
{
    if run == 5 {
        assert(s.skip(0) =~= s);
        assert(stuffed(s, v, run) =~= s.take(0) + seq![!v] + stuffed(s.skip(0), !v, 1));
    } else {
        let t = s.drop_first();
        lemma_stuffed_five(t, v, run + 1);
        assert(t.skip(5 - (run + 1)) =~= s.skip(5 - run));
        assert(s.take(5 - run) =~= seq![s[0]] + t.take(5 - (run + 1)));
        assert(stuffed(s, v, run) =~= s.take(5 - run) + seq![!v] + stuffed(s.skip(5 - run), !v, 1));
    }
}

} // verus!

verus! {

/// A window that starts after position 90: what is left goes out unstuffed.
proof fn lemma_from_tail(s: Seq<bool>, c: int, last: bool, run: nat)
    requires
        s.len() == 96,
        90 < c < 96,
        run < 5,
        s[c] != last || run == 0,
    ensures
        s == (s.take(c) + stuffed(s.skip(c), last, run)).take(96),
{
    let x = s.skip(c);
    let v = s[c];
    let x1 = x.drop_first();
    assert(stuffed(x, last, run) == seq![v] + stuffed(x1, v, 1));
    lemma_stuffed_short(x1, v, 1);
    lemma_stuffed_len(x1, v, 1);
    let out = s.take(c) + (seq![v] + stuffed(x1, v, 1));
    assert forall|i: int| 0 <= i < 96 implies #[trigger] out[i] == s[i] by {
        if i > c {
            assert(stuffed(x1, v, 1).take(x1.len() as int)[i - c - 1] == x1[i - c - 1]);
        }
    }
    assert(out.take(96) =~= s);
}

/// A window of five equal bits: stuffing it and going on from the stuffed bit.
proof fn lemma_from_five(s: Seq<bool>, c: int, last: bool, run: nat)
    requires
        s.len() == 96,
        0 <= c <= 90,
        run < 5,
        s[c] != last || run == 0,
        window_same(s, c),
    ensures
        ({
            let v = s[c + 4];
            let s2 = insert_bit(s, c + 5, !v);
            (s2.take(c + 5) + stuffed(s2.skip(c + 5), v, 4)).take(96)
                == (s.take(c) + stuffed(s.skip(c), last, run)).take(96)
        }),
{
    let x = s.skip(c);
    let v = s[c];
    let x1 = x.drop_first();
    assert(stuffed(x, last, run) == seq![v] + stuffed(x1, v, 1));
    let s2 = insert_bit(s, c + 5, !v);
    lemma_insert_bit_index(s, c + 5, !v);
    lemma_stuffed_five(x1, v, 1);
    let rest = s.skip(c + 5);
    assert(x1.skip(4) =~= rest);
    let y = s2.skip(c + 5);
    let rt = rest.take(90 - c);
    assert(y =~= seq![!v] + rt);
    assert(y.drop_first() =~= rt);
    assert(stuffed(y, v, 4) == seq![!v] + stuffed(rt, !v, 1));
    lemma_stuffed_prefix(rest, 90 - c, !v, 1);
    lemma_stuffed_len(rt, !v, 1);
    lemma_stuffed_len(rest, !v, 1);
    let a = stuffed(rt, !v, 1);
    let b = stuffed(rest, !v, 1);
    let lhs = s2.take(c + 5) + stuffed(y, v, 4);
    let rhs = s.take(c) + stuffed(x, last, run);
    assert(rhs =~= s.take(c + 5) + seq![!v] + b);
    assert(lhs =~= s.take(c + 5) + seq![!v] + a);
    assert forall|i: int| 0 <= i < 96 implies #[trigger] lhs[i] == rhs[i] by {
        if i > c + 5 {
            assert(a.take(90 - c)[i - c - 6] == b.take(90 - c)[i - c - 6]);
        }
    }
    assert(lhs.take(96) =~= rhs.take(96));
}

/// A window of mixed bits: going on from the start of its last run.
proof fn lemma_from_run(s: Seq<bool>, c: int, last: bool, run: nat)
    requires
        s.len() == 96,
        0 <= c <= 90,
        run < 5,
        s[c] != last || run == 0,
        !window_same(s, c),
    ensures
        s[next_run(s, c)] != s[next_run(s, c) - 1],
        run_after(s.skip(c).drop_first(), s[c], 1, (next_run(s, c) - c - 1) as nat) < 5,
        s.take(c) + stuffed(s.skip(c), last, run) == s.take(next_run(s, c)) + stuffed(
            s.skip(next_run(s, c)),
            s[next_run(s, c) - 1],
            run_after(s.skip(c).drop_first(), s[c], 1, (next_run(s, c) - c - 1) as nat),
        ),
{
    let x = s.skip(c);
    let v = s[c];
    let x1 = x.drop_first();
    assert(stuffed(x, last, run) == seq![v] + stuffed(x1, v, 1));
    let nx = next_run(s, c);
    let m = (nx - c - 1) as nat;
    lemma_stuffed_unroll(x1, v, 1, m);
    let k = run_after(x1, v, 1, m);
    assert(x1.skip(m as int) =~= s.skip(nx));
    if m > 0 {
        assert(x1[m - 1] == s[nx - 1]);
    }
    let rhs = s.take(c) + stuffed(x, last, run);
    assert(rhs =~= s.take(nx) + stuffed(s.skip(nx), s[nx - 1], k));
}

/// From a window that starts a run, the windowed stuffing gives the first 96 bits
/// that stuffing as the standard states it sends.
proof fn lemma_stuff_at_from(s: Seq<bool>, c: int, last: bool, run: nat)
    requires
        s.len() == 96,
        0 <= c <= 96,
        run < 5,
        c < 96 ==> (s[c] != last || run == 0),
    ensures
        stuff_at(s, c) == (s.take(c) + stuffed(s.skip(c), last, run)).take(96),
    decreases 96 - c,
{
    if c == 96 {
        lemma_stuffed_len(s.skip(c), last, run);
        assert((s.take(c) + stuffed(s.skip(c), last, run)).take(96) =~= s);
    } else if c > 90 {
        lemma_from_tail(s, c, last, run);
    } else if window_same(s, c) {
        let v = s[c + 4];
        let s2 = insert_bit(s, c + 5, !v);
        lemma_insert_bit_index(s, c + 5, !v);
        lemma_stuff_at_from(s2, c + 5, v, 4);
        lemma_from_five(s, c, last, run);
    } else {
        lemma_from_run(s, c, last, run);
        let nx = next_run(s, c);
        let k = run_after(s.skip(c).drop_first(), s[c], 1, (nx - c - 1) as nat);
        lemma_stuff_at_from(s, nx, s[nx - 1], k);
    }
}

/// The windowed stuffing of a whole frame gives the first 96 bits of stuffing as
/// the standard states it.
pub proof fn lemma_stuff_at_standard(s: Seq<bool>)
    requires
        s.len() == 96,
    ensures
        stuff_at(s, 0) == stuffed(s, false, 0).take(96),
{
    lemma_stuff_at_from(s, 0, false, 0);
    assert(s.skip(0) =~= s);
    assert(s.take(0) + stuffed(s, false, 0) =~= stuffed(s, false, 0));
}

} // verus!

verus! {

/// Two words with the same bits are equal.
proof fn lemma_word_bits_eq(x: u32, y: u32)
    requires
        forall|j: u32| j < 32 ==> #[trigger] bit_of(x, j) == bit_of(y, j),
    ensures
        x == y,
{
    assert(bit_of(x, 0) == bit_of(y, 0));
    assert(bit_of(x, 1) == bit_of(y, 1));
    assert(bit_of(x, 2) == bit_of(y, 2));
    assert(bit_of(x, 3) == bit_of(y, 3));
    assert(bit_of(x, 4) == bit_of(y, 4));
    assert(bit_of(x, 5) == bit_of(y, 5));
    assert(bit_of(x, 6) == bit_of(y, 6));
    assert(bit_of(x, 7) == bit_of(y, 7));
    assert(bit_of(x, 8) == bit_of(y, 8));
    assert(bit_of(x, 9) == bit_of(y, 9));
    assert(bit_of(x, 10) == bit_of(y, 10));
    assert(bit_of(x, 11) == bit_of(y, 11));
    assert(bit_of(x, 12) == bit_of(y, 12));
    assert(bit_of(x, 13) == bit_of(y, 13));
    assert(bit_of(x, 14) == bit_of(y, 14));
    assert(bit_of(x, 15) == bit_of(y, 15));
    assert(bit_of(x, 16) == bit_of(y, 16));
    assert(bit_of(x, 17) == bit_of(y, 17));
    assert(bit_of(x, 18) == bit_of(y, 18));
    assert(bit_of(x, 19) == bit_of(y, 19));
    assert(bit_of(x, 20) == bit_of(y, 20));
    assert(bit_of(x, 21) == bit_of(y, 21));
    assert(bit_of(x, 22) == bit_of(y, 22));
    assert(bit_of(x, 23) == bit_of(y, 23));
    assert(bit_of(x, 24) == bit_of(y, 24));
    assert(bit_of(x, 25) == bit_of(y, 25));
    assert(bit_of(x, 26) == bit_of(y, 26));
    assert(bit_of(x, 27) == bit_of(y, 27));
    assert(bit_of(x, 28) == bit_of(y, 28));
    assert(bit_of(x, 29) == bit_of(y, 29));
    assert(bit_of(x, 30) == bit_of(y, 30));
    assert(bit_of(x, 31) == bit_of(y, 31));
    assert(x == y) by (bit_vector)
        requires
            bit_of(x, 0) == bit_of(y, 0),
            bit_of(x, 1) == bit_of(y, 1),
            bit_of(x, 2) == bit_of(y, 2),
            bit_of(x, 3) == bit_of(y, 3),
            bit_of(x, 4) == bit_of(y, 4),
            bit_of(x, 5) == bit_of(y, 5),
            bit_of(x, 6) == bit_of(y, 6),
            bit_of(x, 7) == bit_of(y, 7),
            bit_of(x, 8) == bit_of(y, 8),
            bit_of(x, 9) == bit_of(y, 9),
            bit_of(x, 10) == bit_of(y, 10),
            bit_of(x, 11) == bit_of(y, 11),
            bit_of(x, 12) == bit_of(y, 12),
            bit_of(x, 13) == bit_of(y, 13),
            bit_of(x, 14) == bit_of(y, 14),
            bit_of(x, 15) == bit_of(y, 15),
            bit_of(x, 16) == bit_of(y, 16),
            bit_of(x, 17) == bit_of(y, 17),
            bit_of(x, 18) == bit_of(y, 18),
            bit_of(x, 19) == bit_of(y, 19),
            bit_of(x, 20) == bit_of(y, 20),
            bit_of(x, 21) == bit_of(y, 21),
            bit_of(x, 22) == bit_of(y, 22),
            bit_of(x, 23) == bit_of(y, 23),
            bit_of(x, 24) == bit_of(y, 24),
            bit_of(x, 25) == bit_of(y, 25),
            bit_of(x, 26) == bit_of(y, 26),
            bit_of(x, 27) == bit_of(y, 27),
            bit_of(x, 28) == bit_of(y, 28),
            bit_of(x, 29) == bit_of(y, 29),
            bit_of(x, 30) == bit_of(y, 30),
            bit_of(x, 31) == bit_of(y, 31);
}

/// Three words are fixed by their stream.
pub proof fn lemma_stream_injective(a: Seq<u32>, b: Seq<u32>)
    requires
        a.len() == 3,
        b.len() == 3,
        stream(a) == stream(b),
    ensures
        a == b,
{
    assert forall|k: int| 0 <= k < 3 implies a[k] == b[k] by {
        assert forall|j: u32| j < 32 implies #[trigger] bit_of(a[k], j) == bit_of(b[k], j) by {
            let p = 32 * k + 31 - j;
            assert(p / 32 == k && p % 32 == 31 - j);
            assert(stream(a)[p] == stream(b)[p]);
            assert(stream(a)[p] == msb(a[k], 31 - j));
            assert(stream(b)[p] == msb(b[k], 31 - j));
            assert(((31 - (31 - j)) as u32) == j);
        }
        lemma_word_bits_eq(a[k], b[k]);
    }
    assert(a =~= b);
}

/// The three words whose stream is `s`.
pub open spec fn words_of(s: Seq<bool>) -> Seq<u32> {
    choose|w: Seq<u32>| w.len() == 3 && stream(w) == s
}

/// `words_of` gives back the words of a stream.
pub proof fn lemma_words_of(w: Seq<u32>)
    requires
        w.len() == 3,
    ensures
        words_of(stream(w)) == w,
{
    let c = words_of(stream(w));
    assert(w.len() == 3 && stream(w) == stream(w));
    lemma_stream_injective(c, w);
}

} // verus!

verus! {

/// The six bits of `s` from `i` on are all equal.
pub open spec fn six_equal(s: Seq<bool>, i: int) -> bool {
    &&& s[i] == s[i + 1]
    &&& s[i + 1] == s[i + 2]
    &&& s[i + 2] == s[i + 3]
    &&& s[i + 3] == s[i + 4]
    &&& s[i + 4] == s[i + 5]
}

/// Nowhere in `s` are six bits in a row equal.
pub open spec fn no_six_run(s: Seq<bool>) -> bool {
    forall|i: int| 0 <= i && i + 5 < s.len() ==> !#[trigger] six_equal(s, i)
}

/// `n` copies of `b`.
pub open spec fn repeat(b: bool, n: nat) -> Seq<bool> {
    Seq::new(n, |i: int| b)
}

/// A short run before a change of bit adds no run of six.
proof fn lemma_no_six_after(prefix: Seq<bool>, rest: Seq<bool>)
    requires
        prefix.len() <= 5,
        prefix.len() > 0,
        rest.len() > 0,
        prefix[prefix.len() - 1] != rest[0],
        no_six_run(rest),
    ensures
        no_six_run(prefix + rest),
{
    let s = prefix + rest;
    let p = prefix.len() as int;
    assert forall|i: int| 0 <= i && i + 5 < s.len() implies !#[trigger] six_equal(s, i) by {
        if i < p {
            assert(s[p - 1] != s[p]);
            assert(i <= p - 1 && p <= i + 5);
        } else {
            assert(six_equal(s, i) == six_equal(rest, i - p));
        }
    }
}

/// No run of six in what goes out, counting the `run` bits that went before.
proof fn lemma_stuffed_no_six_run_from(s: Seq<bool>, last: bool, run: nat)
    requires
        run <= 5,
    ensures
        no_six_run(repeat(last, run) + stuffed(s, last, run)),
    decreases s.len(), (if run >= 5 { 1int } else { 0int }),
{
    let out = repeat(last, run) + stuffed(s, last, run);
    if run >= 5 {
        lemma_stuffed_no_six_run_from(s, !last, 1);
        let rest = repeat(!last, 1) + stuffed(s, !last, 1);
        assert(out =~= repeat(last, run) + rest);
        lemma_no_six_after(repeat(last, run), rest);
    } else if s.len() == 0 {
        assert(out.len() < 6);
    } else {
        let b = s[0];
        let nr: nat = if b == last { run + 1 } else { 1 };
        lemma_stuffed_no_six_run_from(s.drop_first(), b, nr);
        let rest = repeat(b, nr) + stuffed(s.drop_first(), b, nr);
        if b == last {
            assert(out =~= rest);
        } else if run == 0 {
            assert(out =~= rest);
        } else {
            assert(out =~= repeat(last, run) + rest);
            lemma_no_six_after(repeat(last, run), rest);
        }
    }
}

/// Stuffing leaves no six equal bits in a row, and so neither does any prefix of
/// what it sends, such as the 96 bits of a frame.
pub proof fn lemma_stuffed_no_six_run(s: Seq<bool>, n: int)
    requires
        0 <= n <= s.len(),
    ensures
        no_six_run(stuffed(s, false, 0)),
        no_six_run(stuffed(s, false, 0).take(n)),
{
    lemma_stuffed_no_six_run_from(s, false, 0);
    lemma_stuffed_len(s, false, 0);
    assert(repeat(false, 0) + stuffed(s, false, 0) =~= stuffed(s, false, 0));
    let t = stuffed(s, false, 0).take(n);
    assert forall|i: int| 0 <= i && i + 5 < t.len() implies !#[trigger] six_equal(t, i) by {
        assert(six_equal(t, i) == six_equal(stuffed(s, false, 0), i));
    }
}

} // verus!

verus! {

/// Removing the stuffed bits, as a receiver does: the bits of `t` are read in
/// order, and after five equal bits in a row the next bit is dropped; it still
/// counts as the first bit of the next run. `last` is the bit read before and
/// `run` how many equal bits in a row ended with it.
pub open spec fn destuffed(t: Seq<bool>, last: bool, run: nat) -> Seq<bool>
    decreases t.len(),
{
    if t.len() == 0 {
        seq![]
    } else if run >= 5 {
        destuffed(t.drop_first(), t[0], 1)
    } else {
        seq![t[0]] + destuffed(t.drop_first(), t[0], if t[0] == last { run + 1 } else { 1 })
    }
}

/// Destuffing undoes stuffing.
proof fn lemma_destuff_stuffed(s: Seq<bool>, last: bool, run: nat)
    requires
        run <= 5,
    ensures
        destuffed(stuffed(s, last, run), last, run) == s,
    decreases s.len(), (if run >= 5 { 1int } else { 0int }),
{
    let t = stuffed(s, last, run);
    if run >= 5 {
        lemma_destuff_stuffed(s, !last, 1);
        assert(t.drop_first() =~= stuffed(s, !last, 1));
    } else if s.len() > 0 {
        let nr: nat = if s[0] == last { run + 1 } else { 1 };
        lemma_destuff_stuffed(s.drop_first(), s[0], nr);
        assert(t.drop_first() =~= stuffed(s.drop_first(), s[0], nr));
        assert(destuffed(t, last, run) =~= s);
    }
}

/// Destuffing the first `n` bits gives a prefix of destuffing them all.
proof fn lemma_destuff_prefix(t: Seq<bool>, n: int, last: bool, run: nat)
    requires
        0 <= n <= t.len(),
    ensures
        destuffed(t.take(n), last, run).len() <= destuffed(t, last, run).len(),
        destuffed(t.take(n), last, run) == destuffed(t, last, run).take(
            destuffed(t.take(n), last, run).len() as int,
        ),
    decreases t.len(),
{
    let a = destuffed(t.take(n), last, run);
    let b = destuffed(t, last, run);
    if n == 0 {
        assert(t.take(0) =~= Seq::<bool>::empty());
        assert(a =~= b.take(0));
    } else {
        let nr: nat = if run >= 5 { 1 } else if t[0] == last { run + 1 } else { 1 };
        assert(t.take(n).drop_first() =~= t.drop_first().take(n - 1));
        lemma_destuff_prefix(t.drop_first(), n - 1, t[0], nr);
        let a1 = destuffed(t.drop_first().take(n - 1), t[0], nr);
        let b1 = destuffed(t.drop_first(), t[0], nr);
        if run >= 5 {
            assert(a == a1);
            assert(b == b1);
        } else {
            assert(a == seq![t[0]] + a1);
            assert(b == seq![t[0]] + b1);
            assert(a =~= b.take(a.len() as int));
        }
    }
}

/// Dropping the stuffed bits of a frame after stuffing gives back the start of
/// the frame as it was before: all of it but the bits that stuffing pushed past
/// the end.
pub proof fn lemma_destuff_frame(s: Seq<bool>)
    requires
        s.len() == 96,
    ensures
        ({
            let d = destuffed(stuffed(s, false, 0).take(96), false, 0);
            d.len() <= 96 && d == s.take(d.len() as int)
        }),
{
    lemma_stuffed_len(s, false, 0);
    lemma_destuff_stuffed(s, false, 0);
    lemma_destuff_prefix(stuffed(s, false, 0), 96, false, 0);
}

} // verus!
