use crate::canframe::CANFrame;
use crate::layout::lemma_new_word;
use vstd::prelude::*;

verus! {

/// A bus that holds the frame that won it, if any.
pub struct Bus {
    content: Option<CANFrame>,
}

impl View for Bus {
    type V = Option<CANFrame>;

    closed spec fn view(&self) -> Option<CANFrame> {
        self.content
    }
}

/// What the bus holds after `input` is sent to a bus holding `current`: the frame
/// it holds stays when its key is lower than that of `input`; otherwise `input`
/// takes its place.
pub open spec fn arbitrate(current: Option<CANFrame>, input: CANFrame) -> Option<CANFrame> {
    match current {
        Some(c) => if c.key() < input.key() {
            Some(c)
        } else {
            Some(input)
        },
        None => Some(input),
    }
}

impl Bus {
    /// An empty bus.
    pub fn new() -> (bus: Bus)
        ensures
            bus@ is None,
    {
        Bus { content: None }
    }

    /// Sends `input`: it wins the bus unless the frame there has a lower key.
    pub fn send(&mut self, input: CANFrame)
        ensures
            final(self)@ == arbitrate(old(self)@, input),
    {
        if self.content.is_some() && (self.recieve().unwrap() < &input) {
            return;
        } else {
            self.content = Some(input);
        }
    }

    /// The frame on the bus, if any.
    pub fn recieve(&self) -> (r: Option<&CANFrame>)
        ensures
            match self@ {
                Some(c) => r matches Some(x) && *x == c,
                None => r is None,
            },
    {
        self.content.as_ref()
    }
}

} // verus!

verus! {

/// The bus ends up holding one of the frames it held or was sent, the one with
/// the lowest key; on a tie, the frame sent last.
pub proof fn lemma_arbitrate_lowest(current: Option<CANFrame>, input: CANFrame)
    ensures
        arbitrate(current, input) == current || arbitrate(current, input) == Some(input),
        arbitrate(current, input)->0.key() <= input.key(),
        current matches Some(c) ==> arbitrate(current, input)->0.key() <= c.key(),
        current matches Some(c) ==> (c.key() == input.key() ==> arbitrate(current, input) == Some(input)),
{
}

} // verus!

verus! {

/// What the bus holds after the frames `fs` are sent, in order, to a bus
/// holding `current`.
pub open spec fn send_all(current: Option<CANFrame>, fs: Seq<CANFrame>) -> Option<CANFrame>
    decreases fs.len(),
{
    if fs.len() == 0 {
        current
    } else {
        arbitrate(send_all(current, fs.drop_last()), fs.last())
    }
}

/// Sending frames one after the other to an empty bus: the bus holds a frame
/// exactly when at least one was sent, and then it holds the frame with the
/// lowest key, the last sent of those that share it. Each send keeps or lowers
/// the key of the frame held.
pub proof fn lemma_send_all(fs: Seq<CANFrame>)
    ensures
        send_all(None, fs) is Some <==> fs.len() > 0,
        fs.len() > 0 ==> exists|k: int|
            0 <= k < fs.len() && send_all(None, fs) == Some(#[trigger] fs[k]) && (forall|j: int|
                0 <= j < fs.len() ==> fs[k].key() <= #[trigger] fs[j].key()) && (forall|j: int|
                k < j < fs.len() ==> fs[k].key() < #[trigger] fs[j].key()),
        fs.len() > 1 ==> send_all(None, fs)->0.key() <= send_all(None, fs.drop_last())->0.key(),
    decreases fs.len(),
{
    if fs.len() > 0 {
        let init = fs.drop_last();
        let f = fs.last();
        lemma_send_all(init);
        if init.len() == 0 {
            assert(send_all(None, fs) == Some(fs[0]));
            assert(0 <= 0 < fs.len() && send_all(None, fs) == Some(fs[0]) && (forall|j: int|
                0 <= j < fs.len() ==> fs[0].key() <= #[trigger] fs[j].key()) && (forall|j: int|
                0 < j < fs.len() ==> fs[0].key() < #[trigger] fs[j].key()));
        } else {
            let k0 = choose|k: int|
                0 <= k < init.len() && send_all(None, init) == Some(#[trigger] init[k]) && (forall|j: int|
                    0 <= j < init.len() ==> init[k].key() <= #[trigger] init[j].key()) && (forall|j: int|
                    k < j < init.len() ==> init[k].key() < #[trigger] init[j].key());
            let held = init[k0];
            if held.key() < f.key() {
                assert(send_all(None, fs) == Some(fs[k0]));
                assert forall|j: int| 0 <= j < fs.len() implies fs[k0].key() <= #[trigger] fs[j].key() by {
                    if j < init.len() {
                        assert(init[j] == fs[j]);
                    }
                }
                assert forall|j: int| k0 < j < fs.len() implies fs[k0].key() < #[trigger] fs[j].key() by {
                    if j < init.len() {
                        assert(init[j] == fs[j]);
                    }
                }
            } else {
                let n = fs.len() - 1;
                assert(send_all(None, fs) == Some(fs[n]));
                assert forall|j: int| 0 <= j < fs.len() implies fs[n].key() <= #[trigger] fs[j].key() by {
                    if j < init.len() {
                        assert(init[j] == fs[j]);
                        assert(held.key() <= init[j].key());
                    }
                }
                assert forall|j: int| n < j < fs.len() implies fs[n].key() < #[trigger] fs[j].key() by {
                }
            }
        }
    }
}

} // verus!

verus! {

/// Of two new frames whose identifiers are at most 0xFF, the one with the lower
/// identifier keeps the bus, whichever of the two is sent first.
pub proof fn lemma_lower_identifier_wins(a: CANFrame, b: CANFrame, ida: u32, idb: u32)
    requires
        ida < idb <= 0xFF,
        a.words() == seq![0x8000_0000u32 | (ida << 20u32), 0u32, 0u32],
        b.words() == seq![0x8000_0000u32 | (idb << 20u32), 0u32, 0u32],
    ensures
        a.key() == ida,
        b.key() == idb,
        arbitrate(Some(a), b) == Some(a),
        arbitrate(Some(b), a) == Some(a),
{
    lemma_new_word(ida);
    lemma_new_word(idb);
    assert(ida & 0x4FFu32 == ida && idb & 0x4FFu32 == idb) by (bit_vector)
        requires
            ida < idb <= 0xFF;
}

} // verus!
