pub mod bits;
pub mod bus;
pub mod canframe;
pub mod ecu;
pub mod encoder;
pub mod layout;
pub mod order;
pub mod stream;

use vstd::prelude::*;

verus! {

/// A bus that carries raw bytes in a buffer: what is sent is written over the
/// buffer from its start, and the buffer grows when the input is longer.
pub struct Bus {
    content: Vec<u8>,
}

impl View for Bus {
    type V = Seq<u8>;

    closed spec fn view(&self) -> Seq<u8> {
        self.content@
    }
}

/// `buf` with `input` written over it from the start.
pub open spec fn overwrite(buf: Seq<u8>, input: Seq<u8>) -> Seq<u8> {
    if input.len() >= buf.len() {
        input
    } else {
        input + buf.skip(input.len() as int)
    }
}

/// What was sent last is what the buffer starts with, and the buffer is never
/// shorter than before.
pub proof fn lemma_overwrite_read_back(buf: Seq<u8>, input: Seq<u8>)
    ensures
        overwrite(buf, input).take(input.len() as int) == input,
        overwrite(buf, input).len() == vstd::math::max(buf.len() as int, input.len() as int),
{
    assert(overwrite(buf, input).take(input.len() as int) =~= input);
}

impl Bus {
    /// A bus whose buffer holds ten zero bytes.
    pub fn new() -> (bus: Bus)
        ensures
            bus@ == Seq::new(10, |i: int| 0u8),
    {
        let bus = Bus { content: vec![0u8; 10] };
        assert(bus@ =~= Seq::new(10, |i: int| 0u8));
        bus
    }

    /// Writes `input` over the buffer from its start.
    #[allow(dead_code)]
    fn send(&mut self, input: &[u8])
        ensures
            final(self)@ == overwrite(old(self)@, input@),
    {
        let ghost old_buf = self.content@;
        let mut i: usize = 0;
        while i < input.len()
            invariant
                i <= input.len(),
                self.content@.len() == if i <= old_buf.len() { old_buf.len() } else { i as nat },
                forall|j: int| 0 <= j < i ==> #[trigger] self.content@[j] == input@[j],
                forall|j: int| i <= j < old_buf.len() ==> #[trigger] self.content@[j] == old_buf[j],
            decreases input.len() - i,
        {
            if i < self.content.len() {
                self.content.set(i, input[i]);
            } else {
                self.content.push(input[i]);
            }
            i += 1;
        }
        assert(self.content@ =~= overwrite(old_buf, input@));
    }

    /// The whole buffer.
    #[allow(dead_code)]
    fn receive(&self) -> (r: &[u8])
        ensures
            r@ == self@,
    {
        self.content.as_slice()
    }
}

} // verus!
