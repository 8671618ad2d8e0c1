//! Output sinks: append-only byte buffers, one per output.
use vstd::prelude::*;

verus! {

/// Bytes written to one output and not yet handed on to its destination.
pub struct OutputSink {
    buf: Vec<u8>,
}

impl View for OutputSink {
    type V = Seq<u8>;

    closed spec fn view(&self) -> Seq<u8> {
        self.buf@
    }
}

impl OutputSink {
    /// An empty sink.
    pub fn new() -> (s: Self)
        ensures
            s@ == Seq::<u8>::empty(),
    {
        OutputSink { buf: Vec::new() }
    }

    /// Appends `record` verbatim.
    pub fn write(&mut self, record: &[u8])
        ensures
            final(self)@ == old(self)@ + record@,
    {
        let mut i: usize = 0;
        while i < record.len()
            invariant
                i <= record@.len(),
                self@ == old(self)@ + record@.subrange(0, i as int),
            decreases record@.len() - i,
        {
            self.buf.push(record[i]);
            assert(record@.subrange(0, i + 1) =~= record@.subrange(0, i as int).push(record@[i as int]));
            i = i + 1;
        }
        assert(record@.subrange(0, record@.len() as int) =~= record@);
    }

    /// The bytes written and not yet taken.
    pub fn pending(&self) -> (r: &[u8])
        ensures
            r@ == self@,
    {
        self.buf.as_slice()
    }

    /// Hands out the bytes written so far and empties the sink.
    pub fn take(&mut self) -> (r: Vec<u8>)
        ensures
            r@ == old(self)@,
            final(self)@ == Seq::<u8>::empty(),
    {
        let mut out: Vec<u8> = Vec::new();
        std::mem::swap(&mut out, &mut self.buf);
        out
    }
}

} // verus!
