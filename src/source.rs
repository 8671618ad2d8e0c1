//! Record sources: the records of a byte region, one line each.
use vstd::prelude::*;
use vstd::slice::slice_subrange;

verus! {

/// The byte that ends a record, a newline. It belongs to the record it ends.
pub const TERMINATOR: u8 = 0x0a;

/// Length of the first record of `b`: up to and including the first
/// terminator, or all of `b` when it holds none.
pub open spec fn line_len(b: Seq<u8>) -> nat
    decreases b.len(),
{
    if b.len() == 0 {
        0
    } else if b[0] == TERMINATOR {
        1
    } else {
        1 + line_len(b.drop_first())
    }
}

/// The records of the byte region `b`, in order, each with its terminator;
/// a last record without one runs to the end of `b`.
pub open spec fn split_records(b: Seq<u8>) -> Seq<Seq<u8>>
    decreases b.len(),
    via split_records_decreases
{
    if b.len() == 0 {
        Seq::empty()
    } else {
        seq![b.subrange(0, line_len(b) as int)] + split_records(
            b.subrange(line_len(b) as int, b.len() as int),
        )
    }
}

#[via_fn]
proof fn split_records_decreases(b: Seq<u8>) {
    lemma_line_len_bounds(b);
}

pub proof fn lemma_line_len_bounds(b: Seq<u8>)
    ensures
        b.len() > 0 ==> 0 < line_len(b),
        line_len(b) <= b.len(),
        forall|j: int| 0 <= j < line_len(b) - 1 ==> b[j] != TERMINATOR,
        0 < line_len(b) < b.len() ==> b[line_len(b) - 1] == TERMINATOR,
    decreases b.len(),
{
    if b.len() > 0 && b[0] != TERMINATOR {
        let t = b.drop_first();
        lemma_line_len_bounds(t);
        assert forall|j: int| 0 <= j < line_len(b) - 1 implies b[j] != TERMINATOR by {
            if j > 0 {
                assert(b[j] == t[j - 1]);
            }
        }
        if 0 < line_len(b) < b.len() {
            assert(b[line_len(b) - 1] == t[line_len(t) - 1]);
        }
    }
}

/// A record cut from the front of a region is split back into itself.
proof fn lemma_split_first_record(b: Seq<u8>)
    requires
        b.len() > 0,
    ensures
        split_records(b.subrange(0, line_len(b) as int)) == seq![b.subrange(0, line_len(b) as int)],
{
    lemma_line_len_bounds(b);
    let l = line_len(b) as int;
    let h = b.subrange(0, l);
    if b[l - 1] == TERMINATOR {
        lemma_line_len_is(h, l - 1);
    } else {
        lemma_line_len_is(h, l);
    }
    assert(h.subrange(0, l) =~= h);
    assert(h.subrange(l, l) =~= Seq::<u8>::empty());
    assert(split_records(h.subrange(l, l)) =~= Seq::<Seq<u8>>::empty());
    assert(split_records(h) =~= seq![h]);
}

/// A terminated prefix's first record ends where it would alone.
proof fn lemma_line_len_prefix(d: Seq<u8>, x: Seq<u8>)
    requires
        d.len() > 0,
        d.last() == TERMINATOR,
    ensures
        line_len(d + x) == line_len(d),
    decreases d.len(),
{
    if d[0] != TERMINATOR {
        assert((d + x).drop_first() =~= d.drop_first() + x);
        lemma_line_len_prefix(d.drop_first(), x);
    }
}

/// Records never span the end of a region that ends with a terminator.
pub proof fn lemma_split_append(d: Seq<u8>, x: Seq<u8>)
    requires
        d.len() == 0 || d.last() == TERMINATOR,
    ensures
        split_records(d + x) == split_records(d) + split_records(x),
    decreases d.len(),
{
    if d.len() == 0 {
        assert(d + x =~= x);
        assert(split_records(d) =~= Seq::<Seq<u8>>::empty());
        assert(split_records(d) + split_records(x) =~= split_records(x));
    } else {
        lemma_line_len_prefix(d, x);
        lemma_line_len_bounds(d);
        let l = line_len(d) as int;
        let r = d.subrange(l, d.len() as int);
        assert((d + x).subrange(0, l) =~= d.subrange(0, l));
        assert((d + x).subrange(l, (d + x).len() as int) =~= r + x);
        if r.len() > 0 {
            assert(r.last() == d.last());
        }
        lemma_split_append(r, x);
        assert(split_records(d + x) =~= split_records(d) + split_records(x));
    }
}

proof fn lemma_line_len_is(b: Seq<u8>, i: int)
    requires
        0 <= i <= b.len(),
        forall|j: int| 0 <= j < i ==> b[j] != TERMINATOR,
        i < b.len() ==> b[i] == TERMINATOR,
    ensures
        line_len(b) == if i < b.len() { i + 1 } else { i },
    decreases b.len(),
{
    if b.len() > 0 && b[0] != TERMINATOR {
        let t = b.drop_first();
        assert forall|j: int| 0 <= j < i - 1 implies t[j] != TERMINATOR by {
            assert(t[j] == b[j + 1]);
        }
        lemma_line_len_is(t, i - 1);
    }
}

/// End (exclusive) of the record that starts at `start` in `data`.
fn record_end(data: &[u8], start: usize) -> (e: usize)
    requires
        start <= data@.len(),
    ensures
        e == start + line_len(data@.subrange(start as int, data@.len() as int)),
        e <= data@.len(),
{
    let ghost b = data@.subrange(start as int, data@.len() as int);
    let mut i: usize = start;
    while i < data.len() && data[i] != TERMINATOR
        invariant
            start <= i <= data@.len(),
            b == data@.subrange(start as int, data@.len() as int),
            forall|j: int| 0 <= j < i - start ==> b[j] != TERMINATOR,
        decreases data@.len() - i,
    {
        i = i + 1;
    }
    proof {
        lemma_line_len_is(b, i - start);
    }
    if i < data.len() {
        i + 1
    } else {
        i
    }
}

/// Scans records out of a byte region in place, handing out slices of the
/// region itself rather than copies.
///
/// The region is borrowed for the scanner's whole life. When it is a memory
/// mapping of a file, the caller must keep the file from being modified until
/// the scan ends: nothing here detects such a change.
pub struct MappedScan<'a> {
    region: &'a [u8],
    pos: usize,
    end: usize,
}

impl<'a> MappedScan<'a> {
    /// The records not yet consumed.
    pub closed spec fn records(&self) -> Seq<Seq<u8>> {
        split_records(self.region@.subrange(self.pos as int, self.region@.len() as int))
    }

    pub closed spec fn wf(&self) -> bool {
        &&& self.pos <= self.end <= self.region@.len()
        &&& self.end == self.pos + line_len(
            self.region@.subrange(self.pos as int, self.region@.len() as int),
        )
    }

    /// A scanner positioned at the first record of `region`.
    pub fn new(region: &'a [u8]) -> (s: Self)
        ensures
            s.wf(),
            s.records() == split_records(region@),
    {
        let end = record_end(region, 0);
        assert(region@.subrange(0, region@.len() as int) =~= region@);
        MappedScan { region, pos: 0, end }
    }

    /// The next record, or `None` once the region is used up. Two calls
    /// without an `advance` between them return the same record.
    pub fn peek(&self) -> (r: Option<&'a [u8]>)
        requires
            self.wf(),
        ensures
            match r {
                Some(x) => self.records().len() > 0 && x@ == self.records()[0],
                None => self.records().len() == 0,
            },
    {
        let ghost b = self.region@.subrange(self.pos as int, self.region@.len() as int);
        if self.pos == self.region.len() {
            None
        } else {
            assert(b.subrange(0, line_len(b) as int) =~= self.region@.subrange(
                self.pos as int,
                self.end as int,
            ));
            Some(slice_subrange(self.region, self.pos, self.end))
        }
    }

    /// Consumes the next record, if there is one.
    pub fn advance(&mut self)
        requires
            old(self).wf(),
        ensures
            final(self).wf(),
            final(self).records() == if old(self).records().len() == 0 {
                old(self).records()
            } else {
                old(self).records().drop_first()
            },
    {
        let ghost b = self.region@.subrange(self.pos as int, self.region@.len() as int);
        if self.pos < self.region.len() {
            proof {
                lemma_line_len_bounds(b);
                assert(b.subrange(line_len(b) as int, b.len() as int) =~= self.region@.subrange(
                    self.end as int,
                    self.region@.len() as int,
                ));
            }
            self.pos = self.end;
            self.end = record_end(self.region, self.pos);
        }
    }
}

/// Whether `b` starts with a whole record: one that ends with a terminator.
pub open spec fn has_whole_record(b: Seq<u8>) -> bool {
    0 < line_len(b) && b[line_len(b) - 1] == TERMINATOR
}

/// Reads records out of a byte stream handed over in chunks of any size, as
/// they arrive from a sequential reader. Only the bytes not yet consumed are
/// kept, so memory grows with the longest record rather than with the stream.
pub struct BufferedSource {
    pending: Vec<u8>,
    head_end: usize,
    finished: bool,
    fed: Ghost<Seq<u8>>,
    delivered: Ghost<Seq<Seq<u8>>>,
}

impl BufferedSource {
    /// Every byte handed to `feed` so far, in order.
    pub closed spec fn fed(&self) -> Seq<u8> {
        self.fed@
    }

    /// The records consumed by `advance` so far, in order.
    pub closed spec fn delivered(&self) -> Seq<Seq<u8>> {
        self.delivered@
    }

    /// Whether the end of the stream has been announced.
    pub closed spec fn is_finished(&self) -> bool {
        self.finished
    }

    /// The records of the bytes held and not yet consumed; once the stream is
    /// finished, exactly the records still to come.
    pub closed spec fn remaining(&self) -> Seq<Seq<u8>> {
        split_records(self.pending@)
    }

    /// Whether a record can be handed out now.
    pub closed spec fn head_ready(&self) -> bool {
        has_whole_record(self.pending@) || (self.finished && self.pending@.len() > 0)
    }

    pub closed spec fn wf(&self) -> bool {
        &&& self.fed@ == self.delivered@.flatten() + self.pending@
        &&& split_records(self.delivered@.flatten()) == self.delivered@
        &&& (self.delivered@.flatten().len() == 0 || self.delivered@.flatten().last() == TERMINATOR
            || (self.finished && self.pending@.len() == 0))
        &&& self.head_end == if self.head_ready() {
            line_len(self.pending@)
        } else {
            0
        }
    }

    /// A source that has been fed nothing.
    pub fn new() -> (s: Self)
        ensures
            s.wf(),
            s.fed() == Seq::<u8>::empty(),
            s.delivered() == Seq::<Seq<u8>>::empty(),
            !s.is_finished(),
    {
        let s = BufferedSource {
            pending: Vec::new(),
            head_end: 0,
            finished: false,
            fed: Ghost(Seq::empty()),
            delivered: Ghost(Seq::empty()),
        };
        assert(s.delivered@.flatten() =~= Seq::<u8>::empty());
        assert(s.fed@ =~= s.delivered@.flatten() + s.pending@);
        s
    }

    fn refresh_head(&mut self)
        ensures
            final(self).head_end == if final(self).head_ready() {
                line_len(final(self).pending@)
            } else {
                0
            },
            final(self).pending == old(self).pending,
            final(self).finished == old(self).finished,
            final(self).fed == old(self).fed,
            final(self).delivered == old(self).delivered,
    {
        let e = record_end(self.pending.as_slice(), 0);
        assert(self.pending@.subrange(0, self.pending@.len() as int) =~= self.pending@);
        if e > 0 && (self.pending[e - 1] == TERMINATOR || self.finished) {
            self.head_end = e;
        } else {
            proof {
                lemma_line_len_bounds(self.pending@);
            }
            self.head_end = 0;
        }
    }

    /// Appends the next chunk of the stream.
    pub fn feed(&mut self, chunk: &[u8])
        requires
            old(self).wf(),
            !old(self).is_finished(),
        ensures
            final(self).wf(),
            final(self).fed() == old(self).fed() + chunk@,
            final(self).delivered() == old(self).delivered(),
            !final(self).is_finished(),
    {
        let mut i: usize = 0;
        let ghost start = self.pending@;
        while i < chunk.len()
            invariant
                i <= chunk@.len(),
                self.pending@ == start + chunk@.subrange(0, i as int),
                self.finished == old(self).finished,
                self.fed == old(self).fed,
                self.delivered == old(self).delivered,
            decreases chunk@.len() - i,
        {
            self.pending.push(chunk[i]);
            assert(chunk@.subrange(0, i + 1) =~= chunk@.subrange(0, i as int).push(chunk@[i as int]));
            i = i + 1;
        }
        assert(chunk@.subrange(0, chunk@.len() as int) =~= chunk@);
        self.fed = Ghost(self.fed@ + chunk@);
        assert(self.fed@ =~= self.delivered@.flatten() + self.pending@);
        self.refresh_head();
    }

    /// Announces the end of the stream.
    pub fn finish(&mut self)
        requires
            old(self).wf(),
        ensures
            final(self).wf(),
            final(self).fed() == old(self).fed(),
            final(self).delivered() == old(self).delivered(),
            final(self).is_finished(),
    {
        self.finished = true;
        self.refresh_head();
    }

    /// Whether the source must be fed (or finished) before it can tell its
    /// next record.
    pub fn needs_input(&self) -> (r: bool)
        requires
            self.wf(),
        ensures
            r == (!self.head_ready() && !self.is_finished()),
    {
        self.head_end == 0 && !self.finished
    }

    /// The next record, or `None` when none is at hand: more input is needed,
    /// or, once finished, the stream is used up.
    pub fn peek(&self) -> (r: Option<&[u8]>)
        requires
            self.wf(),
        ensures
            match r {
                Some(x) => self.head_ready() && self.remaining().len() > 0 && x@
                    == self.remaining()[0],
                None => !self.head_ready() && (self.is_finished() ==> self.remaining().len()
                    == 0),
            },
    {
        proof {
            lemma_line_len_bounds(self.pending@);
        }
        if self.head_end > 0 {
            Some(slice_subrange(self.pending.as_slice(), 0, self.head_end))
        } else {
            None
        }
    }

    /// Consumes the record that `peek` returns.
    pub fn advance(&mut self)
        requires
            old(self).wf(),
            old(self).head_ready(),
        ensures
            final(self).wf(),
            final(self).fed() == old(self).fed(),
            final(self).delivered() == old(self).delivered().push(old(self).remaining()[0]),
            final(self).remaining() == old(self).remaining().drop_first(),
            final(self).is_finished() == old(self).is_finished(),
    {
        let ghost p = self.pending@;
        let ghost d = self.delivered@.flatten();
        let ghost dl = self.delivered@;
        let ghost l = line_len(p) as int;
        let ghost head = p.subrange(0, l);
        proof {
            lemma_line_len_bounds(p);
            lemma_split_first_record(p);
            lemma_split_append(d, head);
            self.delivered@.lemma_flatten_push(head);
            assert(p =~= head + p.subrange(l, p.len() as int));
        }
        let mut rest: Vec<u8> = Vec::new();
        let mut i: usize = self.head_end;
        while i < self.pending.len()
            invariant
                self.head_end <= i <= self.pending@.len(),
                self.head_end == l,
                self.pending@ == p,
                rest@ == p.subrange(l, i as int),
            decreases self.pending@.len() - i,
        {
            rest.push(self.pending[i]);
            assert(p.subrange(l, i + 1) =~= p.subrange(l, i as int).push(p[i as int]));
            i = i + 1;
        }
        self.pending = rest;
        self.delivered = Ghost(self.delivered@.push(head));
        assert(self.fed@ =~= self.delivered@.flatten() + self.pending@);
        proof {
            assert(self.delivered@.flatten() == d + head);
            assert(split_records(d + head) == split_records(d) + split_records(head));
            assert(dl + seq![head] =~= dl.push(head));
            assert(split_records(d + head) == self.delivered@);
            assert((d + head).last() == head.last());
            if !has_whole_record(p) {
                assert(l == p.len());
                assert(self.pending@.len() == 0);
            }
        }
        self.refresh_head();
    }
}

/// A finished buffered source has delivered, or still holds, exactly the
/// records that a scan of the region made of every byte it was fed yields:
/// both sources give the engine the same records, so the outputs of a run do
/// not depend on the strategy.
pub proof fn lemma_strategies_agree(b: BufferedSource)
    requires
        b.wf(),
        b.is_finished(),
    ensures
        b.delivered() + b.remaining() == split_records(b.fed()),
{
    let d = b.delivered().flatten();
    if d.len() == 0 || d.last() == TERMINATOR {
        lemma_split_append(d, b.pending@);
    } else {
        assert(b.pending@ =~= Seq::<u8>::empty());
        assert(d + b.pending@ =~= d);
        assert(b.remaining() =~= Seq::<Seq<u8>>::empty());
        assert(b.delivered() + b.remaining() =~= b.delivered());
    }
}

} // verus!
