//! The merge-diff engine: per-step classification and whole-stream runs.
use crate::key::{compare_keys, key_of, lex_cmp, same_bytes};
use crate::sink::OutputSink;
use crate::source::{split_records, MappedScan};
use std::cmp::Ordering;
use vstd::prelude::*;
use vstd::slice::slice_to_vec;

verus! {

/// The routing decision taken for the two head records of a step.
#[derive(PartialEq, Eq, Structural, Clone, Copy, Debug)]
pub enum Step {
    /// The heads are identical: advance both, write nothing.
    Unchanged,
    /// Same key, different content: write the new head to updates, advance both.
    Update,
    /// The new head's key comes first: write it to creates, advance new.
    Create,
    /// The old head's key comes first: write it to deletes, advance old.
    Delete,
}

/// What the engine does when both streams still have a head record.
pub open spec fn classification(new_rec: Seq<u8>, old_rec: Seq<u8>) -> Step {
    if new_rec == old_rec {
        Step::Unchanged
    } else {
        match lex_cmp(key_of(new_rec), key_of(old_rec)) {
            Ordering::Equal => Step::Update,
            Ordering::Less => Step::Create,
            Ordering::Greater => Step::Delete,
        }
    }
}

/// The three outputs of a diff, as record sequences.
pub struct DiffSpec {
    pub creates: Seq<Seq<u8>>,
    pub updates: Seq<Seq<u8>>,
    pub deletes: Seq<Seq<u8>>,
}

/// Merge-join diff of the record streams `n` (new) and `o` (old).
pub open spec fn diff(n: Seq<Seq<u8>>, o: Seq<Seq<u8>>) -> DiffSpec
    decreases n.len() + o.len(),
{
    if n.len() == 0 {
        DiffSpec { creates: Seq::empty(), updates: Seq::empty(), deletes: o }
    } else if o.len() == 0 {
        DiffSpec { creates: n, updates: Seq::empty(), deletes: Seq::empty() }
    } else {
        match classification(n[0], o[0]) {
            Step::Unchanged => diff(n.drop_first(), o.drop_first()),
            Step::Update => {
                let d = diff(n.drop_first(), o.drop_first());
                DiffSpec { updates: seq![n[0]] + d.updates, ..d }
            },
            Step::Create => {
                let d = diff(n.drop_first(), o);
                DiffSpec { creates: seq![n[0]] + d.creates, ..d }
            },
            Step::Delete => {
                let d = diff(n, o.drop_first());
                DiffSpec { deletes: seq![o[0]] + d.deletes, ..d }
            },
        }
    }
}

/// Classifies the two head records of a step.
pub fn classify(new_rec: &[u8], old_rec: &[u8]) -> (r: Step)
    ensures
        r == classification(new_rec@, old_rec@),
{
    if same_bytes(new_rec, old_rec) {
        Step::Unchanged
    } else {
        match compare_keys(new_rec, old_rec) {
            Ordering::Equal => Step::Update,
            Ordering::Less => Step::Create,
            Ordering::Greater => Step::Delete,
        }
    }
}

/// The step to take given the heads of the two streams (`None` once a stream
/// is exhausted); `None` when both are exhausted and the run is done. Once one
/// stream is exhausted, the other is drained without comparing keys.
pub fn next_step(new_head: Option<&[u8]>, old_head: Option<&[u8]>) -> (r: Option<Step>)
    ensures
        match (new_head, old_head) {
            (Some(a), Some(b)) => r == Some(classification(a@, b@)),
            (Some(_), None) => r == Some(Step::Create),
            (None, Some(_)) => r == Some(Step::Delete),
            (None, None) => r is None,
        },
{
    match (new_head, old_head) {
        (Some(a), Some(b)) => Some(classify(a, b)),
        (Some(_), None) => Some(Step::Create),
        (None, Some(_)) => Some(Step::Delete),
        (None, None) => None,
    }
}

/// The three outputs of a run, each a list of records in output order.
pub struct DiffOutput {
    pub creates: Vec<Vec<u8>>,
    pub updates: Vec<Vec<u8>>,
    pub deletes: Vec<Vec<u8>>,
}

impl DiffOutput {
    pub open spec fn spec(&self) -> DiffSpec {
        DiffSpec {
            creates: self.creates.deep_view(),
            updates: self.updates.deep_view(),
            deletes: self.deletes.deep_view(),
        }
    }
}

/// Pushes a copy of `rec` onto `out`.
fn push_record(out: &mut Vec<Vec<u8>>, rec: &[u8])
    ensures
        final(out).deep_view() == old(out).deep_view().push(rec@),
{
    let v = slice_to_vec(rec);
    assert(v.deep_view() =~= rec@);
    out.push(v);
    assert(out.deep_view() =~= old(out).deep_view().push(rec@));
}

/// Runs the merge diff over two in-memory record lists.
pub fn diff_records(new: &Vec<Vec<u8>>, old: &Vec<Vec<u8>>) -> (r: DiffOutput)
    ensures
        r.spec() == diff(new.deep_view(), old.deep_view()),
{
    let ghost n = new.deep_view();
    let ghost o = old.deep_view();
    let mut out = DiffOutput { creates: Vec::new(), updates: Vec::new(), deletes: Vec::new() };
    let mut i: usize = 0;
    let mut j: usize = 0;
    assert(n.subrange(0, n.len() as int) =~= n);
    assert(o.subrange(0, o.len() as int) =~= o);
    assert(out.spec().creates =~= Seq::<Seq<u8>>::empty());
    assert(out.spec().updates =~= Seq::<Seq<u8>>::empty());
    assert(out.spec().deletes =~= Seq::<Seq<u8>>::empty());
    loop
        invariant
            n == new.deep_view(),
            o == old.deep_view(),
            i <= n.len(),
            j <= o.len(),
            ({
                let rest = diff(n.subrange(i as int, n.len() as int), o.subrange(j as int, o.len() as int));
                let total = diff(n, o);
                &&& total.creates == out.spec().creates + rest.creates
                &&& total.updates == out.spec().updates + rest.updates
                &&& total.deletes == out.spec().deletes + rest.deletes
            }),
        ensures
            out.spec() == diff(n, o),
        decreases n.len() + o.len() - i - j,
    {
        let new_head: Option<&[u8]> = if i < new.len() { Some(new[i].as_slice()) } else { None };
        let old_head: Option<&[u8]> = if j < old.len() { Some(old[j].as_slice()) } else { None };
        let ghost ns = n.subrange(i as int, n.len() as int);
        let ghost os = o.subrange(j as int, o.len() as int);
        proof {
            if i < n.len() {
                assert(ns[0] == new[i as int]@);
                assert(ns.drop_first() =~= n.subrange(i + 1, n.len() as int));
            }
            if j < o.len() {
                assert(os[0] == old[j as int]@);
                assert(os.drop_first() =~= o.subrange(j + 1, o.len() as int));
            }
        }
        match next_step(new_head, old_head) {
            None => {
                assert(ns.len() == 0 && os.len() == 0);
                assert(os =~= Seq::<Seq<u8>>::empty());
                assert(out.spec().creates + Seq::<Seq<u8>>::empty() =~= out.spec().creates);
                assert(out.spec().updates + Seq::<Seq<u8>>::empty() =~= out.spec().updates);
                assert(out.spec().deletes + Seq::<Seq<u8>>::empty() =~= out.spec().deletes);
                assert(out.spec() == diff(n, o));
                break;
            },
            Some(Step::Unchanged) => {
                i = i + 1;
                j = j + 1;
            },
            Some(Step::Update) => {
                let ghost prev = out.spec();
                push_record(&mut out.updates, new[i].as_slice());
                assert(prev.updates + (seq![ns[0]] + diff(ns.drop_first(), os.drop_first()).updates)
                    =~= out.spec().updates + diff(ns.drop_first(), os.drop_first()).updates);
                i = i + 1;
                j = j + 1;
            },
            Some(Step::Create) => {
                let ghost prev = out.spec();
                push_record(&mut out.creates, new[i].as_slice());
                assert(prev.creates + (seq![ns[0]] + diff(ns.drop_first(), os).creates)
                    =~= out.spec().creates + diff(ns.drop_first(), os).creates);
                proof {
                    if os.len() == 0 {
                        assert(diff(ns.drop_first(), os).creates =~= ns.drop_first());
                        assert(ns =~= seq![ns[0]] + ns.drop_first());
                    }
                }
                i = i + 1;
            },
            Some(Step::Delete) => {
                let ghost prev = out.spec();
                push_record(&mut out.deletes, old[j].as_slice());
                assert(prev.deletes + (seq![os[0]] + diff(ns, os.drop_first()).deletes)
                    =~= out.spec().deletes + diff(ns, os.drop_first()).deletes);
                proof {
                    if ns.len() == 0 {
                        assert(os =~= seq![os[0]] + os.drop_first());
                    }
                }
                j = j + 1;
            },
        }
    }
    out
}

/// The three output sinks of a run.
pub struct DiffSinks {
    pub creates: OutputSink,
    pub updates: OutputSink,
    pub deletes: OutputSink,
}

impl DiffSinks {
    /// Three empty sinks.
    pub fn new() -> (r: Self)
        ensures
            r.creates@ == Seq::<u8>::empty(),
            r.updates@ == Seq::<u8>::empty(),
            r.deletes@ == Seq::<u8>::empty(),
    {
        DiffSinks { creates: OutputSink::new(), updates: OutputSink::new(), deletes: OutputSink::new() }
    }
}

/// Runs the merge diff over two byte regions in a single forward pass,
/// scanning records in place, and appends each output's records verbatim to
/// its sink.
pub fn merge_diff(new_region: &[u8], old_region: &[u8], out: &mut DiffSinks)
    ensures
        ({
            let d = diff(split_records(new_region@), split_records(old_region@));
            &&& final(out).creates@ == old(out).creates@ + d.creates.flatten()
            &&& final(out).updates@ == old(out).updates@ + d.updates.flatten()
            &&& final(out).deletes@ == old(out).deletes@ + d.deletes.flatten()
        }),
{
    broadcast use Seq::lemma_flatten_push;

    let ghost total = diff(split_records(new_region@), split_records(old_region@));
    let ghost start_c = out.creates@;
    let ghost start_u = out.updates@;
    let ghost start_d = out.deletes@;
    let ghost mut wc: Seq<Seq<u8>> = Seq::empty();
    let ghost mut wu: Seq<Seq<u8>> = Seq::empty();
    let ghost mut wd: Seq<Seq<u8>> = Seq::empty();
    let mut new_src = MappedScan::new(new_region);
    let mut old_src = MappedScan::new(old_region);
    assert(total.creates =~= wc + total.creates);
    assert(total.updates =~= wu + total.updates);
    assert(total.deletes =~= wd + total.deletes);
    loop
        invariant
            new_src.wf(),
            old_src.wf(),
            total == diff(split_records(new_region@), split_records(old_region@)),
            out.creates@ == start_c + wc.flatten(),
            out.updates@ == start_u + wu.flatten(),
            out.deletes@ == start_d + wd.flatten(),
            ({
                let rest = diff(new_src.records(), old_src.records());
                &&& total.creates == wc + rest.creates
                &&& total.updates == wu + rest.updates
                &&& total.deletes == wd + rest.deletes
            }),
        ensures
            out.creates@ == start_c + total.creates.flatten(),
            out.updates@ == start_u + total.updates.flatten(),
            out.deletes@ == start_d + total.deletes.flatten(),
        decreases new_src.records().len() + old_src.records().len(),
    {
        let ghost nr = new_src.records();
        let ghost orr = old_src.records();
        let new_head = new_src.peek();
        let old_head = old_src.peek();
        match next_step(new_head, old_head) {
            None => {
                assert(orr =~= Seq::<Seq<u8>>::empty());
                assert(wc + Seq::<Seq<u8>>::empty() =~= wc);
                assert(wu + Seq::<Seq<u8>>::empty() =~= wu);
                assert(wd + Seq::<Seq<u8>>::empty() =~= wd);
                break;
            },
            Some(Step::Unchanged) => {
                new_src.advance();
                old_src.advance();
            },
            Some(Step::Update) => {
                let rec = new_head.unwrap();
                out.updates.write(rec);
                proof {
                    assert(wu + (seq![nr[0]] + diff(nr.drop_first(), orr.drop_first()).updates)
                        =~= wu.push(nr[0]) + diff(nr.drop_first(), orr.drop_first()).updates);
                    assert(rec@ == nr[0]);
                    wu.lemma_flatten_push(nr[0]);
                    assert(start_u + wu.flatten() + rec@ =~= start_u + (wu.flatten() + rec@));
                    wu = wu.push(nr[0]);
                }
                new_src.advance();
                old_src.advance();
            },
            Some(Step::Create) => {
                let rec = new_head.unwrap();
                out.creates.write(rec);
                proof {
                    if orr.len() == 0 {
                        assert(nr =~= seq![nr[0]] + nr.drop_first());
                    }
                    assert(wc + (seq![nr[0]] + diff(nr.drop_first(), orr).creates)
                        =~= wc.push(nr[0]) + diff(nr.drop_first(), orr).creates);
                    assert(rec@ == nr[0]);
                    wc.lemma_flatten_push(nr[0]);
                    assert(start_c + wc.flatten() + rec@ =~= start_c + (wc.flatten() + rec@));
                    wc = wc.push(nr[0]);
                }
                new_src.advance();
            },
            Some(Step::Delete) => {
                let rec = old_head.unwrap();
                out.deletes.write(rec);
                proof {
                    if nr.len() == 0 {
                        assert(orr =~= seq![orr[0]] + orr.drop_first());
                    }
                    assert(wd + (seq![orr[0]] + diff(nr, orr.drop_first()).deletes)
                        =~= wd.push(orr[0]) + diff(nr, orr.drop_first()).deletes);
                    assert(rec@ == orr[0]);
                    wd.lemma_flatten_push(orr[0]);
                    assert(start_d + wd.flatten() + rec@ =~= start_d + (wd.flatten() + rec@));
                    wd = wd.push(orr[0]);
                }
                old_src.advance();
            },
        }
    }
}

} // verus!
