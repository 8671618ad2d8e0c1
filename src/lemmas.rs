//! What holds of every diff: completeness, correct updates, empty output on
//! identical streams, preserved order, and outputs that do not depend on how
//! the records were read.
use crate::engine::{classification, diff, Step};
use crate::key::{
    key_of, lemma_lex_lt_asymmetric, lemma_lex_lt_total, lemma_lex_lt_transitive, lex_cmp, lex_lt,
};
use crate::source::{lemma_strategies_agree, split_records, BufferedSource};
use std::cmp::Ordering;
use vstd::prelude::*;

verus! {

/// Whether some record of `s` has key `k`.
pub open spec fn has_key(s: Seq<Seq<u8>>, k: Seq<u8>) -> bool {
    exists|i: int| 0 <= i < s.len() && #[trigger] key_of(s[i]) == k
}

/// The records of `s` that satisfy `p`, in their order in `s`.
pub open spec fn select(s: Seq<Seq<u8>>, p: spec_fn(Seq<u8>) -> bool) -> Seq<Seq<u8>>
    decreases s.len(),
{
    if s.len() == 0 {
        Seq::empty()
    } else if p(s[0]) {
        seq![s[0]] + select(s.drop_first(), p)
    } else {
        select(s.drop_first(), p)
    }
}

/// The records of `s` whose key is `k`, in their order in `s`.
pub open spec fn with_key(s: Seq<Seq<u8>>, k: Seq<u8>) -> Seq<Seq<u8>> {
    select(s, |r: Seq<u8>| key_of(r) == k)
}

/// Whether `a` can be obtained from `b` by leaving records out.
pub open spec fn is_subsequence(a: Seq<Seq<u8>>, b: Seq<Seq<u8>>) -> bool
    decreases b.len(),
{
    if b.len() == 0 {
        a.len() == 0
    } else {
        is_subsequence(a, b.drop_first()) || (a.len() > 0 && a[0] == b[0] && is_subsequence(
            a.drop_first(),
            b.drop_first(),
        ))
    }
}

/// Keys strictly increase along `s`: the stream is sorted and no key repeats.
pub open spec fn keys_strictly_increasing(s: Seq<Seq<u8>>) -> bool {
    forall|i: int, j: int| 0 <= i < j < s.len() ==> lex_lt(key_of(s[i]), key_of(s[j]))
}

/// Records of `n` whose key `o` lacks: what the creates (or, with the streams
/// swapped, the deletes) of sorted streams consist of.
pub open spec fn key_absent(o: Seq<Seq<u8>>) -> spec_fn(Seq<u8>) -> bool {
    |r: Seq<u8>| !has_key(o, key_of(r))
}

/// Records whose key `o` has but which `o` does not hold byte for byte.
pub open spec fn content_changed(o: Seq<Seq<u8>>) -> spec_fn(Seq<u8>) -> bool {
    |r: Seq<u8>| has_key(o, key_of(r)) && !o.contains(r)
}

proof fn lemma_select_congruent(s: Seq<Seq<u8>>, p: spec_fn(Seq<u8>) -> bool, q: spec_fn(Seq<u8>) -> bool)
    requires
        forall|i: int| 0 <= i < s.len() ==> p(s[i]) == q(s[i]),
    ensures
        select(s, p) == select(s, q),
    decreases s.len(),
{
    if s.len() > 0 {
        assert forall|i: int| 0 <= i < s.drop_first().len() implies p(s.drop_first()[i]) == q(s.drop_first()[i]) by {
            assert(s.drop_first()[i] == s[i + 1]);
        }
        lemma_select_congruent(s.drop_first(), p, q);
    }
}

proof fn lemma_select_all(s: Seq<Seq<u8>>, p: spec_fn(Seq<u8>) -> bool)
    requires
        forall|i: int| 0 <= i < s.len() ==> p(s[i]),
    ensures
        select(s, p) == s,
    decreases s.len(),
{
    if s.len() > 0 {
        assert forall|i: int| 0 <= i < s.drop_first().len() implies p(s.drop_first()[i]) by {
            assert(s.drop_first()[i] == s[i + 1]);
        }
        lemma_select_all(s.drop_first(), p);
        assert(s =~= seq![s[0]] + s.drop_first());
    }
}

proof fn lemma_select_none(s: Seq<Seq<u8>>, p: spec_fn(Seq<u8>) -> bool)
    requires
        forall|i: int| 0 <= i < s.len() ==> !p(s[i]),
    ensures
        select(s, p) == Seq::<Seq<u8>>::empty(),
    decreases s.len(),
{
    if s.len() > 0 {
        assert forall|i: int| 0 <= i < s.drop_first().len() implies !p(s.drop_first()[i]) by {
            assert(s.drop_first()[i] == s[i + 1]);
        }
        lemma_select_none(s.drop_first(), p);
    }
}

proof fn lemma_select_prepend(x: Seq<u8>, s: Seq<Seq<u8>>, p: spec_fn(Seq<u8>) -> bool)
    ensures
        select(seq![x] + s, p) == if p(x) { seq![x] + select(s, p) } else { select(s, p) },
{
    assert((seq![x] + s).drop_first() =~= s);
    assert((seq![x] + s)[0] == x);
}

proof fn lemma_has_key_tail(s: Seq<Seq<u8>>, k: Seq<u8>)
    requires
        s.len() > 0,
        key_of(s[0]) != k,
    ensures
        has_key(s, k) == has_key(s.drop_first(), k),
{
    if has_key(s, k) {
        let i = choose|i: int| 0 <= i < s.len() && #[trigger] key_of(s[i]) == k;
        assert(key_of(s.drop_first()[i - 1]) == k);
    }
    if has_key(s.drop_first(), k) {
        let i = choose|i: int| 0 <= i < s.drop_first().len() && #[trigger] key_of(s.drop_first()[i]) == k;
        assert(key_of(s[i + 1]) == k);
    }
}

proof fn lemma_contains_tail(s: Seq<Seq<u8>>, r: Seq<u8>)
    requires
        s.len() > 0,
        s[0] != r,
    ensures
        s.contains(r) == s.drop_first().contains(r),
{
    if s.contains(r) {
        let i = choose|i: int| 0 <= i < s.len() && s[i] == r;
        assert(s.drop_first()[i - 1] == r);
    }
    if s.drop_first().contains(r) {
        let i = choose|i: int| 0 <= i < s.drop_first().len() && s.drop_first()[i] == r;
        assert(s[i + 1] == r);
    }
}

/// In a strictly increasing stream, no record has a key below the first one's.
proof fn lemma_no_key_below(s: Seq<Seq<u8>>, k: Seq<u8>)
    requires
        keys_strictly_increasing(s),
        s.len() > 0,
        lex_lt(k, key_of(s[0])),
    ensures
        !has_key(s, k),
        forall|i: int| 0 <= i < s.len() ==> lex_lt(k, #[trigger] key_of(s[i])),
{
    assert forall|i: int| 0 <= i < s.len() implies lex_lt(k, #[trigger] key_of(s[i])) by {
        if i > 0 {
            lemma_lex_lt_transitive(k, key_of(s[0]), key_of(s[i]));
        }
    }
    if has_key(s, k) {
        let i = choose|i: int| 0 <= i < s.len() && #[trigger] key_of(s[i]) == k;
        lemma_lex_lt_asymmetric(k, k);
    }
}

proof fn lemma_tail_increasing(s: Seq<Seq<u8>>)
    requires
        keys_strictly_increasing(s),
        s.len() > 0,
    ensures
        keys_strictly_increasing(s.drop_first()),
        forall|i: int| 0 < i < s.len() ==> lex_lt(key_of(s[0]), #[trigger] key_of(s[i])),
{
    assert forall|i: int, j: int| 0 <= i < j < s.drop_first().len() implies lex_lt(
        key_of(s.drop_first()[i]),
        key_of(s.drop_first()[j]),
    ) by {
        assert(s.drop_first()[i] == s[i + 1]);
        assert(s.drop_first()[j] == s[j + 1]);
    }
}

/// Every record of the new stream whose key the old stream lacks reaches
/// creates: the creates with key `k` are exactly the new records with key `k`,
/// in their order in the new stream.
pub proof fn lemma_creates_complete(n: Seq<Seq<u8>>, o: Seq<Seq<u8>>, k: Seq<u8>)
    requires
        !has_key(o, k),
    ensures
        with_key(diff(n, o).creates, k) == with_key(n, k),
    decreases n.len() + o.len(),
{
    let p = |r: Seq<u8>| key_of(r) == k;
    if n.len() > 0 && o.len() > 0 {
        assert(key_of(o[0]) != k);
        let n1 = n.drop_first();
        let o1 = o.drop_first();
        assert(n =~= seq![n[0]] + n1);
        lemma_select_prepend(n[0], n1, p);
        match classification(n[0], o[0]) {
            Step::Unchanged => {
                lemma_has_key_tail(o, k);
                lemma_creates_complete(n1, o1, k);
            },
            Step::Update => {
                assert(lex_cmp(key_of(n[0]), key_of(o[0])) == Ordering::Equal);
                lemma_has_key_tail(o, k);
                lemma_creates_complete(n1, o1, k);
            },
            Step::Create => {
                lemma_creates_complete(n1, o, k);
                lemma_select_prepend(n[0], diff(n1, o).creates, p);
            },
            Step::Delete => {
                lemma_has_key_tail(o, k);
                lemma_creates_complete(n, o1, k);
            },
        }
    } else if n.len() == 0 {
        lemma_select_none(Seq::<Seq<u8>>::empty(), p);
    }
}

/// Every record of the old stream whose key the new stream lacks reaches
/// deletes: the deletes with key `k` are exactly the old records with key `k`,
/// in their order in the old stream.
pub proof fn lemma_deletes_complete(n: Seq<Seq<u8>>, o: Seq<Seq<u8>>, k: Seq<u8>)
    requires
        !has_key(n, k),
    ensures
        with_key(diff(n, o).deletes, k) == with_key(o, k),
    decreases n.len() + o.len(),
{
    let p = |r: Seq<u8>| key_of(r) == k;
    if n.len() > 0 && o.len() > 0 {
        assert(key_of(n[0]) != k);
        let n1 = n.drop_first();
        let o1 = o.drop_first();
        assert(o =~= seq![o[0]] + o1);
        lemma_select_prepend(o[0], o1, p);
        match classification(n[0], o[0]) {
            Step::Unchanged => {
                lemma_has_key_tail(n, k);
                lemma_deletes_complete(n1, o1, k);
            },
            Step::Update => {
                assert(lex_cmp(key_of(n[0]), key_of(o[0])) == Ordering::Equal);
                lemma_has_key_tail(n, k);
                lemma_deletes_complete(n1, o1, k);
            },
            Step::Create => {
                lemma_has_key_tail(n, k);
                lemma_deletes_complete(n1, o, k);
            },
            Step::Delete => {
                lemma_deletes_complete(n, o1, k);
                lemma_select_prepend(o[0], diff(n, o1).deletes, p);
            },
        }
    } else if o.len() == 0 {
        lemma_select_none(Seq::<Seq<u8>>::empty(), p);
    }
}

/// Identical streams give three empty outputs.
pub proof fn lemma_identical_streams(s: Seq<Seq<u8>>)
    ensures
        diff(s, s).creates.len() == 0,
        diff(s, s).updates.len() == 0,
        diff(s, s).deletes.len() == 0,
    decreases s.len(),
{
    if s.len() > 0 {
        lemma_identical_streams(s.drop_first());
    }
}

proof fn lemma_empty_subsequence(b: Seq<Seq<u8>>)
    ensures
        is_subsequence(Seq::empty(), b),
    decreases b.len(),
{
    if b.len() > 0 {
        lemma_empty_subsequence(b.drop_first());
    }
}

proof fn lemma_subsequence_refl(b: Seq<Seq<u8>>)
    ensures
        is_subsequence(b, b),
    decreases b.len(),
{
    if b.len() > 0 {
        lemma_subsequence_refl(b.drop_first());
    }
}

proof fn lemma_subsequence_cons(x: Seq<u8>, a: Seq<Seq<u8>>, b: Seq<Seq<u8>>)
    requires
        b.len() > 0,
        b[0] == x,
        is_subsequence(a, b.drop_first()),
    ensures
        is_subsequence(seq![x] + a, b),
{
    assert((seq![x] + a).drop_first() =~= a);
}

/// Each output keeps the order of its source: creates and updates are
/// subsequences of the new stream, deletes of the old one.
pub proof fn lemma_order_preserved(n: Seq<Seq<u8>>, o: Seq<Seq<u8>>)
    ensures
        is_subsequence(diff(n, o).creates, n),
        is_subsequence(diff(n, o).updates, n),
        is_subsequence(diff(n, o).deletes, o),
    decreases n.len() + o.len(),
{
    if n.len() == 0 {
        lemma_empty_subsequence(n);
        lemma_subsequence_refl(o);
    } else if o.len() == 0 {
        lemma_subsequence_refl(n);
        lemma_empty_subsequence(n);
        lemma_empty_subsequence(o);
    } else {
        let n1 = n.drop_first();
        let o1 = o.drop_first();
        match classification(n[0], o[0]) {
            Step::Unchanged => {
                lemma_order_preserved(n1, o1);
            },
            Step::Update => {
                lemma_order_preserved(n1, o1);
                lemma_subsequence_cons(n[0], diff(n1, o1).updates, n);
            },
            Step::Create => {
                lemma_order_preserved(n1, o);
                lemma_subsequence_cons(n[0], diff(n1, o).creates, n);
            },
            Step::Delete => {
                lemma_order_preserved(n, o1);
                lemma_subsequence_cons(o[0], diff(n, o1).deletes, o);
            },
        }
    }
}

/// For streams whose keys strictly increase, each output is determined by
/// keys alone: creates are the new records whose key the old stream lacks,
/// updates the new records whose key the old stream has with other content
/// (once per matching pair, new content), and deletes the old records whose
/// key the new stream lacks.
pub proof fn lemma_sorted_streams(n: Seq<Seq<u8>>, o: Seq<Seq<u8>>)
    requires
        keys_strictly_increasing(n),
        keys_strictly_increasing(o),
    ensures
        diff(n, o).creates == select(n, key_absent(o)),
        diff(n, o).updates == select(n, content_changed(o)),
        diff(n, o).deletes == select(o, key_absent(n)),
    decreases n.len() + o.len(),
{
    if n.len() == 0 {
        lemma_select_none(n, key_absent(o));
        lemma_select_none(n, content_changed(o));
        lemma_select_all(o, key_absent(n));
    } else if o.len() == 0 {
        lemma_select_all(n, key_absent(o));
        lemma_select_none(n, content_changed(o));
        lemma_select_none(o, key_absent(n));
    } else {
        let n1 = n.drop_first();
        let o1 = o.drop_first();
        let kn = key_of(n[0]);
        let ko = key_of(o[0]);
        lemma_tail_increasing(n);
        lemma_tail_increasing(o);
        assert(n =~= seq![n[0]] + n1);
        assert(o =~= seq![o[0]] + o1);
        lemma_select_prepend(n[0], n1, key_absent(o));
        lemma_select_prepend(n[0], n1, content_changed(o));
        lemma_select_prepend(o[0], o1, key_absent(n));
        lemma_lex_lt_asymmetric(kn, ko);
        lemma_lex_lt_total(kn, ko);
        assert(has_key(o, ko) && key_of(o[0]) == ko);
        assert(has_key(n, kn) && key_of(n[0]) == kn);
        if kn == ko {
            // The tails' keys all lie above the shared head key.
            assert forall|i: int| 0 <= i < n1.len() implies key_absent(o)(n1[i]) == key_absent(o1)(
                n1[i],
            ) && content_changed(o)(n1[i]) == content_changed(o1)(n1[i]) by {
                assert(n1[i] == n[i + 1]);
                lemma_lex_lt_asymmetric(kn, key_of(n1[i]));
                lemma_has_key_tail(o, key_of(n1[i]));
                lemma_contains_tail(o, n1[i]);
            }
            assert forall|i: int| 0 <= i < o1.len() implies key_absent(n)(o1[i]) == key_absent(n1)(
                o1[i],
            ) by {
                assert(o1[i] == o[i + 1]);
                lemma_lex_lt_asymmetric(ko, key_of(o1[i]));
                lemma_has_key_tail(n, key_of(o1[i]));
            }
            lemma_select_congruent(n1, key_absent(o), key_absent(o1));
            lemma_select_congruent(n1, content_changed(o), content_changed(o1));
            lemma_select_congruent(o1, key_absent(n), key_absent(n1));
            lemma_sorted_streams(n1, o1);
            if n[0] != o[0] {
                assert(classification(n[0], o[0]) == Step::Update);
                assert(!o.contains(n[0])) by {
                    if o.contains(n[0]) {
                        let j = choose|j: int| 0 <= j < o.len() && o[j] == n[0];
                        assert(j != 0);
                        lemma_lex_lt_asymmetric(ko, key_of(o[j]));
                    }
                }
            } else {
                assert(o.contains(n[0]));
            }
        } else if lex_lt(kn, ko) {
            assert(classification(n[0], o[0]) == Step::Create);
            lemma_no_key_below(o, kn);
            assert forall|i: int| 0 <= i < o.len() implies key_absent(n)(o[i]) == key_absent(n1)(
                o[i],
            ) by {
                lemma_lex_lt_asymmetric(kn, key_of(o[i]));
                lemma_has_key_tail(n, key_of(o[i]));
            }
            lemma_select_congruent(o, key_absent(n), key_absent(n1));
            lemma_sorted_streams(n1, o);
        } else {
            assert(lex_lt(ko, kn));
            assert(classification(n[0], o[0]) == Step::Delete);
            lemma_no_key_below(n, ko);
            assert forall|i: int| 0 <= i < n.len() implies key_absent(o)(n[i]) == key_absent(o1)(
                n[i],
            ) && content_changed(o)(n[i]) == content_changed(o1)(n[i]) by {
                lemma_lex_lt_asymmetric(ko, key_of(n[i]));
                lemma_has_key_tail(o, key_of(n[i]));
                lemma_contains_tail(o, n[i]);
            }
            lemma_select_congruent(n, key_absent(o), key_absent(o1));
            lemma_select_congruent(n, content_changed(o), content_changed(o1));
            lemma_sorted_streams(n, o1);
        }
    }
}

/// Two finished buffered sources, from which nothing has been consumed yet,
/// lead the engine to the outputs that scanning their bytes in place gives.
pub proof fn lemma_strategy_outputs_agree(new_src: BufferedSource, old_src: BufferedSource)
    requires
        new_src.wf(),
        old_src.wf(),
        new_src.is_finished(),
        old_src.is_finished(),
        new_src.delivered().len() == 0,
        old_src.delivered().len() == 0,
    ensures
        diff(new_src.remaining(), old_src.remaining()) == diff(
            split_records(new_src.fed()),
            split_records(old_src.fed()),
        ),
{
    lemma_strategies_agree(new_src);
    lemma_strategies_agree(old_src);
    assert(new_src.delivered() + new_src.remaining() =~= new_src.remaining());
    assert(old_src.delivered() + old_src.remaining() =~= old_src.remaining());
}

} // verus!
