//! Auto-tuner: sweep the strategy catalogue against a target, repeat each
//! strategy a few times for stability, then rank by (success rate, latency).
//!
//! The probing itself is network work done by the caller.  A
//! [`TuneSession`] tells it which catalogue entry to probe next and takes
//! back each [`ProbeResult`]; once the sweep is complete it hands out the
//! ranked [`TuneEntry`] table.

use vstd::prelude::*;
use vstd::utf8::encode_utf8;

use crate::probe::{ProbeResult, Verdict};
use crate::strategy::{
    by_name, catalogue_entry, catalogue_names, default_catalogue, lemma_catalogue_names_distinct,
    AnyStrategy, Strategy,
};

verus! {

/// Aggregated score for one strategy across several attempts.
#[derive(Debug)]
pub struct TuneEntry {
    pub strategy: String,
    pub passes: u32,
    pub attempts: u32,
    /// Lowest latency of a passing attempt, in nanoseconds.
    pub best_latency: Option<u128>,
    pub last_verdict: Verdict,
}

/// A [`TuneEntry`] with its name taken as characters.
pub struct EntryView {
    pub strategy: Seq<char>,
    pub passes: u32,
    pub attempts: u32,
    pub best_latency: Option<u128>,
    pub last_verdict: Verdict,
}

impl View for TuneEntry {
    type V = EntryView;

    open spec fn view(&self) -> EntryView {
        EntryView {
            strategy: self.strategy@,
            passes: self.passes,
            attempts: self.attempts,
            best_latency: self.best_latency,
            last_verdict: self.last_verdict,
        }
    }
}

// ---------------------------------------------------------------------------
// Ranking order
// ---------------------------------------------------------------------------

/// The pass rate of an entry as the fraction `rate_num / rate_den`; an entry
/// without attempts has rate zero.
pub open spec fn rate_num(e: EntryView) -> int {
    if e.attempts == 0 {
        0
    } else {
        e.passes as int
    }
}

pub open spec fn rate_den(e: EntryView) -> int {
    if e.attempts == 0 {
        1
    } else {
        e.attempts as int
    }
}

/// -1 when `a` has the higher pass rate, 1 when `b` has, 0 on a tie.
pub open spec fn rate_order(a: EntryView, b: EntryView) -> int {
    let left = rate_num(a) * rate_den(b);
    let right = rate_num(b) * rate_den(a);
    if left > right {
        -1
    } else if left < right {
        1
    } else {
        0
    }
}

/// -1 when `a` is the lower latency, 1 when `b` is, 0 on a tie; a missing
/// latency comes after any measured one.
pub open spec fn latency_order(a: Option<u128>, b: Option<u128>) -> int {
    match (a, b) {
        (Some(x), Some(y)) => if x < y {
            -1
        } else if x > y {
            1
        } else {
            0
        },
        (Some(_), None) => -1,
        (None, Some(_)) => 1,
        (None, None) => 0,
    }
}

/// Lexicographic order of byte strings: -1, 0 or 1.
pub open spec fn bytes_order(a: Seq<u8>, b: Seq<u8>) -> int
    decreases a.len(),
{
    if a.len() == 0 {
        if b.len() == 0 {
            0
        } else {
            -1
        }
    } else if b.len() == 0 {
        1
    } else if a[0] < b[0] {
        -1
    } else if a[0] > b[0] {
        1
    } else {
        bytes_order(a.drop_first(), b.drop_first())
    }
}

/// The ranking order: higher pass rate first, then lower latency, then the
/// strategy name (by its UTF-8 bytes) for stability.
pub open spec fn entry_order(a: EntryView, b: EntryView) -> int {
    let r = rate_order(a, b);
    if r != 0 {
        r
    } else {
        let l = latency_order(a.best_latency, b.best_latency);
        if l != 0 {
            l
        } else {
            bytes_order(encode_utf8(a.strategy), encode_utf8(b.strategy))
        }
    }
}

/// `a` ranks strictly before `b`.
pub open spec fn ranks_before(a: EntryView, b: EntryView) -> bool {
    entry_order(a, b) < 0
}

/// Where a stable sort puts `e` among the already ranked `s`: before the
/// first entry that `e` ranks strictly before, or at the end.
pub open spec fn insert_position(s: Seq<EntryView>, e: EntryView) -> int
    decreases s.len(),
{
    if s.len() == 0 {
        0
    } else if ranks_before(e, s[0]) {
        0
    } else {
        1 + insert_position(s.drop_first(), e)
    }
}

/// The entries in ranking order; entries that tie keep their input order.
pub open spec fn ranked(s: Seq<EntryView>) -> Seq<EntryView>
    decreases s.len(),
{
    if s.len() == 0 {
        seq![]
    } else {
        let r = ranked(s.drop_last());
        r.insert(insert_position(r, s.last()), s.last())
    }
}

/// The views of a sequence of entries.
pub open spec fn entry_views(s: Seq<TuneEntry>) -> Seq<EntryView> {
    s.map_values(|e: TuneEntry| e@)
}

fn compare_bytes(a: &[u8], b: &[u8]) -> (order: i8)
    ensures
        order as int == bytes_order(a@, b@),
{
    let mut i: usize = 0;
    assert(a@.skip(0) =~= a@);
    assert(b@.skip(0) =~= b@);
    while i < a.len() && i < b.len()
        invariant
            i <= a@.len(),
            i <= b@.len(),
            bytes_order(a@, b@) == bytes_order(a@.skip(i as int), b@.skip(i as int)),
        decreases a@.len() - i,
    {
        assert(a@.skip(i as int)[0] == a@[i as int]);
        assert(b@.skip(i as int)[0] == b@[i as int]);
        if a[i] < b[i] {
            return -1;
        }
        if a[i] > b[i] {
            return 1;
        }
        assert(a@.skip(i as int).drop_first() =~= a@.skip(i + 1));
        assert(b@.skip(i as int).drop_first() =~= b@.skip(i + 1));
        i = i + 1;
    }
    if i == a.len() && i == b.len() {
        0
    } else if i == a.len() {
        -1
    } else {
        1
    }
}

fn compare_latency(a: Option<u128>, b: Option<u128>) -> (order: i8)
    ensures
        order as int == latency_order(a, b),
{
    match (a, b) {
        (Some(x), Some(y)) => {
            if x < y {
                -1
            } else if x > y {
                1
            } else {
                0
            }
        },
        (Some(_), None) => -1,
        (None, Some(_)) => 1,
        (None, None) => 0,
    }
}

fn compare_rate(a: &TuneEntry, b: &TuneEntry) -> (order: i8)
    ensures
        order as int == rate_order(a@, b@),
{
    let (na, da): (u64, u64) = if a.attempts == 0 {
        (0, 1)
    } else {
        (a.passes as u64, a.attempts as u64)
    };
    let (nb, db): (u64, u64) = if b.attempts == 0 {
        (0, 1)
    } else {
        (b.passes as u64, b.attempts as u64)
    };
    assert(na * db <= 0xffff_ffff * 0xffff_ffff) by (nonlinear_arith)
        requires
            na <= 0xffff_ffff,
            db <= 0xffff_ffff,
    ;
    assert(nb * da <= 0xffff_ffff * 0xffff_ffff) by (nonlinear_arith)
        requires
            nb <= 0xffff_ffff,
            da <= 0xffff_ffff,
    ;
    let left = na * db;
    let right = nb * da;
    if left > right {
        -1
    } else if left < right {
        1
    } else {
        0
    }
}

/// The ranking order of two entries, as -1 (`a` first), 0 (tie) or 1.
fn compare_entries(a: &TuneEntry, b: &TuneEntry) -> (order: i8)
    ensures
        order as int == entry_order(a@, b@),
{
    let r = compare_rate(a, b);
    if r != 0 {
        return r;
    }
    let l = compare_latency(a.best_latency, b.best_latency);
    if l != 0 {
        return l;
    }
    compare_bytes(a.strategy.as_str().as_bytes(), b.strategy.as_str().as_bytes())
}

/// Sort entries into ranking order: higher pass rate first, then lower
/// latency, then name.  The sort is stable.
pub fn rank(entries: Vec<TuneEntry>) -> (ranked_entries: Vec<TuneEntry>)
    ensures
        entry_views(ranked_entries@) == ranked(entry_views(entries@)),
{
    let ghost all = entry_views(entries@);
    let mut input = entries;
    let mut out: Vec<TuneEntry> = Vec::new();
    let ghost mut done: int = 0;
    assert(all.take(0) =~= Seq::<EntryView>::empty());
    assert(entry_views(out@) =~= ranked(all.take(0)));
    assert(entry_views(input@) =~= all.skip(0));
    while input.len() > 0
        invariant
            0 <= done <= all.len(),
            entry_views(out@) == ranked(all.take(done)),
            entry_views(input@) == all.skip(done),
        decreases input@.len(),
    {
        let ghost before_input = input@;
        assert(entry_views(before_input).len() == before_input.len());
        assert(done < all.len());
        let e = input.remove(0);
        let ghost ev = e@;
        assert(ev == all[done]) by {
            assert(entry_views(before_input)[0] == before_input[0]@);
            assert(entry_views(before_input)[0] == all.skip(done)[0]);
        }
        let ghost r = entry_views(out@);
        let mut j: usize = 0;
        assert(r.skip(0) =~= r);
        while j < out.len() && compare_entries(&e, &out[j]) >= 0
            invariant
                j <= out@.len(),
                r == entry_views(out@),
                ev == e@,
                insert_position(r, ev) == j + insert_position(r.skip(j as int), ev),
            decreases out@.len() - j,
        {
            assert(r.skip(j as int)[0] == r[j as int]);
            assert(r.skip(j as int).drop_first() =~= r.skip(j + 1));
            j = j + 1;
        }
        proof {
            if j < out@.len() {
                assert(r.skip(j as int)[0] == r[j as int]);
            }
            assert(insert_position(r, ev) == j);
        }
        out.insert(j, e);
        proof {
            assert(all.take(done + 1).drop_last() =~= all.take(done));
            assert(all.take(done + 1).last() == all[done]);
            assert(entry_views(out@) =~= r.insert(j as int, ev));
            assert forall|k: int| 0 <= k < input@.len() implies entry_views(input@)[k] == all.skip(
                done + 1,
            )[k] by {
                assert(input@[k] == before_input[k + 1]);
                assert(entry_views(before_input)[k + 1] == before_input[k + 1]@);
                assert(all.skip(done)[k + 1] == all.skip(done + 1)[k]);
            }
            assert(entry_views(input@) =~= all.skip(done + 1));
            done = done + 1;
        }
    }
    assert(all.take(done) =~= all);
    out
}

// ---------------------------------------------------------------------------
// Laws of the ranking
// ---------------------------------------------------------------------------

/// No entry of `s` ranks strictly before an entry that precedes it.
pub open spec fn is_ranked(s: Seq<EntryView>) -> bool {
    forall|i: int, j: int| 0 <= i < j < s.len() ==> !ranks_before(#[trigger] s[j], #[trigger] s[i])
}

proof fn lemma_rate_order(a: EntryView, b: EntryView, c: EntryView)
    ensures
        rate_order(a, b) == -rate_order(b, a),
        rate_order(a, b) <= 0 && rate_order(b, c) <= 0 ==> rate_order(a, c) <= 0,
        rate_order(a, b) < 0 && rate_order(b, c) <= 0 ==> rate_order(a, c) < 0,
        rate_order(a, b) <= 0 && rate_order(b, c) < 0 ==> rate_order(a, c) < 0,
{
    let (xa, da) = (rate_num(a), rate_den(a));
    let (xb, db) = (rate_num(b), rate_den(b));
    let (xc, dc) = (rate_num(c), rate_den(c));
    assert(da > 0 && db > 0 && dc > 0);
    assert(xa >= 0 && xb >= 0 && xc >= 0);
    if xa * db >= xb * da && xb * dc >= xc * db {
        assert(xa * dc >= xc * da) by (nonlinear_arith)
            requires
                xa * db >= xb * da,
                xb * dc >= xc * db,
                da > 0,
                db > 0,
                dc > 0,
        ;
        if xa * db > xb * da || xb * dc > xc * db {
            assert(xa * dc > xc * da) by (nonlinear_arith)
                requires
                    xa * db >= xb * da,
                    xb * dc >= xc * db,
                    xa * db > xb * da || xb * dc > xc * db,
                    da > 0,
                    db > 0,
                    dc > 0,
            ;
        }
    }
}

proof fn lemma_latency_order(a: Option<u128>, b: Option<u128>, c: Option<u128>)
    ensures
        latency_order(a, b) == -latency_order(b, a),
        latency_order(a, b) == 0 <==> a == b,
        latency_order(a, b) <= 0 && latency_order(b, c) <= 0 ==> latency_order(a, c) <= 0,
        latency_order(a, b) < 0 && latency_order(b, c) <= 0 ==> latency_order(a, c) < 0,
        latency_order(a, b) <= 0 && latency_order(b, c) < 0 ==> latency_order(a, c) < 0,
{
}

proof fn lemma_bytes_order(a: Seq<u8>, b: Seq<u8>, c: Seq<u8>)
    ensures
        bytes_order(a, b) == -bytes_order(b, a),
        bytes_order(a, b) == 0 <==> a == b,
        -1 <= bytes_order(a, b) <= 1,
        bytes_order(a, b) <= 0 && bytes_order(b, c) <= 0 ==> bytes_order(a, c) <= 0,
        bytes_order(a, b) < 0 && bytes_order(b, c) <= 0 ==> bytes_order(a, c) < 0,
        bytes_order(a, b) <= 0 && bytes_order(b, c) < 0 ==> bytes_order(a, c) < 0,
    decreases a.len(),
{
    if a.len() > 0 && b.len() > 0 && c.len() > 0 {
        lemma_bytes_order(a.drop_first(), b.drop_first(), c.drop_first());
        if a[0] == b[0] && a.drop_first() == b.drop_first() {
            assert(a =~= seq![a[0]] + a.drop_first());
            assert(b =~= seq![b[0]] + b.drop_first());
        }
    } else if a.len() > 0 && b.len() > 0 {
        lemma_bytes_order(a.drop_first(), b.drop_first(), c);
        if a[0] == b[0] && a.drop_first() == b.drop_first() {
            assert(a =~= seq![a[0]] + a.drop_first());
            assert(b =~= seq![b[0]] + b.drop_first());
        }
    } else if a.len() == 0 && b.len() == 0 {
        assert(a =~= b);
    }
}

/// Ranking order is antisymmetric, and ranking strictly before is
/// transitive.
pub proof fn lemma_entry_order(a: EntryView, b: EntryView, c: EntryView)
    ensures
        entry_order(a, b) == -entry_order(b, a),
        ranks_before(a, b) && ranks_before(b, c) ==> ranks_before(a, c),
        !ranks_before(b, a) && !ranks_before(c, b) ==> !ranks_before(c, a),
{
    lemma_rate_order(a, b, c);
    lemma_rate_order(c, b, a);
    lemma_rate_order(b, c, a);
    lemma_rate_order(a, c, b);
    lemma_latency_order(a.best_latency, b.best_latency, c.best_latency);
    lemma_latency_order(c.best_latency, b.best_latency, a.best_latency);
    lemma_latency_order(a.best_latency, c.best_latency, b.best_latency);
    let (na, nb, nc) = (encode_utf8(a.strategy), encode_utf8(b.strategy), encode_utf8(c.strategy));
    lemma_bytes_order(na, nb, nc);
    lemma_bytes_order(nc, nb, na);
    lemma_bytes_order(na, nc, nb);
    lemma_bytes_order(nb, nc, na);
}

proof fn lemma_insert_position(r: Seq<EntryView>, e: EntryView)
    ensures
        0 <= insert_position(r, e) <= r.len(),
        forall|i: int| 0 <= i < insert_position(r, e) ==> !ranks_before(e, #[trigger] r[i]),
        insert_position(r, e) < r.len() ==> ranks_before(e, r[insert_position(r, e)]),
    decreases r.len(),
{
    if r.len() > 0 && !ranks_before(e, r[0]) {
        lemma_insert_position(r.drop_first(), e);
        assert forall|i: int| 0 <= i < insert_position(r, e) implies !ranks_before(
            e,
            #[trigger] r[i],
        ) by {
            if i > 0 {
                assert(r[i] == r.drop_first()[i - 1]);
            }
        }
    }
}

proof fn lemma_insert_keeps_ranked(r: Seq<EntryView>, e: EntryView)
    requires
        is_ranked(r),
    ensures
        is_ranked(r.insert(insert_position(r, e), e)),
{
    let p = insert_position(r, e);
    lemma_insert_position(r, e);
    let t = r.insert(p, e);
    assert forall|i: int, j: int| 0 <= i < j < t.len() implies !ranks_before(
        #[trigger] t[j],
        #[trigger] t[i],
    ) by {
        if j < p {
            assert(t[i] == r[i] && t[j] == r[j]);
        } else if j == p {
            assert(t[i] == r[i]);
        } else if i > p {
            assert(t[i] == r[i - 1] && t[j] == r[j - 1]);
        } else if i == p {
            // t[j] = r[j - 1] with j - 1 >= p: it does not rank before e.
            assert(t[j] == r[j - 1]);
            lemma_entry_order(e, r[p], r[j - 1]);
            lemma_entry_order(r[j - 1], e, r[p]);
            if j - 1 > p {
                assert(!ranks_before(r[j - 1], r[p]));
            }
        } else {
            assert(t[i] == r[i] && t[j] == r[j - 1]);
        }
    }
}

/// The ranking is a sorted rearrangement of its input: it holds the same
/// entries, and no entry ranks strictly before one placed ahead of it.
pub proof fn lemma_ranked_sorted_permutation(s: Seq<EntryView>)
    ensures
        is_ranked(ranked(s)),
        ranked(s).to_multiset() == s.to_multiset(),
        ranked(s).len() == s.len(),
    decreases s.len(),
{
    broadcast use vstd::seq_lib::to_multiset_build, vstd::seq_lib::to_multiset_insert;

    if s.len() > 0 {
        let prefix = s.drop_last();
        lemma_ranked_sorted_permutation(prefix);
        let r = ranked(prefix);
        lemma_insert_position(r, s.last());
        lemma_insert_keeps_ranked(r, s.last());
        assert(s =~= prefix.push(s.last()));
        vstd::seq_lib::to_multiset_insert(r, insert_position(r, s.last()), s.last());
        vstd::seq_lib::to_multiset_build(prefix, s.last());
        assert(ranked(s) == r.insert(insert_position(r, s.last()), s.last()));
    } else {
        assert(s =~= Seq::<EntryView>::empty());
    }
}

// ---------------------------------------------------------------------------
// Tallying a sweep
// ---------------------------------------------------------------------------

/// What one probe attempt reported: its verdict and, for a pass, its latency.
pub type Attempt = (Verdict, Option<u128>);

/// The number of passing attempts.
pub open spec fn count_passes(o: Seq<Attempt>) -> nat
    decreases o.len(),
{
    if o.len() == 0 {
        0
    } else {
        count_passes(o.drop_last()) + if o.last().0 == Verdict::Pass {
            1nat
        } else {
            0nat
        }
    }
}

/// The lowest latency reported by a passing attempt, if any reported one.
pub open spec fn fastest_pass(o: Seq<Attempt>) -> Option<u128>
    decreases o.len(),
{
    if o.len() == 0 {
        None
    } else {
        let best = fastest_pass(o.drop_last());
        let (verdict, latency) = o.last();
        if verdict == Verdict::Pass && latency is Some {
            let l = latency->0;
            Some(
                match best {
                    Some(b) => if b < l {
                        b
                    } else {
                        l
                    },
                    None => l,
                },
            )
        } else {
            best
        }
    }
}

/// The verdict of the last attempt; `Timeout` when there was none.
pub open spec fn final_verdict(o: Seq<Attempt>) -> Verdict {
    if o.len() == 0 {
        Verdict::Timeout
    } else {
        o.last().0
    }
}

/// The best latency of a strategy's attempts is the fastest of its passing
/// attempts: it is at most the latency of every passing attempt that
/// reported one and it is the latency of one of them; there is none exactly
/// when no passing attempt reported a latency.
pub proof fn lemma_fastest_pass_is_minimum(o: Seq<Attempt>)
    ensures
        forall|j: int|
            0 <= j < o.len() && (#[trigger] o[j]).0 == Verdict::Pass && o[j].1 is Some ==> {
                &&& fastest_pass(o) is Some
                &&& fastest_pass(o)->0 <= o[j].1->0
            },
        fastest_pass(o) is Some ==> exists|j: int|
            0 <= j < o.len() && (#[trigger] o[j]).0 == Verdict::Pass && o[j].1 == fastest_pass(o),
        fastest_pass(o) is None ==> forall|j: int|
            0 <= j < o.len() && (#[trigger] o[j]).0 == Verdict::Pass ==> o[j].1 is None,
    decreases o.len(),
{
    if o.len() > 0 {
        let p = o.drop_last();
        lemma_fastest_pass_is_minimum(p);
        let last = o.len() - 1;
        assert(o[last] == o.last());
        assert forall|j: int| 0 <= j < p.len() implies #[trigger] o[j] == p[j] by {}
        if fastest_pass(o) is Some {
            if !(o.last().0 == Verdict::Pass && o.last().1 is Some) || (fastest_pass(p) is Some
                && fastest_pass(p)->0 < o.last().1->0) {
                let j = choose|j: int|
                    0 <= j < p.len() && (#[trigger] p[j]).0 == Verdict::Pass && p[j].1
                        == fastest_pass(p);
                assert(o[j] == p[j]);
            } else {
                assert(o[last].1 == fastest_pass(o));
            }
        }
    }
}

/// The best latency of a tallied entry is the fastest of the passing
/// attempts of its strategy (see [`lemma_fastest_pass_is_minimum`]).
pub proof fn lemma_tally_best_latency(name: Seq<char>, attempts: u32, o: Seq<Attempt>)
    ensures
        forall|j: int|
            0 <= j < o.len() && (#[trigger] o[j]).0 == Verdict::Pass && o[j].1 is Some ==> {
                &&& tally(name, attempts, o).best_latency is Some
                &&& tally(name, attempts, o).best_latency->0 <= o[j].1->0
            },
        tally(name, attempts, o).best_latency is Some ==> exists|j: int|
            0 <= j < o.len() && (#[trigger] o[j]).0 == Verdict::Pass && o[j].1 == tally(
                name,
                attempts,
                o,
            ).best_latency,
{
    lemma_fastest_pass_is_minimum(o);
}

/// The table entry of a strategy named `name` from its attempts.
pub open spec fn tally(name: Seq<char>, attempts: u32, o: Seq<Attempt>) -> EntryView {
    EntryView {
        strategy: name,
        passes: count_passes(o) as u32,
        attempts,
        best_latency: fastest_pass(o),
        last_verdict: final_verdict(o),
    }
}

pub proof fn lemma_count_passes_bound(o: Seq<Attempt>)
    ensures
        count_passes(o) <= o.len(),
    decreases o.len(),
{
    if o.len() > 0 {
        lemma_count_passes_bound(o.drop_last());
    }
}

/// The state of a sweep, as the catalogue names, the number of attempts per
/// strategy and every attempt reported so far, in order.
pub struct TuneSessionView {
    pub names: Seq<Seq<char>>,
    pub rounds: u32,
    pub history: Seq<Attempt>,
}

/// The number of attempts of a complete sweep.
pub open spec fn sweep_length(v: TuneSessionView) -> int {
    v.names.len() * v.rounds
}

/// The attempts of the `k`-th strategy: the sweep probes each strategy
/// `rounds` times in a row, in catalogue order.
pub open spec fn strategy_attempts(history: Seq<Attempt>, rounds: u32, k: int) -> Seq<Attempt> {
    history.subrange(k * rounds, (k + 1) * rounds)
}

/// The unranked table of a complete sweep: one entry per strategy, in
/// catalogue order.
pub open spec fn sweep_table(v: TuneSessionView) -> Seq<EntryView> {
    Seq::new(v.names.len(), |k: int| tally(v.names[k], v.rounds, strategy_attempts(v.history, v.rounds, k)))
}

/// A sweep of the default catalogue against one target, driven by the
/// caller: [`TuneSession::next_probe`] names the catalogue entry to probe,
/// [`TuneSession::record`] takes its result, and [`TuneSession::finish`]
/// returns the ranked table once every strategy has been probed `rounds`
/// times.
pub struct TuneSession {
    names: Vec<String>,
    rounds: u32,
    index: usize,
    done: u32,
    passes: u32,
    best: Option<u128>,
    last: Verdict,
    entries: Vec<TuneEntry>,
    history: Ghost<Seq<Attempt>>,
}

impl View for TuneSession {
    type V = TuneSessionView;

    closed spec fn view(&self) -> TuneSessionView {
        TuneSessionView {
            names: self.names@.map_values(|n: String| n@),
            rounds: self.rounds,
            history: self.history@,
        }
    }
}

proof fn lemma_chunk_bounds(k: int, idx: int, r: int)
    requires
        0 <= k < idx,
        r >= 1,
    ensures
        0 <= k * r,
        k * r + r == (k + 1) * r,
        (k + 1) * r <= idx * r,
{
    assert((k + 1) * r <= idx * r) by (nonlinear_arith)
        requires
            k + 1 <= idx,
            r >= 1,
    ;
    assert(k * r + r == (k + 1) * r) by (nonlinear_arith);
    assert(0 <= k * r) by (nonlinear_arith)
        requires
            k >= 0,
            r >= 1,
    ;
}

impl TuneSession {
    /// The bookkeeping agrees with the attempts reported so far.
    pub closed spec fn wf(&self) -> bool {
        let r = self.rounds as int;
        let h = self.history@;
        let cur = h.subrange(self.index * r, h.len() as int);
        &&& r >= 1
        &&& self.index <= self.names@.len()
        &&& self.done < self.rounds
        &&& self.index == self.names@.len() ==> self.done == 0
        &&& h.len() == self.index * r + self.done
        &&& cur.len() == self.done
        &&& self.passes == count_passes(cur)
        &&& self.best == fastest_pass(cur)
        &&& self.last == final_verdict(cur)
        &&& self.entries@.len() == self.index
        &&& forall|k: int|
            0 <= k < self.index ==> #[trigger] self.entries@[k]@ == tally(
                self.names@[k]@,
                self.rounds,
                strategy_attempts(h, self.rounds, k),
            )
    }

    /// Start a sweep of the default catalogue with `rounds` attempts per
    /// strategy (at least one).
    pub fn new(rounds: u32) -> (session: TuneSession)
        ensures
            session.wf(),
            session@.names == catalogue_names(),
            session@.rounds == if rounds < 1 {
                1
            } else {
                rounds
            },
            session@.history == Seq::<Attempt>::empty(),
    {
        let catalogue = default_catalogue();
        let mut names: Vec<String> = Vec::new();
        let mut i: usize = 0;
        while i < catalogue.len()
            invariant
                catalogue@.len() == 7,
                forall|k: int| 0 <= k < 7 ==> catalogue_entry(k, #[trigger] catalogue@[k]),
                i <= 7,
                names@.len() == i,
                forall|k: int| 0 <= k < i ==> #[trigger] names@[k]@ == catalogue_names()[k],
            decreases 7 - i,
        {
            proof {
                crate::strategy::lemma_catalogue_entry_name(i as int, catalogue@[i as int]);
            }
            names.push(catalogue[i].name().to_owned());
            i = i + 1;
        }
        let session = TuneSession {
            names,
            rounds: if rounds < 1 {
                1
            } else {
                rounds
            },
            index: 0,
            done: 0,
            passes: 0,
            best: None,
            last: Verdict::Timeout,
            entries: Vec::new(),
            history: Ghost(Seq::empty()),
        };
        assert(session@.names =~= catalogue_names());
        assert(session.history@.subrange(0, 0) =~= Seq::<Attempt>::empty());
        session
    }

    /// The catalogue index of the strategy to probe next, or `None` once the
    /// sweep is complete.
    pub fn next_probe(&self) -> (next: Option<usize>)
        requires
            self.wf(),
        ensures
            next == if self@.history.len() < sweep_length(self@) {
                Some((self@.history.len() as int / (self@.rounds as int)) as usize)
            } else {
                None::<usize>
            },
    {
        let ghost r = self.rounds as int;
        let ghost n = self.names@.len() as int;
        proof {
            assert(self@.names.len() == n);
            let len = self.history@.len() as int;
            assert((self.index * r + self.done) / r == self.index) by (nonlinear_arith)
                requires
                    0 <= self.done < r,
                    self.index >= 0,
            ;
            assert(self.index < n ==> self.index * r + self.done < n * r) by (nonlinear_arith)
                requires
                    0 <= self.done < r,
                    self.index < n ==> self.index + 1 <= n,
                    r >= 1,
            ;
        }
        if self.index < self.names.len() {
            Some(self.index)
        } else {
            None
        }
    }

    /// Take the result of probing the strategy that [`TuneSession::next_probe`]
    /// named.
    pub fn record(&mut self, result: &ProbeResult)
        requires
            old(self).wf(),
            old(self)@.history.len() < sweep_length(old(self)@),
        ensures
            final(self).wf(),
            final(self)@.names == old(self)@.names,
            final(self)@.rounds == old(self)@.rounds,
            final(self)@.history == old(self)@.history.push((result.verdict, result.latency)),
    {
        let ghost r = self.rounds as int;
        let count = self.names.len();
        let ghost old_h = self.history@;
        let ghost attempt: Attempt = (result.verdict, result.latency);
        let ghost old_cur = old_h.subrange(self.index * r, old_h.len() as int);
        proof {
            let n = self.names@.len() as int;
            assert(self@.names.len() == n);
            assert(self.index < n) by {
                if self.index == n {
                    assert(old_h.len() == n * r);
                }
            }
            lemma_count_passes_bound(old_cur);
        }
        let verdict = result.verdict;
        let latency = result.latency;
        if verdict.is_pass() {
            self.passes = self.passes + 1;
            if let Some(l) = latency {
                self.best = Some(
                    match self.best {
                        Some(b) => if b < l {
                            b
                        } else {
                            l
                        },
                        None => l,
                    },
                );
            }
        }
        self.last = verdict;
        self.done = self.done + 1;
        self.history = Ghost(old_h.push(attempt));
        let ghost h = self.history@;
        let ghost cur = h.subrange(self.index * r, h.len() as int);
        proof {
            assert(cur =~= old_cur.push(attempt));
            assert(cur.drop_last() =~= old_cur);
            assert forall|k: int| 0 <= k < self.index implies strategy_attempts(h, self.rounds, k)
                == strategy_attempts(old_h, self.rounds, k) by {
                lemma_chunk_bounds(k, self.index as int, r);
                assert(strategy_attempts(h, self.rounds, k) =~= strategy_attempts(
                    old_h,
                    self.rounds,
                    k,
                ));
            }
        }
        if self.done == self.rounds {
            let entry = TuneEntry {
                strategy: self.names[self.index].clone(),
                passes: self.passes,
                attempts: self.rounds,
                best_latency: self.best,
                last_verdict: self.last,
            };
            proof {
                assert(strategy_attempts(h, self.rounds, self.index as int) =~= cur) by {
                    assert(self.index * r + r == (self.index + 1) * r) by (nonlinear_arith);
                }
            }
            self.entries.push(entry);
            assert(self.index < count);
            self.index = self.index + 1;
            self.done = 0;
            self.passes = 0;
            self.best = None;
            self.last = Verdict::Timeout;
            proof {
                assert(self.index * r == (self.index - 1) * r + r) by (nonlinear_arith);
                assert(h.subrange(self.index * r, h.len() as int) =~= Seq::<Attempt>::empty());
            }
        }
    }

    /// The ranked table of a complete sweep.
    pub fn finish(self) -> (table: Vec<TuneEntry>)
        requires
            self.wf(),
            self@.history.len() == sweep_length(self@),
        ensures
            entry_views(table@) == sweep_report(self@),
    {
        proof {
            let n = self.names@.len() as int;
            let r = self.rounds as int;
            assert(self@.names.len() == n);
            assert(self.index == n) by {
                if self.index < n {
                    assert(self.index * r + self.done < n * r) by (nonlinear_arith)
                        requires
                            self.index + 1 <= n,
                            0 <= self.done < r,
                    ;
                }
            }
            assert(entry_views(self.entries@) =~= sweep_table(self@));
        }
        rank(self.entries)
    }
}

/// The table that [`TuneSession::finish`] hands out for a complete sweep.
pub open spec fn sweep_report(v: TuneSessionView) -> Seq<EntryView> {
    ranked(sweep_table(v))
}

/// A strategy has a fastest passing latency only after a pass; when every
/// attempt reports a latency exactly for a pass, also after every pass.
pub proof fn lemma_fastest_pass_needs_pass(o: Seq<Attempt>)
    ensures
        fastest_pass(o) is Some ==> count_passes(o) > 0,
        (forall|j: int|
            0 <= j < o.len() ==> ((#[trigger] o[j]).0 == Verdict::Pass <==> o[j].1 is Some))
            ==> (fastest_pass(o) is Some <==> count_passes(o) > 0),
    decreases o.len(),
{
    if o.len() > 0 {
        let p = o.drop_last();
        lemma_fastest_pass_needs_pass(p);
        if forall|j: int|
            0 <= j < o.len() ==> ((#[trigger] o[j]).0 == Verdict::Pass <==> o[j].1 is Some) {
            assert forall|j: int| 0 <= j < p.len() implies ((#[trigger] p[j]).0 == Verdict::Pass
                <==> p[j].1 is Some) by {
                assert(p[j] == o[j]);
            }
            assert(o[o.len() - 1] == o.last());
        }
    }
}

/// Each entry of the table of a complete sweep tallies `rounds` attempts of
/// its strategy.
proof fn lemma_sweep_table_entries(v: TuneSessionView)
    requires
        v.names.len() == 7,
        v.rounds >= 1,
        v.history.len() == sweep_length(v),
    ensures
        forall|k: int|
            0 <= k < 7 ==> {
                &&& (#[trigger] sweep_table(v)[k]).attempts == v.rounds
                &&& sweep_table(v)[k].passes <= sweep_table(v)[k].attempts
                &&& sweep_table(v)[k].best_latency is Some ==> sweep_table(v)[k].passes > 0
                &&& (forall|j: int|
                    0 <= j < v.history.len() ==> ((#[trigger] v.history[j]).0 == Verdict::Pass
                        <==> v.history[j].1 is Some)) ==> (sweep_table(v)[k].best_latency is Some
                    <==> sweep_table(v)[k].passes > 0)
            },
{
    let t = sweep_table(v);
    let h = v.history;
    let rounds = v.rounds as int;
    assert forall|k: int| 0 <= k < 7 implies {
        &&& (#[trigger] t[k]).attempts == v.rounds
        &&& t[k].passes <= t[k].attempts
        &&& t[k].best_latency is Some ==> t[k].passes > 0
        &&& (forall|j: int|
            0 <= j < h.len() ==> ((#[trigger] h[j]).0 == Verdict::Pass <==> h[j].1 is Some))
            ==> (t[k].best_latency is Some <==> t[k].passes > 0)
    } by {
        let o = strategy_attempts(h, v.rounds, k);
        lemma_chunk_bounds(k, 7, rounds);
        assert(o.len() == rounds);
        lemma_count_passes_bound(o);
        lemma_fastest_pass_needs_pass(o);
        if forall|j: int|
            0 <= j < h.len() ==> ((#[trigger] h[j]).0 == Verdict::Pass <==> h[j].1 is Some) {
            assert forall|j: int| 0 <= j < o.len() implies ((#[trigger] o[j]).0 == Verdict::Pass
                <==> o[j].1 is Some) by {
                assert(o[j] == h[k * rounds + j]);
            }
        }
    }
}

/// The ranking of a table whose entries carry pairwise distinct names holds
/// exactly the table's entries, each once.
proof fn lemma_ranked_same_entries(t: Seq<EntryView>)
    requires
        forall|i: int, j: int|
            #![trigger t[i], t[j]]
            0 <= i < t.len() && 0 <= j < t.len() && i != j ==> t[i].strategy != t[j].strategy,
    ensures
        ranked(t).len() == t.len(),
        forall|i: int|
            #![trigger ranked(t)[i]]
            0 <= i < t.len() ==> exists|k: int| 0 <= k < t.len() && #[trigger] t[k] == ranked(t)[i],
        forall|k: int|
            #![trigger t[k]]
            0 <= k < t.len() ==> exists|i: int| 0 <= i < t.len() && #[trigger] ranked(t)[i] == t[k],
        forall|i: int, j: int|
            #![trigger ranked(t)[i], ranked(t)[j]]
            0 <= i < t.len() && 0 <= j < t.len() && ranked(t)[i].strategy == ranked(t)[j].strategy
                ==> i == j,
{
    let r = ranked(t);
    lemma_ranked_sorted_permutation(t);
    assert(t.no_duplicates()) by {
        assert forall|i: int, j: int| 0 <= i < t.len() && 0 <= j < t.len() && i != j implies t[i]
            != t[j] by {
            assert(t[i].strategy != t[j].strategy);
        }
    }
    t.lemma_multiset_has_no_duplicates();
    assert forall|x: EntryView| r.to_multiset().contains(x) implies r.to_multiset().count(x)
        == 1 by {
        assert(t.to_multiset().contains(x));
    }
    r.lemma_multiset_has_no_duplicates_conv();
    assert forall|i: int| #![trigger r[i]] 0 <= i < t.len() implies exists|k: int|
        0 <= k < t.len() && #[trigger] t[k] == r[i] by {
        vstd::seq_lib::to_multiset_contains(r, r[i]);
        vstd::seq_lib::to_multiset_contains(t, r[i]);
        assert(r.contains(r[i]));
    }
    assert forall|k: int| #![trigger t[k]] 0 <= k < t.len() implies exists|i: int|
        0 <= i < t.len() && #[trigger] r[i] == t[k] by {
        vstd::seq_lib::to_multiset_contains(r, t[k]);
        vstd::seq_lib::to_multiset_contains(t, t[k]);
        assert(t.contains(t[k]));
    }
    assert forall|i: int, j: int|
        #![trigger r[i], r[j]]
        0 <= i < t.len() && 0 <= j < t.len() && r[i].strategy == r[j].strategy implies i == j by {
        let ki = choose|k: int| 0 <= k < t.len() && #[trigger] t[k] == r[i];
        let kj = choose|k: int| 0 <= k < t.len() && #[trigger] t[k] == r[j];
        assert(ki == kj);
        assert(r[i] == r[j]);
    }
}

/// The table of a sweep of the default catalogue lists the catalogue names
/// in order, so no two of its entries share a name.
proof fn lemma_sweep_table_names(v: TuneSessionView)
    requires
        v.names == catalogue_names(),
    ensures
        sweep_table(v).len() == 7,
        forall|k: int| 0 <= k < 7 ==> #[trigger] sweep_table(v)[k].strategy === catalogue_names()[k],
        forall|i: int, j: int|
            #![trigger sweep_table(v)[i], sweep_table(v)[j]]
            0 <= i < 7 && 0 <= j < 7 && i != j ==> sweep_table(v)[i].strategy
                != sweep_table(v)[j].strategy,
{
    let t = sweep_table(v);
    let names = catalogue_names();
    lemma_catalogue_names_distinct();
    assert forall|i: int, j: int|
        #![trigger t[i], t[j]]
        0 <= i < 7 && 0 <= j < 7 && i != j implies t[i].strategy != t[j].strategy by {
        assert(t[i].strategy == names[i] && t[j].strategy == names[j]);
    }
}

/// A complete sweep of the default catalogue reports every catalogue
/// strategy exactly once, ranked.
pub proof fn lemma_finished_sweep(v: TuneSessionView)
    requires
        v.names == catalogue_names(),
        v.rounds >= 1,
        v.history.len() == sweep_length(v),
    ensures
        sweep_report(v).len() == 7,
        is_ranked(sweep_report(v)),
        forall|k: int|
            #![trigger catalogue_names()[k]]
            0 <= k < 7 ==> exists|i: int|
                0 <= i < 7 && #[trigger] sweep_report(v)[i].strategy === catalogue_names()[k],
        forall|i: int, j: int|
            #![trigger sweep_report(v)[i], sweep_report(v)[j]]
            0 <= i < 7 && 0 <= j < 7 && sweep_report(v)[i].strategy === sweep_report(v)[j].strategy
                ==> i == j,
{
    let t = sweep_table(v);
    let r = sweep_report(v);
    let names = catalogue_names();
    lemma_sweep_table_names(v);
    lemma_ranked_same_entries(t);
    assert forall|k: int| #![trigger names[k]] 0 <= k < 7 implies exists|i: int|
        0 <= i < 7 && #[trigger] r[i].strategy === names[k] by {
        let i = choose|i: int| 0 <= i < 7 && #[trigger] r[i] === t[k];
        assert(r[i].strategy === t[k].strategy);
    }
    lemma_ranked_sorted_permutation(t);
}

/// Each entry that a complete sweep of the default catalogue reports
/// tallies one catalogue strategy's own `rounds` attempts: it counts
/// `rounds` attempts and at most as many passes, and it has a best latency
/// only if the strategy passed; when every probe reports a latency exactly
/// for a pass, it has one exactly then.
pub proof fn lemma_finished_sweep_entries(v: TuneSessionView)
    requires
        v.names == catalogue_names(),
        v.rounds >= 1,
        v.history.len() == sweep_length(v),
    ensures
        forall|i: int|
            0 <= i < 7 ==> exists|k: int|
                0 <= k < 7 && #[trigger] sweep_report(v)[i] === tally(
                    catalogue_names()[k],
                    v.rounds,
                    strategy_attempts(v.history, v.rounds, k),
                ),
        forall|i: int|
            0 <= i < 7 ==> {
                &&& (#[trigger] sweep_report(v)[i]).attempts == v.rounds
                &&& sweep_report(v)[i].passes <= sweep_report(v)[i].attempts
                &&& sweep_report(v)[i].best_latency is Some ==> sweep_report(v)[i].passes > 0
            },
        (forall|j: int|
            0 <= j < v.history.len() ==> ((#[trigger] v.history[j]).0 == Verdict::Pass
                <==> v.history[j].1 is Some)) ==> forall|i: int|
            0 <= i < 7 ==> ((#[trigger] sweep_report(v)[i]).best_latency is Some
                <==> sweep_report(v)[i].passes > 0),
{
    let t = sweep_table(v);
    let r = sweep_report(v);
    let h = v.history;
    let names = catalogue_names();
    lemma_sweep_table_names(v);
    lemma_sweep_table_entries(v);
    lemma_ranked_same_entries(t);
    assert forall|i: int| 0 <= i < 7 implies exists|k: int|
        0 <= k < 7 && #[trigger] r[i] === tally(names[k], v.rounds, strategy_attempts(h, v.rounds, k))
        by {
        let k = choose|k: int| 0 <= k < 7 && #[trigger] t[k] === r[i];
        assert(t[k] === tally(names[k], v.rounds, strategy_attempts(h, v.rounds, k)));
    }
    assert forall|i: int| 0 <= i < 7 implies {
        &&& (#[trigger] r[i]).attempts == v.rounds
        &&& r[i].passes <= r[i].attempts
        &&& r[i].best_latency is Some ==> r[i].passes > 0
        &&& (forall|j: int|
            0 <= j < h.len() ==> ((#[trigger] h[j]).0 == Verdict::Pass <==> h[j].1 is Some))
            ==> (r[i].best_latency is Some <==> r[i].passes > 0)
    } by {
        let k = choose|k: int| 0 <= k < 7 && #[trigger] t[k] === r[i];
        assert(t[k].attempts == v.rounds);
    }
}

// ---------------------------------------------------------------------------
// Recommendation
// ---------------------------------------------------------------------------

/// The position of the first entry that passed at least once.
pub open spec fn first_passing(s: Seq<EntryView>) -> Option<int>
    decreases s.len(),
{
    if s.len() == 0 {
        None
    } else if s[0].passes > 0 {
        Some(0)
    } else {
        match first_passing(s.drop_first()) {
            Some(i) => Some(i + 1),
            None => None,
        }
    }
}

proof fn lemma_first_passing(s: Seq<EntryView>)
    ensures
        first_passing(s) matches Some(i) ==> 0 <= i < s.len() && s[i].passes > 0 && forall|j: int|
            0 <= j < i ==> #[trigger] s[j].passes == 0,
        first_passing(s) is None <==> forall|j: int| 0 <= j < s.len() ==> #[trigger] s[j].passes == 0,
    decreases s.len(),
{
    if s.len() > 0 {
        lemma_first_passing(s.drop_first());
        assert forall|j: int| 1 <= j < s.len() implies #[trigger] s[j] == s.drop_first()[j - 1] by {}
        if s[0].passes == 0 && first_passing(s.drop_first()) is None {
            assert forall|j: int| 0 <= j < s.len() implies #[trigger] s[j].passes == 0 by {
                if j > 0 {
                    assert(s.drop_first()[j - 1].passes == 0);
                }
            }
        }
    }
}

/// The strategy to recommend from a ranked table: the first one that got
/// through at least once.
pub fn recommend(entries: &Vec<TuneEntry>) -> (choice: Option<String>)
    ensures
        choice matches Some(name) ==> (first_passing(entry_views(entries@)) matches Some(i)
            && name@ == entries@[i].strategy@),
        choice is None <==> first_passing(entry_views(entries@)) is None,
{
    let ghost v = entry_views(entries@);
    let mut i: usize = 0;
    assert(v.skip(0) =~= v);
    while i < entries.len()
        invariant
            i <= entries@.len(),
            v == entry_views(entries@),
            first_passing(v) == match first_passing(v.skip(i as int)) {
                Some(j) => Some(j + i),
                None => None,
            },
        decreases entries@.len() - i,
    {
        assert(v.skip(i as int)[0] == entries@[i as int]@);
        if entries[i].passes > 0 {
            return Some(entries[i].strategy.clone());
        }
        assert(v.skip(i as int).drop_first() =~= v.skip(i + 1));
        i = i + 1;
    }
    assert(v.skip(i as int) =~= Seq::<EntryView>::empty());
    None
}

/// The recommended strategy of a ranked table, ready to use.
pub fn best_strategy(entries: &Vec<TuneEntry>) -> (choice: Option<AnyStrategy>)
    ensures
        choice matches Some(s) ==> (first_passing(entry_views(entries@)) matches Some(i) && exists|
            k: int,
        |
            0 <= k < 7 && catalogue_names()[k] == entries@[i].strategy@ && #[trigger] catalogue_entry(
                k,
                s,
            )),
        choice is None <==> (first_passing(entry_views(entries@)) matches Some(i) ==> forall|k: int|
            0 <= k < 7 ==> #[trigger] catalogue_names()[k] != entries@[i].strategy@),
{
    match recommend(entries) {
        Some(name) => by_name(name.as_str()),
        None => None,
    }
}

/// Recommending from the ranked table picks a strategy with the highest
/// pass rate of the sweep; there is one to recommend exactly when some
/// strategy passed.  This holds whenever every entry was attempted at least
/// once, as in every table a sweep produces.
pub proof fn lemma_recommendation_is_best(s: Seq<EntryView>)
    requires
        forall|j: int| 0 <= j < s.len() ==> (#[trigger] s[j]).attempts > 0,
    ensures
        first_passing(ranked(s)) is Some <==> exists|j: int| 0 <= j < s.len() && (#[trigger] s[j]).passes > 0,
        first_passing(ranked(s)) matches Some(i) ==> forall|j: int|
            0 <= j < s.len() ==> rate_order(ranked(s)[i], #[trigger] s[j]) <= 0,
{
    broadcast use vstd::seq_lib::to_multiset_contains;

    let r = ranked(s);
    lemma_ranked_sorted_permutation(s);
    lemma_first_passing(r);
    // every entry of the ranking is an entry of the sweep and back
    assert forall|j: int| 0 <= j < s.len() implies exists|m: int|
        0 <= m < r.len() && r[m] == #[trigger] s[j] by {
        assert(s.contains(s[j]));
        assert(r.to_multiset().contains(s[j]));
        assert(r.contains(s[j]));
    }
    assert forall|m: int| 0 <= m < r.len() implies (#[trigger] r[m]).attempts > 0 by {
        assert(r.contains(r[m]));
        assert(s.to_multiset().contains(r[m]));
        assert(s.contains(r[m]));
    }
    if exists|j: int| 0 <= j < s.len() && (#[trigger] s[j]).passes > 0 {
        let j = choose|j: int| 0 <= j < s.len() && (#[trigger] s[j]).passes > 0;
        let m = choose|m: int| 0 <= m < r.len() && r[m] == s[j];
        if m > 0 {
            assert(!ranks_before(r[m], r[0]));
            lemma_entry_order(r[m], r[0], r[0]);
            lemma_rate_order(r[m], r[0], r[0]);
            assert(rate_order(r[0], r[m]) <= 0);
            assert(r[0].passes * r[m].attempts >= r[m].passes * r[0].attempts);
            assert(r[0].passes > 0) by (nonlinear_arith)
                requires
                    r[m].passes > 0,
                    r[0].attempts > 0,
                    r[m].attempts > 0,
                    r[0].passes * r[m].attempts >= r[m].passes * r[0].attempts,
            ;
        }
        assert(r[0].passes > 0);
        assert(first_passing(r) == Some(0int));
        assert forall|k: int| 0 <= k < s.len() implies rate_order(r[0], #[trigger] s[k]) <= 0 by {
            let mk = choose|m: int| 0 <= m < r.len() && r[m] == s[k];
            if mk > 0 {
                assert(!ranks_before(r[mk], r[0]));
                lemma_entry_order(r[mk], r[0], r[0]);
            }
        }
    } else {
        assert forall|m: int| 0 <= m < r.len() implies #[trigger] r[m].passes == 0 by {
            assert(r.contains(r[m]));
            assert(s.to_multiset().contains(r[m]));
            assert(s.contains(r[m]));
        }
    }
}

} // verus!
